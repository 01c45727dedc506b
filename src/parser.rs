use vstd::prelude::*;

use crate::date::{date_in, parse_u32, Date, Time};
use crate::model::{
    ChildrenModel, all_done, child_lines, child_text, colon, colon_space, date_at, day_tag,
    done_mark, done_tag, event_at, event_head, event_notes, event_tag, events_from, events_of,
    events_view, is_unit_end_at, item_tag, lemma_unit_end_found, lemma_unit_end_has_line_end,
    line_feed, plain_evt_mark, prepend, prepend_pair, subtasks_view, task_at, task_children,
    tasks_from, tasks_of, tasks_view, todo_mark, todo_tag, unit_end, unit_ends,
};
use crate::text::{
    copy_range, find_from, lemma_first_occ_found, lemma_first_occ_min,
    lemma_last_occ_found, matches_at, occurs_at, opt_int, rfind_before, skip_white, slice,
    slice_from, split_lines, string_of, trim_start,
};
use crate::types::{strings_view, Event, EventModel, Subtask, SubtaskModel, Task, TaskModel};

verus! {

/// Lines that end with a line feed.
pub const LINE_END_LINUX: &'static str = "\n";

/// Lines that end with a carriage return and a line feed.
pub const LINE_END_WINDOWS: &'static str = "\r\n";

/// Why a text could not be read; `pos` is the index, in characters, where the line of the
/// record starts.
#[derive(Clone, Copy, Debug, PartialEq, Eq, Hash)]
pub enum ParseError {
    /// The line of the record at `pos` has no line ending.
    UnterminatedLine { pos: usize },
    /// No day heading comes before the record at `pos`.
    MissingDayHeading { pos: usize },
    /// The digits of the day heading of the record at `pos` name no date.
    InvalidDate { pos: usize },
    /// The event line at `pos` has a malformed time or no message.
    MalformedEvent { pos: usize },
    /// The task at `pos`, or one of its subtasks, has no `: ` before its message.
    MissingMessage { pos: usize },
    /// A note of the event at `pos` is shorter than its item marker.
    MalformedNote { pos: usize },
    /// Nothing ends the unit of the record at `pos`.
    UnterminatedUnit { pos: usize },
}

/// Reads tasks and events out of a log written with one line ending.
pub struct Parser {
    line_end: Vec<char>,
    unit_ends: Vec<Vec<char>>,
    task_tag_todo: Vec<char>,
    task_tag_done: Vec<char>,
    event_tag: Vec<char>,
    day_tag: Vec<char>,
}

impl View for Parser {
    type V = Seq<char>;

    /// The line ending.
    closed spec fn view(&self) -> Seq<char> {
        self.line_end@
    }
}

fn concat(a: &Vec<char>, b: &Vec<char>) -> (r: Vec<char>)
    ensures
        r@ == a@ + b@,
{
    let mut r = a.clone();
    let mut i: usize = 0;
    while i < b.len()
        invariant
            i <= b@.len(),
            r@ == a@ + b@.subrange(0, i as int),
        decreases b@.len() - i,
    {
        r.push(b[i]);
        assert(b@.subrange(0, i + 1) =~= b@.subrange(0, i as int).push(b@[i as int]));
        i = i + 1;
    }
    assert(b@.subrange(0, b@.len() as int) =~= b@);
    r
}

impl Parser {
    pub closed spec fn wf(&self) -> bool {
        let le = self.line_end@;
        &&& self.unit_ends@.len() == 4
        &&& forall|k: int| 0 <= k < 4 ==> #[trigger] self.unit_ends@[k]@ == unit_ends(le)[k]
        &&& self.task_tag_todo@ == todo_tag(le)
        &&& self.task_tag_done@ == done_tag(le)
        &&& self.event_tag@ == event_tag(le)
        &&& self.day_tag@ == day_tag(le)
    }

    /// A parser for text whose lines end with `line_end`.
    pub fn from_line_end(line_end: &str) -> (p: Parser)
        ensures
            p.wf(),
            p@ == line_end@,
    {
        let le = crate::text::chars_of(line_end);
        let item = vec!['-', ' '];
        let le_item = concat(&le, &item);
        let todo = concat(&le_item, &vec!['T', 'O', 'D', 'O']);
        let done = concat(&le_item, &vec!['D', 'O', 'N', 'E']);
        let evt = concat(&le_item, &vec!['E', 'V', 'T']);
        let day = concat(&le, &vec!['#', '#', ' ']);
        let mut ends: Vec<Vec<char>> = Vec::new();
        ends.push(le_item);
        ends.push(concat(&le, &le));
        ends.push(day.clone());
        ends.push(concat(&le, &vec!['#', ' ', 'W', 'e', 'e', 'k', ' ']));
        let p = Parser {
            line_end: le,
            unit_ends: ends,
            task_tag_todo: todo,
            task_tag_done: done,
            event_tag: evt,
            day_tag: day,
        };
        proof {
            let l = p.line_end@;
            assert(p.unit_ends@[0]@ == unit_ends(l)[0]);
            assert(p.unit_ends@[1]@ == unit_ends(l)[1]);
            assert(p.unit_ends@[2]@ == unit_ends(l)[2]);
            assert(p.unit_ends@[3]@ == unit_ends(l)[3]);
        }
        p
    }

    fn is_unit_end(&self, t: &Vec<char>, i: usize) -> (r: bool)
        requires
            self.wf(),
        ensures
            r == is_unit_end_at(self@, t@, i as int),
    {
        let mut k: usize = 0;
        while k < 4
            invariant
                self.wf(),
                k <= 4,
                forall|j: int| 0 <= j < k ==> !occurs_at(t@, i as int, #[trigger] unit_ends(self@)[j]),
            decreases 4 - k,
        {
            if matches_at(t, i, &self.unit_ends[k]) {
                return true;
            }
            k = k + 1;
        }
        false
    }

    /// The first index at or after `from` where a unit of `t` ends.
    pub fn unit_end_in(&self, t: &Vec<char>, from: usize) -> (r: Option<usize>)
        requires
            self.wf(),
        ensures
            opt_int(r) == unit_end(self@, t@, from as int),
    {
        let mut i: usize = from;
        while i < t.len()
            invariant
                self.wf(),
                from <= i,
                unit_end(self@, t@, from as int) == unit_end(self@, t@, i as int),
            decreases t@.len() - i,
        {
            if self.is_unit_end(t, i) {
                return Some(i);
            }
            i = i + 1;
        }
        None
    }

    /// Where the unit that starts `s` ends: the first top-level item, empty line, day heading
    /// or week heading; `None` where none follows.
    pub fn lookup_end_of_unit(&self, s: &str) -> (r: Option<usize>)
        requires
            self.wf(),
        ensures
            opt_int(r) == unit_end(self@, s@, 0),
    {
        let t = crate::text::chars_of(s);
        self.unit_end_in(&t, 0)
    }

    /// The event whose marker starts at `m`.
    fn read_event_at(&self, t: &Vec<char>, m: usize) -> (r: Result<Event, ParseError>)
        requires
            self.wf(),
            occurs_at(t@, m as int, event_tag(self@)),
        ensures
            match r {
                Ok(e) => event_at(self@, t@, m as int) == Ok::<EventModel, ParseError>(e@),
                Err(x) => event_at(self@, t@, m as int) == Err::<EventModel, ParseError>(x),
            },
    {
        let le = self.line_end.len();
        let n = t.len();
        let start = m + le;
        let line = match slice(t, start, &self.line_end) {
            None => {
                return Err(ParseError::UnterminatedLine { pos: start });
            },
            Some(l) => l,
        };
        proof {
            lemma_first_occ_found(t@, start as int, self@);
        }
        let date = match self.lookup_date(t, start) {
            Err(e) => {
                return Err(e);
            },
            Ok(d) => d,
        };
        let (msg, time) = match read_event_head(&line) {
            None => {
                return Err(ParseError::MalformedEvent { pos: start });
            },
            Some(x) => x,
        };
        if le > n - start {
            return Err(ParseError::UnterminatedUnit { pos: start });
        }
        let su = start + le;
        let end = match self.unit_end_in(t, su) {
            None => {
                return Err(ParseError::UnterminatedUnit { pos: start });
            },
            Some(e) => e,
        };
        proof {
            lemma_unit_end_found(self@, t@, su as int);
        }
        let lf = vec!['\n'];
        assert(lf@ =~= line_feed());
        let ls: Vec<Vec<char>> = match find_from(t, su, &lf) {
            Some(f) => {
                proof {
                    lemma_first_occ_found(t@, su as int, lf@);
                }
                if f < end {
                    split_lines(t, f + 1, end)
                } else {
                    Vec::new()
                }
            },
            None => Vec::new(),
        };
        assert(ls@.map_values(|v: Vec<char>| v@) =~= child_lines(t@, su as int, end as int));
        let notes = match read_event_notes(&ls) {
            None => {
                return Err(ParseError::MalformedNote { pos: start });
            },
            Some(ns) => ns,
        };
        Ok(Event { msg, notes, date, time })
    }

    /// Every event of `log_data`, in the order of the text.
    pub fn parse_events(&self, log_data: &str) -> (r: Result<Vec<Event>, ParseError>)
        requires
            self.wf(),
        ensures
            match r {
                Ok(v) => events_of(self@, log_data@) == Ok::<Seq<EventModel>, ParseError>(events_view(v@)),
                Err(e) => events_of(self@, log_data@) == Err::<Seq<EventModel>, ParseError>(e),
            },
    {
        let t = crate::text::chars_of(log_data);
        let mut evs: Vec<Event> = Vec::new();
        let mut i: usize = 0;
        assert(events_view(evs@) =~= Seq::<EventModel>::empty());
        assert(prepend(Seq::<EventModel>::empty(), events_from(self@, t@, 0)) =~= events_from(
            self@,
            t@,
            0,
        )) by {
            match events_from(self@, t@, 0) {
                Ok(x) => assert(Seq::<EventModel>::empty() + x =~= x),
                Err(_) => {},
            }
        }
        while i < t.len()
            invariant
                self.wf(),
                t@ == log_data@,
                events_of(self@, t@) == prepend(events_view(evs@), events_from(self@, t@, i as int)),
            decreases t@.len() - i,
        {
            if matches_at(&t, i, &self.event_tag) {
                match self.read_event_at(&t, i) {
                    Err(e) => {
                        return Err(e);
                    },
                    Ok(ev) => {
                        let ghost before = events_view(evs@);
                        evs.push(ev);
                        proof {
                            assert(events_view(evs@) =~= before.push(ev@));
                            match events_from(self@, t@, i + 1) {
                                Ok(rest) => {
                                    assert(before + (seq![ev@] + rest) =~= before.push(ev@) + rest);
                                },
                                Err(_) => {},
                            }
                        }
                    },
                }
            }
            i = i + 1;
        }
        Ok(evs)
    }

    /// The task whose marker starts at `m`, with its conflicting child lines.
    fn read_task_at(&self, t: &Vec<char>, m: usize, done: bool) -> (r: Result<
        (Task, Vec<String>),
        ParseError,
    >)
        requires
            self.wf(),
            occurs_at(t@, m as int, todo_tag(self@)) || occurs_at(t@, m as int, done_tag(self@)),
        ensures
            match r {
                Ok((task, cs)) => task_at(self@, t@, m as int, done) == Ok::<
                    (TaskModel, Seq<Seq<char>>),
                    ParseError,
                >((task@, strings_view(cs@))),
                Err(x) => task_at(self@, t@, m as int, done) == Err::<
                    (TaskModel, Seq<Seq<char>>),
                    ParseError,
                >(x),
            },
    {
        let le = self.line_end.len();
        let n = t.len();
        proof {
            assert(todo_tag(self@).len() == le + 6);
            assert(done_tag(self@).len() == le + 6);
        }
        let start = m + le;
        let eol = match find_from(t, start, &self.line_end) {
            None => {
                return Err(ParseError::UnterminatedLine { pos: start });
            },
            Some(e) => e,
        };
        proof {
            lemma_first_occ_found(t@, start as int, self@);
            lemma_first_occ_min(t@, start as int, self@);
        }
        let date = match self.lookup_date(t, start) {
            Err(e) => {
                return Err(e);
            },
            Ok(d) => d,
        };
        let end = match self.unit_end_in(t, start) {
            None => {
                return Err(ParseError::UnterminatedUnit { pos: start });
            },
            Some(e) => e,
        };
        proof {
            lemma_unit_end_found(self@, t@, start as int);
            lemma_unit_end_has_line_end(self@, t@, end as int);
        }
        let ls = split_lines(t, eol, end);
        let (subtasks, notes, conflicts) = match read_task_children(&ls) {
            None => {
                return Err(ParseError::MissingMessage { pos: start });
            },
            Some(x) => x,
        };
        let line = copy_range(t, start, eol);
        let cs_mark = vec![':', ' '];
        assert(cs_mark@ =~= colon_space());
        let msg = match slice_from(&line, &cs_mark) {
            None => {
                return Err(ParseError::MissingMessage { pos: start });
            },
            Some(x) => x,
        };
        let k = skip_white(&msg);
        let msg = string_of(&msg, k, msg.len());
        let mut all: bool = true;
        let mut j: usize = 0;
        while j < subtasks.len()
            invariant
                j <= subtasks@.len(),
                all == all_done(subtasks_view(subtasks@).take(j as int)),
            decreases subtasks@.len() - j,
        {
            proof {
                let a = subtasks_view(subtasks@).take(j as int);
                let b = subtasks_view(subtasks@).take(j + 1);
                assert(b =~= a.push(subtasks@[j as int]@));
                if all_done(a) && subtasks@[j as int].is_done {
                    assert forall|k: int| 0 <= k < b.len() implies (#[trigger] b[k]).is_done by {
                        if k < a.len() {
                            assert(b[k] == a[k]);
                        }
                    }
                } else if !all_done(a) {
                    let k = choose|k: int| 0 <= k < a.len() && !(#[trigger] a[k]).is_done;
                    assert(b[k] == a[k]);
                } else {
                    assert(b[j as int] == subtasks@[j as int]@);
                }
            }
            all = all && subtasks[j].is_done;
            j = j + 1;
        }
        assert(subtasks_view(subtasks@).take(subtasks@.len() as int) =~= subtasks_view(
            subtasks@,
        ));
        let task = Task { msg, subtasks, notes, date, is_done: done && all };
        Ok((task, conflicts))
    }

    /// Every task of `log_data`, in the order of the text, with the child lines that were
    /// dropped because they mark a subtask both to do and done.
    pub fn parse_tasks_reporting(&self, log_data: &str) -> (r: Result<
        (Vec<Task>, Vec<String>),
        ParseError,
    >)
        requires
            self.wf(),
        ensures
            match r {
                Ok((v, cs)) => tasks_of(self@, log_data@) == Ok::<
                    (Seq<TaskModel>, Seq<Seq<char>>),
                    ParseError,
                >((tasks_view(v@), strings_view(cs@))),
                Err(e) => tasks_of(self@, log_data@) == Err::<
                    (Seq<TaskModel>, Seq<Seq<char>>),
                    ParseError,
                >(e),
            },
    {
        let t = crate::text::chars_of(log_data);
        let mut tasks: Vec<Task> = Vec::new();
        let mut dropped: Vec<String> = Vec::new();
        let mut i: usize = 0;
        assert(tasks_view(tasks@) =~= Seq::<TaskModel>::empty());
        assert(strings_view(dropped@) =~= Seq::<Seq<char>>::empty());
        assert(prepend_pair(Seq::empty(), Seq::empty(), tasks_from(self@, t@, 0)) == tasks_from(
            self@,
            t@,
            0,
        )) by {
            match tasks_from(self@, t@, 0) {
                Ok((x, y)) => {
                    assert(Seq::<TaskModel>::empty() + x =~= x);
                    assert(Seq::<Seq<char>>::empty() + y =~= y);
                },
                Err(_) => {},
            }
        }
        while i < t.len()
            invariant
                self.wf(),
                t@ == log_data@,
                tasks_of(self@, t@) == prepend_pair(
                    tasks_view(tasks@),
                    strings_view(dropped@),
                    tasks_from(self@, t@, i as int),
                ),
            decreases t@.len() - i,
        {
            let is_todo = matches_at(&t, i, &self.task_tag_todo);
            if is_todo || matches_at(&t, i, &self.task_tag_done) {
                match self.read_task_at(&t, i, !is_todo) {
                    Err(e) => {
                        return Err(e);
                    },
                    Ok((task, cs)) => {
                        let ghost before = tasks_view(tasks@);
                        let ghost dbefore = strings_view(dropped@);
                        tasks.push(task);
                        let mut k: usize = 0;
                        while k < cs.len()
                            invariant
                                k <= cs@.len(),
                                strings_view(dropped@) == dbefore + strings_view(cs@).take(
                                    k as int,
                                ),
                            decreases cs@.len() - k,
                        {
                            let ghost d0 = dropped@;
                            let c = cs[k].clone();
                            dropped.push(c);
                            proof {
                                assert(strings_view(dropped@) =~= strings_view(d0).push(c@));
                                assert(strings_view(cs@).take(k + 1) =~= strings_view(cs@).take(
                                    k as int,
                                ).push(c@));
                                assert(strings_view(dropped@) =~= dbefore + strings_view(
                                    cs@,
                                ).take(k + 1));
                            }
                            k = k + 1;
                        }
                        proof {
                            assert(strings_view(cs@).take(cs@.len() as int) =~= strings_view(
                                cs@,
                            ));
                            assert(tasks_view(tasks@) =~= before.push(task@));
                            match tasks_from(self@, t@, i + 1) {
                                Ok((rest, more)) => {
                                    assert(before + (seq![task@] + rest) =~= before.push(task@)
                                        + rest);
                                    assert(dbefore + (strings_view(cs@) + more) =~= (dbefore
                                        + strings_view(cs@)) + more);
                                },
                                Err(_) => {},
                            }
                        }
                    },
                }
            }
            i = i + 1;
        }
        Ok((tasks, dropped))
    }

    /// Every task of `log_data`, in the order of the text.
    pub fn parse_tasks(&self, log_data: &str) -> (r: Result<Vec<Task>, ParseError>)
        requires
            self.wf(),
        ensures
            match r {
                Ok(v) => tasks_of(self@, log_data@) is Ok && tasks_of(self@, log_data@)->Ok_0.0
                    == tasks_view(v@),
                Err(e) => tasks_of(self@, log_data@) == Err::<
                    (Seq<TaskModel>, Seq<Seq<char>>),
                    ParseError,
                >(e),
            },
    {
        match self.parse_tasks_reporting(log_data) {
            Ok((v, _)) => Ok(v),
            Err(e) => Err(e),
        }
    }

    /// The date of the record whose line starts at `from`.
    fn lookup_date(&self, t: &Vec<char>, from: usize) -> (r: Result<Date, ParseError>)
        requires
            self.wf(),
            from <= t@.len(),
        ensures
            r == date_at(self@, t@, from as int),
    {
        let dl = self.day_tag.len();
        match rfind_before(t, from, &self.day_tag) {
            None => Err(ParseError::MissingDayHeading { pos: from }),
            Some(h) => {
                proof {
                    lemma_last_occ_found(t@, from - dl, self.day_tag@);
                }
                let start = h + self.line_end.len();
                let end = match find_from(t, start, &self.line_end) {
                    Some(e) => e,
                    None => t.len(),
                };
                proof {
                    lemma_first_occ_found(t@, start as int, self.line_end@);
                }
                match date_in(t, start, end) {
                    Some(d) => Ok(d),
                    None => Err(ParseError::InvalidDate { pos: from }),
                }
            },
        }
    }
}

/// The message and time of an event line.
fn read_event_head(line: &Vec<char>) -> (r: Option<(String, Option<Time>)>)
    ensures
        match r {
            Some((m, tm)) => event_head(line@) == Some((m@, tm)),
            None => event_head(line@) is None,
        },
{
    let n = line.len();
    if n < 6 {
        return None;
    }
    let plain = vec!['E', 'V', 'T', ':'];
    let col = vec![':'];
    proof {
        assert(plain@ =~= plain_evt_mark());
        assert(col@ =~= colon());
    }
    let rest = copy_range(line, 6, n);
    if find_from(line, 0, &plain).is_some() {
        let k = skip_white(&rest);
        return Some((string_of(&rest, k, rest.len()), None));
    }
    let c1 = match find_from(&rest, 0, &col) {
        None => {
            return None;
        },
        Some(c1) => c1,
    };
    proof {
        lemma_first_occ_found(rest@, 0, col@);
    }
    let after = copy_range(&rest, c1 + 1, rest.len());
    let c2 = match find_from(&after, 0, &col) {
        None => {
            return None;
        },
        Some(c2) => c2,
    };
    proof {
        lemma_first_occ_found(after@, 0, col@);
    }
    let hs = copy_range(&rest, 0, c1);
    let ms = copy_range(&after, 0, c2);
    let h = match parse_u32(&hs) {
        None => {
            return None;
        },
        Some(h) => h,
    };
    let m = match parse_u32(&ms) {
        None => {
            return None;
        },
        Some(m) => m,
    };
    let tm = match Time::from_hm_opt(h, m) {
        None => {
            return None;
        },
        Some(tm) => tm,
    };
    let msg = copy_range(&after, c2 + 1, after.len());
    let k = skip_white(&msg);
    Some((string_of(&msg, k, msg.len()), Some(tm)))
}

/// The notes of an event from its child lines.
fn read_event_notes(ls: &Vec<Vec<char>>) -> (r: Option<Vec<String>>)
    ensures
        match r {
            Some(v) => event_notes(ls@.map_values(|v: Vec<char>| v@)) == Some(strings_view(v@)),
            None => event_notes(ls@.map_values(|v: Vec<char>| v@)) is None,
        },
{
    let ghost all = ls@.map_values(|v: Vec<char>| v@);
    let mut notes: Vec<String> = Vec::new();
    let mut i: usize = 0;
    assert(all.take(0) =~= Seq::<Seq<char>>::empty());
    while i < ls.len()
        invariant
            i <= ls@.len(),
            all == ls@.map_values(|v: Vec<char>| v@),
            event_notes(all.take(i as int)) == Some(strings_view(notes@)),
        decreases ls@.len() - i,
    {
        let l = &ls[i];
        assert(all.take(i + 1).drop_last() =~= all.take(i as int));
        assert(all.take(i + 1).last() == l@);
        if l.len() > 0 {
            let k = skip_white(l);
            if l.len() - k < 2 {
                proof {
                    lemma_event_notes_stays_none(all, (i + 1) as nat);
                    assert(all.take(ls@.len() as int) =~= all);
                }
                return None;
            }
            let note = string_of(l, k + 2, l.len());
            proof {
                assert(trim_start(l@).subrange(2, trim_start(l@).len() as int) =~= l@.subrange(
                    k + 2,
                    l@.len() as int,
                ));
            }
            let ghost old_notes = notes@;
            notes.push(note);
            assert(strings_view(notes@) =~= strings_view(old_notes).push(note@));
        }
        i = i + 1;
    }
    assert(all.take(ls@.len() as int) =~= all);
    Some(notes)
}

/// Once a line fails, the notes of all longer runs of lines fail too.
proof fn lemma_event_notes_stays_none(all: Seq<Seq<char>>, k: nat)
    requires
        k <= all.len(),
        event_notes(all.take(k as int)) is None,
    ensures
        event_notes(all) is None,
    decreases all.len() - k,
{
    if k < all.len() {
        assert(all.take(k + 1 as int).drop_last() =~= all.take(k as int));
        lemma_event_notes_stays_none(all, k + 1);
    } else {
        assert(all.take(k as int) =~= all);
    }
}

/// Sorts the child lines of a task into subtasks, notes and conflicting lines.
fn read_task_children(ls: &Vec<Vec<char>>) -> (r: Option<(Vec<Subtask>, Vec<String>, Vec<String>)>)
    ensures
        match r {
            Some((st, ns, cs)) => task_children(ls@.map_values(|v: Vec<char>| v@)) == Some(
                ChildrenModel {
                    subtasks: subtasks_view(st@),
                    notes: strings_view(ns@),
                    conflicts: strings_view(cs@),
                },
            ),
            None => task_children(ls@.map_values(|v: Vec<char>| v@)) is None,
        },
{
    let ghost all = ls@.map_values(|v: Vec<char>| v@);
    let item = vec!['-', ' '];
    let todo = vec!['T', 'O', 'D', 'O'];
    let done = vec!['D', 'O', 'N', 'E'];
    let cs_mark = vec![':', ' '];
    proof {
        assert(item@ =~= item_tag());
        assert(todo@ =~= todo_mark());
        assert(done@ =~= done_mark());
        assert(cs_mark@ =~= colon_space());
    }
    let mut st: Vec<Subtask> = Vec::new();
    let mut notes: Vec<String> = Vec::new();
    let mut conflicts: Vec<String> = Vec::new();
    let mut i: usize = 0;
    assert(all.take(0) =~= Seq::<Seq<char>>::empty());
    assert(subtasks_view(st@) =~= Seq::<SubtaskModel>::empty());
    assert(strings_view(notes@) =~= Seq::<Seq<char>>::empty());
    while i < ls.len()
        invariant
            i <= ls@.len(),
            all == ls@.map_values(|v: Vec<char>| v@),
            item@ == item_tag(),
            todo@ == todo_mark(),
            done@ == done_mark(),
            cs_mark@ == colon_space(),
            task_children(all.take(i as int)) == Some(
                ChildrenModel {
                    subtasks: subtasks_view(st@),
                    notes: strings_view(notes@),
                    conflicts: strings_view(conflicts@),
                },
            ),
        decreases ls@.len() - i,
    {
        let l = &ls[i];
        let ln = l.len();
        assert(all.take(i + 1).drop_last() =~= all.take(i as int));
        assert(all.take(i + 1).last() == l@);
        let text = match find_from(l, 0, &item) {
            Some(p) => {
                proof {
                    lemma_first_occ_found(l@, 0, item@);
                    assert(occurs_at(l@, p as int, item@));
                }
                copy_range(l, p + 2, ln)
            },
            None => copy_range(l, 0, l.len()),
        };
        assert(l@.subrange(0, l@.len() as int) =~= l@);
        assert(text@ == child_text(l@));
        if text.len() > 0 {
            let td = find_from(&text, 0, &todo).is_some();
            let dn = find_from(&text, 0, &done).is_some();
            if td && dn {
                let ghost old_c = conflicts@;
                conflicts.push(string_of(&text, 0, text.len()));
                assert(text@.subrange(0, text@.len() as int) =~= text@);
                assert(strings_view(conflicts@) =~= strings_view(old_c).push(text@));
            } else if td || dn {
                match slice_from(&text, &cs_mark) {
                    None => {
                        proof {
                            lemma_task_children_stays_none(all, (i + 1) as nat);
                            assert(all.take(ls@.len() as int) =~= all);
                        }
                        return None;
                    },
                    Some(msg) => {
                        let ghost old_st = st@;
                        let sub = Subtask { msg: string_of(&msg, 0, msg.len()), is_done: dn };
                        assert(msg@.subrange(0, msg@.len() as int) =~= msg@);
                        st.push(sub);
                        assert(subtasks_view(st@) =~= subtasks_view(old_st).push(sub@));
                    },
                }
            } else {
                let ghost old_n = notes@;
                notes.push(string_of(&text, 0, text.len()));
                assert(text@.subrange(0, text@.len() as int) =~= text@);
                assert(strings_view(notes@) =~= strings_view(old_n).push(text@));
            }
        }
        i = i + 1;
    }
    assert(all.take(ls@.len() as int) =~= all);
    Some((st, notes, conflicts))
}

/// Once a line fails, the sorting of all longer runs of lines fails too.
proof fn lemma_task_children_stays_none(all: Seq<Seq<char>>, k: nat)
    requires
        k <= all.len(),
        task_children(all.take(k as int)) is None,
    ensures
        task_children(all) is None,
    decreases all.len() - k,
{
    if k < all.len() {
        assert(all.take(k + 1 as int).drop_last() =~= all.take(k as int));
        lemma_task_children_stays_none(all, k + 1);
    } else {
        assert(all.take(k as int) =~= all);
    }
}

} // verus!
