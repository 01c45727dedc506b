use vstd::prelude::*;

use crate::date::{digits_of, dmy_of, time_of, u32_of, Date, Time};
use crate::parser::ParseError;
use crate::text::{
    after_first, contains, first_occ, last_occ, lemma_occurs_prefix, lines_of, occurs_at,
    trim_start,
};
use crate::types::{Event, EventModel, Subtask, SubtaskModel, Task, TaskModel};

verus! {

pub open spec fn item_tag() -> Seq<char> {
    seq!['-', ' ']
}

pub open spec fn day_mark() -> Seq<char> {
    seq!['#', '#', ' ']
}

pub open spec fn week_mark() -> Seq<char> {
    seq!['#', ' ', 'W', 'e', 'e', 'k', ' ']
}

pub open spec fn todo_mark() -> Seq<char> {
    seq!['T', 'O', 'D', 'O']
}

pub open spec fn done_mark() -> Seq<char> {
    seq!['D', 'O', 'N', 'E']
}

pub open spec fn evt_mark() -> Seq<char> {
    seq!['E', 'V', 'T']
}

/// The start of a task that is still to do, for the line ending `le`.
pub open spec fn todo_tag(le: Seq<char>) -> Seq<char> {
    le + item_tag() + todo_mark()
}

/// The start of a task that is done.
pub open spec fn done_tag(le: Seq<char>) -> Seq<char> {
    le + item_tag() + done_mark()
}

/// The start of an event.
pub open spec fn event_tag(le: Seq<char>) -> Seq<char> {
    le + item_tag() + evt_mark()
}

/// The start of a day heading.
pub open spec fn day_tag(le: Seq<char>) -> Seq<char> {
    le + day_mark()
}

/// What ends a unit: a top-level item, an empty line, a day heading or a week heading.
pub open spec fn unit_ends(le: Seq<char>) -> Seq<Seq<char>> {
    seq![le + item_tag(), le + le, day_tag(le), le + week_mark()]
}

pub open spec fn is_unit_end_at(le: Seq<char>, t: Seq<char>, i: int) -> bool {
    exists|k: int| 0 <= k < 4 && occurs_at(t, i, #[trigger] unit_ends(le)[k])
}

/// The first index at or after `i` where a unit ends.
pub open spec fn unit_end(le: Seq<char>, t: Seq<char>, i: int) -> Option<int>
    decreases t.len() - i,
{
    if i < 0 || i >= t.len() {
        None
    } else if is_unit_end_at(le, t, i) {
        Some(i)
    } else {
        unit_end(le, t, i + 1)
    }
}

/// The date of the record whose line starts at `from`: the digits of the nearest day heading
/// before it, read as day, month and year.
pub open spec fn date_at(le: Seq<char>, t: Seq<char>, from: int) -> Result<Date, ParseError> {
    match last_occ(t, from - day_tag(le).len(), day_tag(le)) {
        None => Err(ParseError::MissingDayHeading { pos: from as usize }),
        Some(h) => {
            let start = h + le.len();
            let end = match first_occ(t, start, le) {
                Some(e) => e,
                None => t.len() as int,
            };
            match dmy_of(digits_of(t.subrange(start, end))) {
                Some(d) => Ok(d),
                None => Err(ParseError::InvalidDate { pos: from as usize }),
            }
        },
    }
}

pub open spec fn colon() -> Seq<char> {
    seq![':']
}

pub open spec fn line_feed() -> Seq<char> {
    seq!['\n']
}

/// The marker of an event without a time.
pub open spec fn plain_evt_mark() -> Seq<char> {
    seq!['E', 'V', 'T', ':']
}

/// The message and time of an event line (`- EVT: msg` or `- EVT hh:mm: msg`).
pub open spec fn event_head(line: Seq<char>) -> Option<(Seq<char>, Option<Time>)> {
    if line.len() < 6 {
        None
    } else if contains(line, plain_evt_mark()) {
        Some((trim_start(line.subrange(6, line.len() as int)), None))
    } else {
        let rest = line.subrange(6, line.len() as int);
        match first_occ(rest, 0, colon()) {
            None => None,
            Some(c1) => {
                let after = rest.subrange(c1 + 1, rest.len() as int);
                match first_occ(after, 0, colon()) {
                    None => None,
                    Some(c2) => match (u32_of(rest.subrange(0, c1)), u32_of(after.subrange(0, c2))) {
                        (Some(h), Some(m)) => match time_of(h, m) {
                            Some(tm) => Some(
                                (trim_start(after.subrange(c2 + 1, after.len() as int)), Some(tm)),
                            ),
                            None => None,
                        },
                        _ => None,
                    },
                }
            },
        }
    }
}

/// The notes of an event from its child lines: each non-empty line without its indentation
/// and its two-character item marker; `None` where a line is too short to have one.
pub open spec fn event_notes(ls: Seq<Seq<char>>) -> Option<Seq<Seq<char>>>
    decreases ls.len(),
{
    if ls.len() == 0 {
        Some(Seq::empty())
    } else {
        match event_notes(ls.drop_last()) {
            None => None,
            Some(ns) => {
                let l = ls.last();
                if l.len() == 0 {
                    Some(ns)
                } else {
                    let tl = trim_start(l);
                    if tl.len() < 2 {
                        None
                    } else {
                        Some(ns.push(tl.subrange(2, tl.len() as int)))
                    }
                }
            },
        }
    }
}

/// The lines of `t[from..end]` after the first one.
pub open spec fn child_lines(t: Seq<char>, from: int, end: int) -> Seq<Seq<char>> {
    match first_occ(t, from, line_feed()) {
        Some(f) => if f < end {
            lines_of(t.subrange(f + 1, end))
        } else {
            Seq::empty()
        },
        None => Seq::empty(),
    }
}

/// The event whose marker (its line ending included) starts at `m`. Its notes are the lines
/// after its own up to the end of its unit, which is searched from as many characters into
/// its line as its line ending has.
pub open spec fn event_at(le: Seq<char>, t: Seq<char>, m: int) -> Result<EventModel, ParseError> {
    let start = m + le.len();
    let pos = start as usize;
    match first_occ(t, start, le) {
        None => Err(ParseError::UnterminatedLine { pos }),
        Some(eol) => match date_at(le, t, start) {
            Err(e) => Err(e),
            Ok(date) => match event_head(t.subrange(start, eol)) {
                None => Err(ParseError::MalformedEvent { pos }),
                Some((msg, time)) => match unit_end(le, t, start + le.len()) {
                    None => Err(ParseError::UnterminatedUnit { pos }),
                    Some(end) => match event_notes(child_lines(t, start + le.len(), end)) {
                        None => Err(ParseError::MalformedNote { pos }),
                        Some(notes) => Ok(EventModel { msg, notes, date, time }),
                    },
                },
            },
        },
    }
}

/// The events of `t` whose markers start at or after `i`, in the order of the text; the
/// first error where one of them cannot be read.
pub open spec fn events_from(le: Seq<char>, t: Seq<char>, i: int) -> Result<Seq<EventModel>, ParseError>
    decreases t.len() - i,
{
    if i < 0 || i >= t.len() {
        Ok(Seq::empty())
    } else if occurs_at(t, i, event_tag(le)) {
        match event_at(le, t, i) {
            Err(e) => Err(e),
            Ok(ev) => match events_from(le, t, i + 1) {
                Ok(rest) => Ok(seq![ev] + rest),
                Err(e) => Err(e),
            },
        }
    } else {
        events_from(le, t, i + 1)
    }
}

/// All events of `t`.
pub open spec fn events_of(le: Seq<char>, t: Seq<char>) -> Result<Seq<EventModel>, ParseError> {
    events_from(le, t, 0)
}

pub open spec fn prepend<A>(a: Seq<A>, r: Result<Seq<A>, ParseError>) -> Result<Seq<A>, ParseError> {
    match r {
        Ok(rest) => Ok(a + rest),
        Err(e) => Err(e),
    }
}

pub open spec fn events_view(v: Seq<Event>) -> Seq<EventModel> {
    v.map_values(|e: Event| e@)
}

pub open spec fn colon_space() -> Seq<char> {
    seq![':', ' ']
}

/// A child line of a task without what precedes its item marker and the marker itself.
pub open spec fn child_text(l: Seq<char>) -> Seq<char> {
    match first_occ(l, 0, item_tag()) {
        Some(p) => l.subrange(p + 2, l.len() as int),
        None => l,
    }
}

/// The child lines of a task, sorted into subtasks, notes, and lines dropped because they
/// mark a subtask both to do and done.
pub struct ChildrenModel {
    pub subtasks: Seq<SubtaskModel>,
    pub notes: Seq<Seq<char>>,
    pub conflicts: Seq<Seq<char>>,
}

/// How the child lines `ls` of a task are sorted; `None` where a subtask has no `: `.
pub open spec fn task_children(ls: Seq<Seq<char>>) -> Option<ChildrenModel>
    decreases ls.len(),
{
    if ls.len() == 0 {
        Some(ChildrenModel { subtasks: Seq::empty(), notes: Seq::empty(), conflicts: Seq::empty() })
    } else {
        match task_children(ls.drop_last()) {
            None => None,
            Some(c) => {
                let l = child_text(ls.last());
                let td = contains(l, todo_mark());
                let dn = contains(l, done_mark());
                if l.len() == 0 {
                    Some(c)
                } else if td && dn {
                    Some(
                        ChildrenModel {
                            subtasks: c.subtasks,
                            notes: c.notes,
                            conflicts: c.conflicts.push(l),
                        },
                    )
                } else if td || dn {
                    match after_first(l, colon_space()) {
                        None => None,
                        Some(msg) => Some(
                            ChildrenModel {
                                subtasks: c.subtasks.push(SubtaskModel { msg, is_done: dn }),
                                notes: c.notes,
                                conflicts: c.conflicts,
                            },
                        ),
                    }
                } else {
                    Some(
                        ChildrenModel {
                            subtasks: c.subtasks,
                            notes: c.notes.push(l),
                            conflicts: c.conflicts,
                        },
                    )
                }
            },
        }
    }
}

pub open spec fn all_done(st: Seq<SubtaskModel>) -> bool {
    forall|k: int| 0 <= k < st.len() ==> (#[trigger] st[k]).is_done
}

/// The task whose marker (its line ending included) starts at `m`, marked done or not, with
/// the child lines that were dropped as conflicting.
pub open spec fn task_at(le: Seq<char>, t: Seq<char>, m: int, done: bool) -> Result<
    (TaskModel, Seq<Seq<char>>),
    ParseError,
> {
    let start = m + le.len();
    let pos = start as usize;
    match first_occ(t, start, le) {
        None => Err(ParseError::UnterminatedLine { pos }),
        Some(eol) => match date_at(le, t, start) {
            Err(e) => Err(e),
            Ok(date) => match unit_end(le, t, start) {
                None => Err(ParseError::UnterminatedUnit { pos }),
                Some(end) => match task_children(lines_of(t.subrange(eol, end))) {
                    None => Err(ParseError::MissingMessage { pos }),
                    Some(c) => match after_first(t.subrange(start, eol), colon_space()) {
                        None => Err(ParseError::MissingMessage { pos }),
                        Some(msg) => Ok(
                            (
                                TaskModel {
                                    msg: trim_start(msg),
                                    subtasks: c.subtasks,
                                    notes: c.notes,
                                    date,
                                    is_done: done && all_done(c.subtasks),
                                },
                                c.conflicts,
                            ),
                        ),
                    },
                },
            },
        },
    }
}

/// The tasks of `t` whose markers start at or after `i`, in the order of the text, with the
/// lines dropped from them; the first error where one of them cannot be read.
pub open spec fn tasks_from(le: Seq<char>, t: Seq<char>, i: int) -> Result<
    (Seq<TaskModel>, Seq<Seq<char>>),
    ParseError,
>
    decreases t.len() - i,
{
    if i < 0 || i >= t.len() {
        Ok((Seq::empty(), Seq::empty()))
    } else if occurs_at(t, i, todo_tag(le)) || occurs_at(t, i, done_tag(le)) {
        match task_at(le, t, i, !occurs_at(t, i, todo_tag(le))) {
            Err(e) => Err(e),
            Ok((task, dropped)) => match tasks_from(le, t, i + 1) {
                Ok((rest, more)) => Ok((seq![task] + rest, dropped + more)),
                Err(e) => Err(e),
            },
        }
    } else {
        tasks_from(le, t, i + 1)
    }
}

/// All tasks of `t`, with the lines dropped from them.
pub open spec fn tasks_of(le: Seq<char>, t: Seq<char>) -> Result<
    (Seq<TaskModel>, Seq<Seq<char>>),
    ParseError,
> {
    tasks_from(le, t, 0)
}

pub open spec fn prepend_pair(
    a: Seq<TaskModel>,
    b: Seq<Seq<char>>,
    r: Result<(Seq<TaskModel>, Seq<Seq<char>>), ParseError>,
) -> Result<(Seq<TaskModel>, Seq<Seq<char>>), ParseError> {
    match r {
        Ok((x, y)) => Ok((a + x, b + y)),
        Err(e) => Err(e),
    }
}

pub open spec fn tasks_view(v: Seq<Task>) -> Seq<TaskModel> {
    v.map_values(|e: Task| e@)
}

pub open spec fn subtasks_view(v: Seq<Subtask>) -> Seq<SubtaskModel> {
    v.map_values(|s: Subtask| s@)
}

/// Every end of a unit starts with a line ending.
pub proof fn lemma_unit_end_has_line_end(le: Seq<char>, t: Seq<char>, e: int)
    requires
        is_unit_end_at(le, t, e),
    ensures
        occurs_at(t, e, le),
{
    let k = choose|k: int| 0 <= k < 4 && occurs_at(t, e, #[trigger] unit_ends(le)[k]);
    if k == 0 {
        lemma_occurs_prefix(t, e, le, item_tag());
    } else if k == 1 {
        lemma_occurs_prefix(t, e, le, le);
    } else if k == 2 {
        lemma_occurs_prefix(t, e, le, day_mark());
    } else {
        lemma_occurs_prefix(t, e, le, week_mark());
    }
}

/// A found end of unit is one, at or after the start, and the first such.
pub proof fn lemma_unit_end_found(le: Seq<char>, t: Seq<char>, i: int)
    requires
        0 <= i,
    ensures
        match unit_end(le, t, i) {
            Some(e) => i <= e < t.len() && is_unit_end_at(le, t, e) && forall|p: int|
                i <= p < e ==> !is_unit_end_at(le, t, p),
            None => forall|p: int| i <= p < t.len() ==> !is_unit_end_at(le, t, p),
        },
    decreases t.len() - i,
{
    if i >= 0 && i < t.len() && !is_unit_end_at(le, t, i) {
        lemma_unit_end_found(le, t, i + 1);
    }
}

} // verus!
