use vstd::prelude::*;

use crate::date::{digits_of, dmy_of, Date};
use crate::model::{
    all_done, child_text, date_at, day_tag, done_tag, event_at, event_tag, events_from, events_of,
    events_view, is_unit_end_at, lemma_unit_end_found, task_at, task_children, tasks_from,
    tasks_of, tasks_view, todo_tag, unit_end,
};
use crate::parser::ParseError;
use crate::text::{first_occ, last_occ, lemma_last_occ_found, occurs_at};
use crate::types::{Event, EventModel, Task, TaskModel};

verus! {

/// The date written in the day heading whose marker starts at `h`.
pub open spec fn heading_date(le: Seq<char>, t: Seq<char>, h: int) -> Option<Date> {
    let start = h + le.len();
    let end = match first_occ(t, start, le) {
        Some(e) => e,
        None => t.len() as int,
    };
    dmy_of(digits_of(t.subrange(start, end)))
}

/// `h` is where the last day heading that ends at or before `from` starts.
pub open spec fn nearest_heading(le: Seq<char>, t: Seq<char>, h: int, from: int) -> bool {
    &&& occurs_at(t, h, day_tag(le))
    &&& h + day_tag(le).len() <= from
    &&& forall|g: int| h < g && g + day_tag(le).len() <= from ==> !occurs_at(t, g, day_tag(le))
}

/// The date given to a record is the one written in the nearest day heading before it.
pub proof fn lemma_date_from_nearest_heading(le: Seq<char>, t: Seq<char>, from: int, d: Date)
    requires
        date_at(le, t, from) == Ok::<Date, ParseError>(d),
    ensures
        dated_by_heading(le, t, from, d),
{
    let j = from - day_tag(le).len();
    lemma_last_occ_found(t, j, day_tag(le));
    let h = last_occ(t, j, day_tag(le))->Some_0;
    assert forall|g: int| h < g && g + day_tag(le).len() <= from implies !occurs_at(
        t,
        g,
        day_tag(le),
    ) by {
        lemma_last_occ_none_between(t, j, day_tag(le), g);
    }
    assert(nearest_heading(le, t, h, from));
    assert(heading_date(le, t, h) == Some(d));
}

proof fn lemma_last_occ_none_between(t: Seq<char>, j: int, pat: Seq<char>, g: int)
    requires
        last_occ(t, j, pat) is Some,
        last_occ(t, j, pat)->Some_0 < g <= j,
    ensures
        !occurs_at(t, g, pat),
    decreases j + 1,
{
    if j >= 0 && !occurs_at(t, j, pat) && g < j {
        lemma_last_occ_none_between(t, j - 1, pat, g);
    }
}

pub open spec fn event_from_marker(le: Seq<char>, t: Seq<char>, i: int, ev: EventModel) -> bool {
    exists|m: int|
        i <= m && occurs_at(t, m, event_tag(le)) && event_at(le, t, m) == Ok::<
            EventModel,
            ParseError,
        >(ev)
}

pub open spec fn is_task_marker(le: Seq<char>, t: Seq<char>, m: int) -> bool {
    occurs_at(t, m, todo_tag(le)) || occurs_at(t, m, done_tag(le))
}

pub open spec fn task_from_marker(le: Seq<char>, t: Seq<char>, i: int, task: TaskModel) -> bool {
    exists|m: int, done: bool|
        i <= m && is_task_marker(le, t, m) && task_at(le, t, m, done) is Ok && task_at(
            le,
            t,
            m,
            done,
        )->Ok_0.0 == task
}

/// `d` is the date written in the nearest day heading before the line that starts at `from`.
pub open spec fn dated_by_heading(le: Seq<char>, t: Seq<char>, from: int, d: Date) -> bool {
    exists|h: int| nearest_heading(le, t, h, from) && heading_date(le, t, h) == Some(d)
}

/// The task comes from a task marker whose line is dated by the nearest day heading before it.
pub open spec fn task_dated(le: Seq<char>, t: Seq<char>, task: TaskModel) -> bool {
    exists|m: int| is_task_marker(le, t, m) && dated_by_heading(le, t, m + le.len(), task.date)
}

/// The event comes from an event marker whose line is dated by the nearest day heading before it.
pub open spec fn event_dated(le: Seq<char>, t: Seq<char>, ev: EventModel) -> bool {
    exists|m: int| occurs_at(t, m, event_tag(le)) && dated_by_heading(le, t, m + le.len(), ev.date)
}

/// Every event read from the text at or after `i` comes from an event marker there.
proof fn lemma_event_origin(le: Seq<char>, t: Seq<char>, i: int)
    requires
        0 <= i,
        events_from(le, t, i) is Ok,
    ensures
        forall|k: int|
            0 <= k < events_from(le, t, i)->Ok_0.len() ==> event_from_marker(
                le,
                t,
                i,
                #[trigger] events_from(le, t, i)->Ok_0[k],
            ),
    decreases t.len() - i,
{
    if i < t.len() {
        lemma_event_origin(le, t, i + 1);
        let evs = events_from(le, t, i)->Ok_0;
        let rest = events_from(le, t, i + 1)->Ok_0;
        assert forall|k: int| 0 <= k < evs.len() implies event_from_marker(le, t, i, #[trigger] evs[k]) by {
            if occurs_at(t, i, event_tag(le)) {
                if k == 0 {
                    assert(event_at(le, t, i) == Ok::<EventModel, ParseError>(
                        evs[0],
                    ));
                } else {
                    assert(evs[k] == rest[k - 1]);
                    assert(event_from_marker(le, t, i + 1, rest[k - 1]));
                }
            } else {
                assert(event_from_marker(le, t, i + 1, rest[k]));
            }
        }
    }
}

/// Every task read from the text at or after `i` comes from a task marker there.
proof fn lemma_task_origin(le: Seq<char>, t: Seq<char>, i: int)
    requires
        0 <= i,
        tasks_from(le, t, i) is Ok,
    ensures
        forall|k: int|
            0 <= k < tasks_from(le, t, i)->Ok_0.0.len() ==> task_from_marker(
                le,
                t,
                i,
                #[trigger] tasks_from(le, t, i)->Ok_0.0[k],
            ),
    decreases t.len() - i,
{
    if i < t.len() {
        lemma_task_origin(le, t, i + 1);
        let ts = tasks_from(le, t, i)->Ok_0.0;
        let rest = tasks_from(le, t, i + 1)->Ok_0.0;
        assert forall|k: int| 0 <= k < ts.len() implies task_from_marker(le, t, i, #[trigger] ts[k]) by {
            if is_task_marker(le, t, i) {
                let done = !occurs_at(t, i, todo_tag(le));
                if k == 0 {
                    assert(task_at(le, t, i, done)->Ok_0.0 == ts[0]);
                } else {
                    assert(ts[k] == rest[k - 1]);
                    assert(task_from_marker(le, t, i + 1, rest[k - 1]));
                }
            } else {
                assert(task_from_marker(le, t, i + 1, rest[k]));
            }
        }
    }
}

/// Each event carries the date written in the nearest day heading before its line.
pub proof fn lemma_event_dates(le: Seq<char>, t: Seq<char>)
    requires
        events_of(le, t) is Ok,
    ensures
        forall|k: int|
            0 <= k < events_of(le, t)->Ok_0.len() ==> event_dated(
                le,
                t,
                #[trigger] events_of(le, t)->Ok_0[k],
            ),
{
    lemma_event_origin(le, t, 0);
    let evs = events_of(le, t)->Ok_0;
    assert forall|k: int| 0 <= k < evs.len() implies event_dated(le, t, #[trigger] evs[k]) by {
        assert(event_from_marker(le, t, 0, evs[k]));
        let m = choose|m: int|
            0 <= m && occurs_at(t, m, event_tag(le)) && event_at(le, t, m) == Ok::<
                EventModel,
                ParseError,
            >(evs[k]);
        lemma_date_from_nearest_heading(le, t, m + le.len(), evs[k].date);
    }
}

/// Each task carries the date written in the nearest day heading before its line.
pub proof fn lemma_task_dates(le: Seq<char>, t: Seq<char>)
    requires
        tasks_of(le, t) is Ok,
    ensures
        forall|k: int|
            0 <= k < tasks_of(le, t)->Ok_0.0.len() ==> task_dated(
                le,
                t,
                #[trigger] tasks_of(le, t)->Ok_0.0[k],
            ),
{
    lemma_task_origin(le, t, 0);
    let ts = tasks_of(le, t)->Ok_0.0;
    assert forall|k: int| 0 <= k < ts.len() implies task_dated(le, t, #[trigger] ts[k]) by {
        assert(task_from_marker(le, t, 0, ts[k]));
        let (m, done) = choose|m: int, done: bool|
            0 <= m && is_task_marker(le, t, m) && task_at(le, t, m, done) is Ok && task_at(
                le,
                t,
                m,
                done,
            )->Ok_0.0 == ts[k];
        lemma_date_from_nearest_heading(le, t, m + le.len(), ts[k].date);
    }
}

/// A task with a subtask still to do is not done, whatever its own marker says.
pub proof fn lemma_open_subtask_keeps_task_open(le: Seq<char>, t: Seq<char>)
    requires
        tasks_of(le, t) is Ok,
    ensures
        forall|k: int, j: int|
            0 <= k < tasks_of(le, t)->Ok_0.0.len() && 0 <= j < tasks_of(le, t)->Ok_0.0[k].subtasks.len()
                && !(#[trigger] tasks_of(le, t)->Ok_0.0[k].subtasks[j]).is_done ==> !tasks_of(
                le,
                t,
            )->Ok_0.0[k].is_done,
{
    lemma_task_origin(le, t, 0);
    let ts = tasks_of(le, t)->Ok_0.0;
    assert forall|k: int, j: int|
        0 <= k < ts.len() && 0 <= j < ts[k].subtasks.len() && !(
        #[trigger] ts[k].subtasks[j]).is_done implies !ts[k].is_done by {
        assert(task_from_marker(le, t, 0, ts[k]));
        let (m, done) = choose|m: int, done: bool|
            0 <= m && is_task_marker(le, t, m) && task_at(le, t, m, done) is Ok && task_at(
                le,
                t,
                m,
                done,
            )->Ok_0.0 == ts[k];
        assert(!all_done(ts[k].subtasks));
    }
}

/// The number of child lines that are not empty once their item marker is taken off.
pub open spec fn nonempty_children(ls: Seq<Seq<char>>) -> nat
    decreases ls.len(),
{
    if ls.len() == 0 {
        0
    } else if child_text(ls.last()).len() == 0 {
        nonempty_children(ls.drop_last())
    } else {
        nonempty_children(ls.drop_last()) + 1
    }
}

/// Each non-empty child line of a task becomes exactly one subtask, one note, or one dropped
/// conflicting line.
pub proof fn lemma_children_partition(ls: Seq<Seq<char>>)
    requires
        task_children(ls) is Some,
    ensures
        task_children(ls)->Some_0.subtasks.len() + task_children(ls)->Some_0.notes.len()
            + task_children(ls)->Some_0.conflicts.len() == nonempty_children(ls),
    decreases ls.len(),
{
    if ls.len() > 0 {
        lemma_children_partition(ls.drop_last());
    }
}

/// A unit ends at the first top-level item, empty line, day heading or week heading at or
/// after its start, and contains none of them.
pub proof fn lemma_unit_extent_minimal(le: Seq<char>, t: Seq<char>, from: int)
    requires
        0 <= from,
        unit_end(le, t, from) is Some,
    ensures
        from <= unit_end(le, t, from)->Some_0,
        is_unit_end_at(le, t, unit_end(le, t, from)->Some_0),
        forall|p: int| from <= p < unit_end(le, t, from)->Some_0 ==> !is_unit_end_at(le, t, p),
{
    lemma_unit_end_found(le, t, from);
}

/// Reading the events of the same text twice gives the same events.
pub proof fn lemma_events_idempotent(le: Seq<char>, t: Seq<char>, a: Seq<Event>, b: Seq<Event>)
    requires
        events_of(le, t) == Ok::<Seq<EventModel>, ParseError>(events_view(a)),
        events_of(le, t) == Ok::<Seq<EventModel>, ParseError>(events_view(b)),
    ensures
        events_view(a) == events_view(b),
{
}

/// Reading the tasks of the same text twice gives the same tasks.
pub proof fn lemma_tasks_idempotent(le: Seq<char>, t: Seq<char>, a: Seq<Task>, b: Seq<Task>)
    requires
        tasks_of(le, t) is Ok,
        tasks_of(le, t)->Ok_0.0 == tasks_view(a),
        tasks_of(le, t)->Ok_0.0 == tasks_view(b),
    ensures
        tasks_view(a) == tasks_view(b),
{
}

} // verus!
