use vstd::prelude::*;

use crate::date::{Date, Time};

verus! {

/// A step of a task, listed under it.
#[derive(Clone, Debug, PartialEq, Eq, Hash)]
pub struct Subtask {
    pub msg: String,
    pub is_done: bool,
}

/// A task of one day, with its subtasks and notes.
#[derive(Clone, Debug, PartialEq, Eq, Hash)]
pub struct Task {
    pub msg: String,
    pub subtasks: Vec<Subtask>,
    pub notes: Vec<String>,
    pub date: Date,
    pub is_done: bool,
}

/// Something that happened on one day, possibly at a given time, with its notes.
#[derive(Clone, Debug, PartialEq, Eq, Hash)]
pub struct Event {
    pub msg: String,
    pub notes: Vec<String>,
    pub date: Date,
    pub time: Option<Time>,
}

pub struct SubtaskModel {
    pub msg: Seq<char>,
    pub is_done: bool,
}

pub struct TaskModel {
    pub msg: Seq<char>,
    pub subtasks: Seq<SubtaskModel>,
    pub notes: Seq<Seq<char>>,
    pub date: Date,
    pub is_done: bool,
}

pub struct EventModel {
    pub msg: Seq<char>,
    pub notes: Seq<Seq<char>>,
    pub date: Date,
    pub time: Option<Time>,
}

pub open spec fn strings_view(v: Seq<String>) -> Seq<Seq<char>> {
    v.map_values(|s: String| s@)
}

impl View for Subtask {
    type V = SubtaskModel;

    open spec fn view(&self) -> SubtaskModel {
        SubtaskModel { msg: self.msg@, is_done: self.is_done }
    }
}

impl View for Task {
    type V = TaskModel;

    open spec fn view(&self) -> TaskModel {
        TaskModel {
            msg: self.msg@,
            subtasks: self.subtasks@.map_values(|s: Subtask| s@),
            notes: strings_view(self.notes@),
            date: self.date,
            is_done: self.is_done,
        }
    }
}

impl View for Event {
    type V = EventModel;

    open spec fn view(&self) -> EventModel {
        EventModel {
            msg: self.msg@,
            notes: strings_view(self.notes@),
            date: self.date,
            time: self.time,
        }
    }
}

} // verus!
