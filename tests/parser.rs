use mdlog::date::{Date, Time};
use mdlog::parser::{ParseError, Parser, LINE_END_LINUX, LINE_END_WINDOWS};
use mdlog::types::{Event, Subtask, Task};

const EXAMPLE_DATA: &str = "
# Week 42, 14.10.2019 - 20.10.2019

## Mon, 14.10.2019
- a
- EVT 16:25: b
  - b1
  - b2
- TODO: c

## Tue, 15.10.2019
- TODO: d
    - DONE: d1

## Wed, 16.10.2019
- EVT: e

## Thu, 17.10.2019
- TODO A1: f
    - TODO: f1
    - TODO C3: f2

## Fri, 18.10.2019
- some code
```
# code
```
## Sat, 19.10.2019
- DONE: g
## Sun, 20.10.2019
- EVT 06:01: h

# Week 43, 21.10.2019 - 27.10.2019";

fn date(y: i32, m: u32, d: u32) -> Date {
    Date::from_ymd_opt(y, m, d).unwrap()
}

fn linux() -> Parser {
    Parser::from_line_end(LINE_END_LINUX)
}

#[test]
fn events() {
    let correct = {
        let mon = Event {
            msg: "b".into(),
            notes: vec!["b1".into(), "b2".into()],
            date: Date::from_ymd_opt(2019, 10, 14).unwrap(),
            time: Some(Time::from_hm_opt(16, 25).unwrap()),
        };

        let wed = Event {
            msg: "e".into(),
            notes: vec![],
            date: Date::from_ymd_opt(2019, 10, 16).unwrap(),
            time: None,
        };

        let sun = Event {
            msg: "h".into(),
            notes: vec![],
            date: Date::from_ymd_opt(2019, 10, 20).unwrap(),
            time: Some(Time::from_hm_opt(6, 1).unwrap()),
        };

        [mon, wed, sun]
    };

    let p = Parser::from_line_end(LINE_END_LINUX);

    let parsed = p.parse_events(EXAMPLE_DATA).unwrap();

    assert_eq!(&parsed[..], &correct[..]);
}

#[test]
fn tasks() {
    let correct = {
        let mon = Task {
            msg: "c".into(),
            subtasks: vec![],
            notes: vec![],
            date: Date::from_ymd_opt(2019, 10, 14).unwrap(),
            is_done: false,
        };
        let tue = Task {
            msg: "d".into(),
            subtasks: vec![Subtask {
                msg: "d1".into(),
                is_done: true,
            }],
            notes: vec![],
            date: Date::from_ymd_opt(2019, 10, 15).unwrap(),
            is_done: false,
        };
        let thu = Task {
            msg: "f".into(),
            subtasks: vec![
                Subtask {
                    msg: "f1".into(),
                    is_done: false,
                },
                Subtask {
                    msg: "f2".into(),
                    is_done: false,
                },
            ],
            notes: vec![],
            date: Date::from_ymd_opt(2019, 10, 17).unwrap(),
            is_done: false,
        };
        let sat = Task {
            msg: "g".into(),
            subtasks: vec![],
            notes: vec![],
            date: Date::from_ymd_opt(2019, 10, 19).unwrap(),
            is_done: true,
        };
        [mon, tue, thu, sat]
    };

    let p = Parser::from_line_end(LINE_END_LINUX);

    let tasks = p.parse_tasks(&EXAMPLE_DATA).unwrap();

    assert_eq!(&tasks[..], &correct[..]);
}

#[test]
fn timed_event_with_notes() {
    let text = "\n## Mon, 14.10.2019\n- EVT 16:25: b\n  - b1\n  - b2\n\n";
    let evs = linux().parse_events(text).unwrap();
    assert_eq!(
        evs,
        vec![Event {
            msg: "b".into(),
            notes: vec!["b1".into(), "b2".into()],
            date: date(2019, 10, 14),
            time: Some(Time { hour: 16, minute: 25, second: 0 }),
        }]
    );
}

#[test]
fn todo_with_done_subtask_stays_open() {
    let text = "\n## Tue, 15.10.2019\n- TODO: d\n    - DONE: d1\n\n";
    let ts = linux().parse_tasks(text).unwrap();
    assert_eq!(ts.len(), 1);
    assert_eq!(ts[0].msg, "d");
    assert_eq!(ts[0].subtasks, vec![Subtask { msg: "d1".into(), is_done: true }]);
    assert!(!ts[0].is_done);
}

#[test]
fn done_without_children() {
    let text = "\n## Sat, 19.10.2019\n- DONE: g\n## Sun, 20.10.2019\n";
    let ts = linux().parse_tasks(text).unwrap();
    assert_eq!(
        ts,
        vec![Task {
            msg: "g".into(),
            subtasks: vec![],
            notes: vec![],
            date: date(2019, 10, 19),
            is_done: true,
        }]
    );
}

#[test]
fn plain_event_without_children() {
    let text = "\n## Wed, 16.10.2019\n- EVT: e\n\n";
    let evs = linux().parse_events(text).unwrap();
    assert_eq!(evs.len(), 1);
    assert_eq!(evs[0].msg, "e");
    assert!(evs[0].notes.is_empty());
    assert_eq!(evs[0].time, None);
}

#[test]
fn done_task_with_open_subtask_is_not_done() {
    let text = "\n## Mon, 14.10.2019\n- DONE: x\n  - TODO: y\n  - DONE: z\n\n";
    let ts = linux().parse_tasks(text).unwrap();
    assert_eq!(ts.len(), 1);
    assert!(!ts[0].is_done);
    assert_eq!(ts[0].subtasks.len(), 2);
}

#[test]
fn notes_and_conflicts_are_sorted_apart() {
    let text = "\n## Mon, 14.10.2019\n- TODO: x\n  - plain words\n  - TODO or DONE: y\n\n  - DONE: z\n\n";
    let p = linux();
    let (ts, dropped) = p.parse_tasks_reporting(text).unwrap();
    assert_eq!(ts.len(), 1);
    assert_eq!(ts[0].notes, vec!["plain words".to_string()]);
    assert!(ts[0].subtasks.is_empty());
    assert_eq!(dropped, vec!["TODO or DONE: y".to_string()]);
}

#[test]
fn tasks_come_in_text_order() {
    let text = "\n## Mon, 14.10.2019\n- DONE: first\n- TODO: second\n\n";
    let ts = linux().parse_tasks(text).unwrap();
    let msgs: Vec<&str> = ts.iter().map(|t| t.msg.as_str()).collect();
    assert_eq!(msgs, vec!["first", "second"]);
    assert!(ts[0].is_done);
    assert!(!ts[1].is_done);
}

#[test]
fn windows_line_endings() {
    let text = EXAMPLE_DATA.replace('\n', "\r\n");
    let p = Parser::from_line_end(LINE_END_WINDOWS);
    let evs = p.parse_events(&text).unwrap();
    assert_eq!(evs.len(), 3);
    assert_eq!(evs[0].notes, vec!["b1".to_string(), "b2".to_string()]);
    assert_eq!(evs[2].time, Some(Time { hour: 6, minute: 1, second: 0 }));
    let ts = p.parse_tasks(&text).unwrap();
    assert_eq!(ts, linux().parse_tasks(EXAMPLE_DATA).unwrap());
}

#[test]
fn parsing_twice_gives_the_same() {
    let p = linux();
    assert_eq!(p.parse_events(EXAMPLE_DATA), p.parse_events(EXAMPLE_DATA));
    assert_eq!(p.parse_tasks(EXAMPLE_DATA), p.parse_tasks(EXAMPLE_DATA));
}

#[test]
fn date_comes_from_nearest_heading() {
    let text = "\n## Mon, 14.10.2019\n- EVT: a\n## Tue, 15.10.2019\n\n- EVT: b\n\n";
    let evs = linux().parse_events(text).unwrap();
    assert_eq!(evs[0].date, date(2019, 10, 14));
    assert_eq!(evs[1].date, date(2019, 10, 15));
}

#[test]
fn short_year_digits() {
    let text = "\n## 1.10.2019\n- EVT: a\n\n";
    let evs = linux().parse_events(text).unwrap();
    assert_eq!(evs[0].date, Date { year: 19, month: 2, day: 11 });
}

#[test]
fn error_unterminated_line() {
    let text = "\n## Mon, 14.10.2019\n- EVT: a";
    assert_eq!(linux().parse_events(text), Err(ParseError::UnterminatedLine { pos: 20 }));
}

#[test]
fn error_missing_day_heading() {
    let text = "\n- EVT: a\n\n";
    assert_eq!(linux().parse_events(text), Err(ParseError::MissingDayHeading { pos: 1 }));
}

#[test]
fn error_invalid_date() {
    let text = "\n## Thu, 31.11.2019\n- TODO: a\n\n";
    assert_eq!(linux().parse_tasks(text), Err(ParseError::InvalidDate { pos: 20 }));
}

#[test]
fn error_malformed_event() {
    let text = "\n## Mon, 14.10.2019\n- EVT 25:00: a\n\n";
    assert_eq!(linux().parse_events(text), Err(ParseError::MalformedEvent { pos: 20 }));
}

#[test]
fn error_missing_message() {
    let text = "\n## Mon, 14.10.2019\n- TODO a\n\n";
    assert_eq!(linux().parse_tasks(text), Err(ParseError::MissingMessage { pos: 20 }));
}

#[test]
fn error_malformed_note() {
    let text = "\n## Mon, 14.10.2019\n- EVT: a\n  x\n\n";
    assert_eq!(linux().parse_events(text), Err(ParseError::MalformedNote { pos: 20 }));
}

#[test]
fn error_unterminated_unit() {
    let text = "\n## Mon, 14.10.2019\n- EVT: a\n";
    assert_eq!(linux().parse_events(text), Err(ParseError::UnterminatedUnit { pos: 20 }));
}

#[test]
fn end_of_unit_is_the_first_terminator() {
    let p = linux();
    assert_eq!(p.lookup_end_of_unit("- a\n  - b\n- c"), Some(9));
    assert_eq!(p.lookup_end_of_unit("- a\n  - b\n\nx"), Some(9));
    assert_eq!(p.lookup_end_of_unit("- a\n# Week 3"), Some(3));
    assert_eq!(p.lookup_end_of_unit("- a\n## Mon"), Some(3));
    assert_eq!(p.lookup_end_of_unit("- a\n  - b"), None);
}

#[test]
fn calendar_dates() {
    assert!(Date::from_ymd_opt(2020, 2, 29).is_some());
    assert!(Date::from_ymd_opt(2019, 2, 29).is_none());
    assert!(Date::from_ymd_opt(1900, 2, 29).is_none());
    assert!(Date::from_ymd_opt(2000, 2, 29).is_some());
    assert!(Date::from_ymd_opt(2019, 4, 31).is_none());
    assert!(Date::from_ymd_opt(2019, 13, 1).is_none());
}

#[test]
fn clock_times() {
    assert_eq!(Time::from_hm_opt(23, 59), Some(Time { hour: 23, minute: 59, second: 0 }));
    assert_eq!(Time::from_hm_opt(24, 0), None);
    assert_eq!(Time::from_hm_opt(12, 60), None);
}
