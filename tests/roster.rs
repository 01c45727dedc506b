use mdlog::date::Date;
use mdlog::roster::{parse_birthday, parse_people, people_from_entries, Birthday, Person, RosterError};
use std::collections::HashSet;

#[test]
fn roster_with_presents() {
    let file_content = "

Alex: 19.01.2001
Bob Smith: 20.12.?
John Johnson: 21.12.1947

### Presents
Alex:
- Salad
- Moar Salad

Bob Smith:
- Bazooka
";
    let peops: HashSet<Person> = parse_people(file_content).unwrap().into_iter().collect();
    let correct: HashSet<Person> = [
        Person {
            name: "Alex".into(),
            birthday: Birthday::KnownYear(Date::from_ymd_opt(2001, 1, 19).unwrap()),
            presents: Some(vec!["Salad".into(), "Moar Salad".into()]),
        },
        Person {
            name: "Bob Smith".into(),
            birthday: Birthday::UnknownYear(12, 20),
            presents: Some(vec!["Bazooka".into()]),
        },
        Person {
            name: "John Johnson".into(),
            birthday: Birthday::KnownYear(Date::from_ymd_opt(1947, 12, 21).unwrap()),
            presents: None,
        },
    ]
    .iter()
    .cloned()
    .collect();
    assert_eq!(&peops, &correct);
}

#[test]
fn roster_not_a_map() {
    assert_eq!(parse_people("- a\n- b\n"), Err(RosterError::Format));
}

#[test]
fn birthdays_in_both_forms() {
    assert_eq!(
        parse_birthday("21.12.1947"),
        Some(Birthday::KnownYear(Date { year: 1947, month: 12, day: 21 }))
    );
    assert_eq!(parse_birthday("20.12.?"), Some(Birthday::UnknownYear(12, 20)));
    assert_eq!(parse_birthday("31.02.2001"), None);
    assert_eq!(parse_birthday("x.12.?"), None);
    assert_eq!(parse_birthday("12?"), None);
}

#[test]
fn birthday_day_and_month() {
    let known = Birthday::KnownYear(Date { year: 2001, month: 1, day: 19 });
    assert_eq!(known.day(), 19);
    assert_eq!(known.month(), 1);
    let unknown = Birthday::UnknownYear(12, 20);
    assert_eq!(unknown.day(), 20);
    assert_eq!(unknown.month(), 12);
}

#[test]
fn entries_keep_order_and_find_presents() {
    let birthdays = vec![
        ("B".to_string(), "01.02.?".to_string()),
        ("A".to_string(), "03.04.2005".to_string()),
    ];
    let presents = vec![("A".to_string(), vec!["book".to_string()])];
    let people = people_from_entries(birthdays, presents).unwrap();
    assert_eq!(people[0].name, "B");
    assert_eq!(people[0].birthday, Birthday::UnknownYear(2, 1));
    assert_eq!(people[0].presents, None);
    assert_eq!(people[1].presents, Some(vec!["book".to_string()]));
}

#[test]
fn entry_with_bad_birthday() {
    let birthdays = vec![("C".to_string(), "soon".to_string())];
    assert_eq!(
        people_from_entries(birthdays, vec![]),
        Err(RosterError::InvalidBirthday { name: "C".into() })
    );
}
