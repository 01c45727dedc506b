use chrono::Datelike;
use std::collections::HashMap;
use vstd::prelude::*;

use crate::date::{u32_of, Date};
use crate::text::{
    after_first, chars_of, contains, copy_range, find_from, first_occ, lemma_first_occ_found,
    string_of,
};

verus! {

/// When someone was born: a full date, or only the month and the day.
#[derive(Clone, Copy, Debug, PartialEq, Eq, Hash)]
pub enum Birthday {
    /// Full Date
    KnownYear(Date),
    /// Month, Day
    UnknownYear(u32, u32),
}

/// Someone of the roster, with their birthday and present ideas.
#[derive(Clone, Debug, PartialEq, Eq, Hash)]
pub struct Person {
    pub name: String,
    pub birthday: Birthday,
    pub presents: Option<Vec<String>>,
}

/// Why a roster could not be read.
#[derive(Clone, Debug, PartialEq, Eq, Hash)]
pub enum RosterError {
    /// A part of the roster is not a map of the expected shape.
    Format,
    /// The birthday of this person is written in no known form.
    InvalidBirthday { name: String },
}

pub open spec fn birthday_day(b: Birthday) -> u32 {
    match b {
        Birthday::KnownYear(d) => d.day,
        Birthday::UnknownYear(_, d) => d,
    }
}

pub open spec fn birthday_month(b: Birthday) -> u32 {
    match b {
        Birthday::KnownYear(d) => d.month,
        Birthday::UnknownYear(m, _) => m,
    }
}

impl Birthday {
    pub fn day(&self) -> (r: u32)
        ensures
            r == birthday_day(*self),
    {
        match self {
            Birthday::KnownYear(d) => d.day,
            Birthday::UnknownYear(_, d) => *d,
        }
    }

    pub fn month(&self) -> (r: u32)
        ensures
            r == birthday_month(*self),
    {
        match self {
            Birthday::KnownYear(d) => d.month,
            Birthday::UnknownYear(m, _) => *m,
        }
    }
}

/// What chrono's NaiveDate::parse_from_str reads from `s` with the format "%d.%m.%Y".
pub uninterp spec fn dotted_date(s: Seq<char>) -> Option<Date>;

/// Relies on chrono's NaiveDate::parse_from_str with the format "%d.%m.%Y": its result
/// depends on the text alone.
#[verifier::external_body]
fn parse_dotted_date(s: &str) -> (r: Option<Date>)
    ensures
        r == dotted_date(s@),
{
    chrono::NaiveDate::parse_from_str(s, "%d.%m.%Y").ok().map(
        |d| Date { year: d.year(), month: d.month(), day: d.day() },
    )
}

/// Relies on serde_yaml::from_str to read a map of names to birthdays; the entries come in
/// the order in which the map hands them out.
#[verifier::external_body]
fn yaml_birthdays(s: &str) -> (r: Option<Vec<(String, String)>>) {
    serde_yaml::from_str::<HashMap<String, String>>(s).ok().map(|m| m.into_iter().collect())
}

/// Relies on serde_yaml::from_str to read a map of names to lists of presents; the entries
/// come in the order in which the map hands them out.
#[verifier::external_body]
fn yaml_presents(s: &str) -> (r: Option<Vec<(String, Vec<String>)>>) {
    serde_yaml::from_str::<HashMap<String, Vec<String>>>(s).ok().map(|m| m.into_iter().collect())
}

/// The heading of the part of a roster that lists presents.
pub open spec fn presents_mark() -> Seq<char> {
    seq!['#', ' ', 'P', 'r', 'e', 's', 'e', 'n', 't', 's']
}

pub open spec fn question_mark() -> Seq<char> {
    seq!['?']
}

pub open spec fn dot() -> Seq<char> {
    seq!['.']
}

/// The piece of `s` before the first dot (all of `s` where there is none).
pub open spec fn before_dot(s: Seq<char>) -> Seq<char> {
    match first_occ(s, 0, dot()) {
        Some(p) => s.subrange(0, p),
        None => s,
    }
}

/// A birthday written `dd.mm.yyyy`, or `dd.mm.?` where the year is not known.
pub open spec fn birthday_of(s: Seq<char>) -> Option<Birthday> {
    if contains(s, question_mark()) {
        match after_first(s, dot()) {
            None => None,
            Some(rest) => match (u32_of(before_dot(s)), u32_of(before_dot(rest))) {
                (Some(d), Some(m)) => Some(Birthday::UnknownYear(m, d)),
                _ => None,
            },
        }
    } else {
        match dotted_date(s) {
            Some(d) => Some(Birthday::KnownYear(d)),
            None => None,
        }
    }
}

/// The text of `s` before its first dot.
fn piece_before_dot(s: &Vec<char>) -> (r: Vec<char>)
    ensures
        r@ == before_dot(s@),
{
    let d = vec!['.'];
    assert(d@ =~= dot());
    match find_from(s, 0, &d) {
        Some(p) => {
            proof {
                lemma_first_occ_found(s@, 0, d@);
            }
            copy_range(s, 0, p)
        },
        None => {
            let r = copy_range(s, 0, s.len());
            assert(r@ =~= s@);
            r
        },
    }
}

/// Reads one birthday.
pub fn parse_birthday(s: &str) -> (r: Option<Birthday>)
    ensures
        r == birthday_of(s@),
{
    let t = chars_of(s);
    let q = vec!['?'];
    assert(q@ =~= question_mark());
    if find_from(&t, 0, &q).is_some() {
        let d = vec!['.'];
        assert(d@ =~= dot());
        let rest = match crate::text::slice_from(&t, &d) {
            None => {
                return None;
            },
            Some(rest) => rest,
        };
        let day = match crate::date::parse_u32(&piece_before_dot(&t)) {
            None => {
                return None;
            },
            Some(v) => v,
        };
        let month = match crate::date::parse_u32(&piece_before_dot(&rest)) {
            None => {
                return None;
            },
            Some(v) => v,
        };
        Some(Birthday::UnknownYear(month, day))
    } else {
        match parse_dotted_date(s) {
            Some(d) => Some(Birthday::KnownYear(d)),
            None => None,
        }
    }
}

/// The first list of presents filed under `name`.
pub open spec fn presents_for(ps: Seq<(String, Vec<String>)>, name: Seq<char>) -> Option<
    Seq<Seq<char>>,
>
    decreases ps.len(),
{
    if ps.len() == 0 {
        None
    } else if ps[0].0@ == name {
        Some(crate::types::strings_view(ps[0].1@))
    } else {
        presents_for(ps.drop_first(), name)
    }
}

pub open spec fn opt_strings_view(p: Option<Vec<String>>) -> Option<Seq<Seq<char>>> {
    match p {
        Some(v) => Some(crate::types::strings_view(v@)),
        None => None,
    }
}

/// The people of the roster from its two maps, read as entries: each birthday entry gives
/// one person, in the same order, with the presents filed under their name.
pub fn people_from_entries(
    birthdays: Vec<(String, String)>,
    presents: Vec<(String, Vec<String>)>,
) -> (r: Result<Vec<Person>, RosterError>)
    ensures
        match r {
            Ok(v) => {
                &&& v@.len() == birthdays@.len()
                &&& forall|k: int|
                    0 <= k < v@.len() ==> {
                        &&& (#[trigger] v@[k]).name@ == birthdays@[k].0@
                        &&& birthday_of(birthdays@[k].1@) == Some(v@[k].birthday)
                        &&& opt_strings_view(v@[k].presents) == presents_for(
                            presents@,
                            birthdays@[k].0@,
                        )
                    }
            },
            Err(e) => exists|k: int|
                0 <= k < birthdays@.len() && birthday_of(birthdays@[k].1@) is None && e
                    == RosterError::InvalidBirthday { name: birthdays@[k].0 },
        },
{
    let mut people: Vec<Person> = Vec::new();
    let mut i: usize = 0;
    while i < birthdays.len()
        invariant
            i <= birthdays@.len(),
            people@.len() == i,
            forall|k: int|
                0 <= k < i ==> {
                    &&& (#[trigger] people@[k]).name@ == birthdays@[k].0@
                    &&& birthday_of(birthdays@[k].1@) == Some(people@[k].birthday)
                    &&& opt_strings_view(people@[k].presents) == presents_for(
                        presents@,
                        birthdays@[k].0@,
                    )
                },
        decreases birthdays@.len() - i,
    {
        let name = &birthdays[i].0;
        let birthday = match parse_birthday(birthdays[i].1.as_str()) {
            None => {
                return Err(RosterError::InvalidBirthday { name: name.clone() });
            },
            Some(b) => b,
        };
        let gifts = find_presents(&presents, name);
        people.push(Person { name: name.clone(), birthday, presents: gifts });
        i = i + 1;
    }
    Ok(people)
}

/// The first list of presents filed under `name`, copied.
fn find_presents(ps: &Vec<(String, Vec<String>)>, name: &String) -> (r: Option<Vec<String>>)
    ensures
        opt_strings_view(r) == presents_for(ps@, name@),
{
    let mut i: usize = 0;
    assert(ps@.subrange(0, ps@.len() as int) =~= ps@);
    while i < ps.len()
        invariant
            i <= ps@.len(),
            presents_for(ps@, name@) == presents_for(ps@.subrange(i as int, ps@.len() as int), name@),
        decreases ps@.len() - i,
    {
        let ghost rest = ps@.subrange(i as int, ps@.len() as int);
        assert(rest.drop_first() =~= ps@.subrange(i + 1, ps@.len() as int));
        assert(rest[0] == ps@[i as int]);
        if ps[i].0 == *name {
            let mut out: Vec<String> = Vec::new();
            let list = &ps[i].1;
            let mut j: usize = 0;
            while j < list.len()
                invariant
                    j <= list@.len(),
                    crate::types::strings_view(out@) == crate::types::strings_view(list@).take(
                        j as int,
                    ),
                decreases list@.len() - j,
            {
                let ghost o = out@;
                let c = list[j].clone();
                out.push(c);
                assert(crate::types::strings_view(out@) =~= crate::types::strings_view(o).push(
                    c@,
                ));
                assert(crate::types::strings_view(list@).take(j + 1) =~= crate::types::strings_view(
                    list@,
                ).take(j as int).push(c@));
                j = j + 1;
            }
            assert(crate::types::strings_view(list@).take(list@.len() as int)
                =~= crate::types::strings_view(list@));
            return Some(out);
        }
        i = i + 1;
    }
    assert(ps@.subrange(i as int, ps@.len() as int).len() == 0);
    None
}

/// The people of a roster: a map of names to birthdays, then, after a line `# Presents`, an
/// optional map of names to lists of presents.
pub fn parse_people(s: &str) -> (r: Result<Vec<Person>, RosterError>)
    ensures
        match r {
            Ok(v) => {
                &&& forall|k: int|
                    0 <= k < v@.len() ==> exists|b: Seq<char>|
                        birthday_of(b) == Some(#[trigger] v@[k].birthday)
                &&& !contains(s@, presents_mark()) ==> forall|k: int|
                    0 <= k < v@.len() ==> (#[trigger] v@[k]).presents is None
            },
            Err(_) => true,
        },
{
    let t = chars_of(s);
    let mark = vec!['#', ' ', 'P', 'r', 'e', 's', 'e', 'n', 't', 's'];
    assert(mark@ =~= presents_mark());
    let split = find_from(&t, 0, &mark);
    proof {
        lemma_first_occ_found(t@, 0, mark@);
    }
    let end = match split {
        Some(p) => p,
        None => t.len(),
    };
    let head = string_of(&t, 0, end);
    let birthdays = match yaml_birthdays(head.as_str()) {
        None => {
            return Err(RosterError::Format);
        },
        Some(b) => b,
    };
    let presents = match split {
        Some(p) => {
            let tail = string_of(&t, p, t.len());
            match yaml_presents(tail.as_str()) {
                None => {
                    return Err(RosterError::Format);
                },
                Some(ps) => ps,
            }
        },
        None => Vec::new(),
    };
    let r = people_from_entries(birthdays, presents);
    proof {
        if r is Ok {
            let v = r->Ok_0;
            assert forall|k: int| 0 <= k < v@.len() implies exists|b: Seq<char>|
                birthday_of(b) == Some(#[trigger] v@[k].birthday) by {
                assert(birthday_of(birthdays@[k].1@) == Some(v@[k].birthday));
            }
            if split is None {
                assert forall|k: int| 0 <= k < v@.len() implies (#[trigger] v@[k]).presents is None by {
                    assert(presents_for(presents@, birthdays@[k].0@) is None);
                }
            }
        }
    }
    r
}

} // verus!
