//! The stored record type and its mathematical model.

use vstd::prelude::*;

verus! {

/// A stored record: a titled credential keyed by a caller-chosen id
/// (typically a UUID string).  Equality is full structural equality.
#[derive(Debug)]
pub struct Entry {
    pub id: String,
    pub title: String,
    pub username: Option<String>,
    pub password: Option<String>,
    pub url: Option<String>,
    pub note: Option<String>,
}

/// Mathematical model of an [`Entry`]: every text field as its character
/// sequence.
#[verifier::ext_equal]
pub struct EntryV {
    pub id: Seq<char>,
    pub title: Seq<char>,
    pub username: Option<Seq<char>>,
    pub password: Option<Seq<char>>,
    pub url: Option<Seq<char>>,
    pub note: Option<Seq<char>>,
}

/// Model of an optional text field.
pub open spec fn view_opt(o: Option<String>) -> Option<Seq<char>> {
    match o {
        Some(s) => Some(s@),
        None => None,
    }
}

impl View for Entry {
    type V = EntryV;

    open spec fn view(&self) -> EntryV {
        EntryV {
            id: self.id@,
            title: self.title@,
            username: view_opt(self.username),
            password: view_opt(self.password),
            url: view_opt(self.url),
            note: view_opt(self.note),
        }
    }
}

fn clone_opt(o: &Option<String>) -> (r: Option<String>)
    ensures
        r == *o,
{
    match o {
        Some(s) => Some(s.clone()),
        None => None,
    }
}

impl Clone for Entry {
    fn clone(&self) -> (r: Self)
        ensures
            r@ == self@,
    {
        Entry {
            id: self.id.clone(),
            title: self.title.clone(),
            username: clone_opt(&self.username),
            password: clone_opt(&self.password),
            url: clone_opt(&self.url),
            note: clone_opt(&self.note),
        }
    }
}

fn eq_opt(a: &Option<String>, b: &Option<String>) -> (r: bool)
    ensures
        r == (view_opt(*a) == view_opt(*b)),
{
    match (a, b) {
        (None, None) => true,
        (Some(x), Some(y)) => *x == *y,
        _ => false,
    }
}

impl PartialEq for Entry {
    fn eq(&self, other: &Self) -> (r: bool) {
        self.id == other.id && self.title == other.title && eq_opt(
            &self.username,
            &other.username,
        ) && eq_opt(&self.password, &other.password) && eq_opt(&self.url, &other.url) && eq_opt(
            &self.note,
            &other.note,
        )
    }
}

impl vstd::std_specs::cmp::PartialEqSpecImpl for Entry {
    open spec fn obeys_eq_spec() -> bool {
        true
    }

    open spec fn eq_spec(&self, other: &Self) -> bool {
        self@ == other@
    }
}

} // verus!
