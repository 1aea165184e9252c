//! Roster records and the numbering that ties a record's fields to the
//! placeholders of a template.

use vstd::prelude::*;
use crate::text::{chars_of, decimal, decimal_chars, push_all, string_of};

verus! {

/// One roster row.
pub enum Record {
    /// A row read against a header: `(field name, value)` in header order.
    Keyed { fields: Vec<(String, String)> },
    /// A row of player names by position, without pair labels.
    Positional { names: Vec<String> },
}

/// Field name of player slot `s` in a keyed record (`Player1` .. `Player4`).
pub open spec fn player_key(s: nat) -> Seq<char> {
    "Player"@ + decimal(s)
}

/// Field name of pair label `k` in a keyed record (`Pair No1`, `Pair No2`).
pub open spec fn pair_key(k: nat) -> Seq<char> {
    "Pair No"@ + decimal(k)
}

/// The value of the last field named `key`, blank or not.
pub open spec fn keyed_value(fields: Seq<(String, String)>, key: Seq<char>) -> Option<Seq<char>>
    decreases fields.len(),
{
    if fields.len() == 0 {
        None
    } else if fields.last().0@ == key {
        Some(fields.last().1@)
    } else {
        keyed_value(fields.drop_last(), key)
    }
}

/// A blank value counts as no value.
pub open spec fn non_blank(v: Option<Seq<char>>) -> Option<Seq<char>> {
    match v {
        Some(x) => if x.len() > 0 {
            Some(x)
        } else {
            None
        },
        None => None,
    }
}

/// The name that record `r` supplies for player slot `s` (1-based). A blank
/// keyed name counts as no name, so its placeholder stays; a blank
/// positional name is a name like any other.
pub open spec fn player_value(r: Record, s: nat) -> Option<Seq<char>> {
    match r {
        Record::Keyed { fields } => non_blank(keyed_value(fields@, player_key(s))),
        Record::Positional { names } => if 1 <= s <= names@.len() {
            Some(names@[s - 1]@)
        } else {
            None
        },
    }
}

/// The pair label that record `r` supplies for pair `k` (1 or 2); a blank
/// label present in the record is a label.
pub open spec fn pair_value(r: Record, k: nat) -> Option<Seq<char>> {
    match r {
        Record::Keyed { fields } => keyed_value(fields@, pair_key(k)),
        Record::Positional { .. } => None,
    }
}

/// The pair label that goes with player slot `s`: slot 1 has pair 1, slot 3 pair 2.
pub open spec fn pair_of_slot(s: nat) -> nat {
    if s == 1 {
        1
    } else {
        2
    }
}

/// The roster-wide index (0-based) of the record at `position` in group
/// `group_index`; every group but the last holds four records.
pub open spec fn record_index(group_index: nat, position: nat) -> nat {
    4 * group_index + position
}

/// The placeholder number `n` of `>PLAYERn<` filled from slot `s` (1 to 4)
/// of the record at `position` in group `group_index`: each record owns
/// four consecutive numbers, counted across the whole roster.
pub open spec fn player_number(group_index: nat, position: nat, s: nat) -> nat {
    record_index(group_index, position) * 4 + s
}

/// The pair number `k` of `>Pair Nok<` filled beside slot `s` (1 or 3) of the
/// record at `position` in group `group_index`: each record owns two
/// consecutive numbers, counted across the whole roster.
pub open spec fn pair_number(group_index: nat, position: nat, s: nat) -> nat {
    record_index(group_index, position) * 2 + pair_of_slot(s)
}

/// An optional character buffer, viewed.
pub open spec fn opt_view(o: Option<Vec<char>>) -> Option<Seq<char>> {
    match o {
        Some(v) => Some(v@),
        None => None,
    }
}

/// Number of the placeholder `>PLAYERn<` filled from slot `s` of the record
/// at `position` in group `group_index`.
pub fn slot_number(group_index: usize, position: usize, s: usize) -> (n: u128)
    requires
        1 <= s <= 4,
    ensures
        n == player_number(group_index as nat, position as nat, s as nat),
{
    (4 * (group_index as u128) + position as u128) * 4 + s as u128
}

/// Number of the placeholder `>Pair Nok<` filled beside slot `s` (1 or 3)
/// of the record at `position` in group `group_index`.
pub fn pair_slot_number(group_index: usize, position: usize, s: usize) -> (k: u128)
    requires
        s == 1 || s == 3,
    ensures
        k == pair_number(group_index as nat, position as nat, s as nat),
{
    let r = 4 * (group_index as u128) + position as u128;
    if s == 1 {
        r * 2 + 1
    } else {
        r * 2 + 2
    }
}

fn key_with_number(prefix: &str, n: usize) -> (r: String)
    ensures
        r@ == prefix@ + decimal(n as nat),
{
    let mut k = chars_of(prefix);
    let d = decimal_chars(n as u128);
    push_all(&mut k, &d);
    string_of(&k)
}

fn keyed_lookup(fields: &Vec<(String, String)>, key: &String) -> (r: Option<Vec<char>>)
    ensures
        opt_view(r) == keyed_value(fields@, key@),
{
    let mut i: usize = fields.len();
    assert(fields@.subrange(0, i as int) =~= fields@);
    while i > 0
        invariant
            i <= fields@.len(),
            keyed_value(fields@, key@) == keyed_value(fields@.subrange(0, i as int), key@),
        decreases i,
    {
        let ghost rest = fields@.subrange(0, i as int);
        assert(rest.drop_last() =~= fields@.subrange(0, i - 1));
        if fields[i - 1].0 == *key {
            return Some(chars_of(fields[i - 1].1.as_str()));
        }
        i = i - 1;
    }
    None
}

impl Record {
    /// The name this record supplies for player slot `s`, if any.
    pub fn player(&self, s: usize) -> (r: Option<Vec<char>>)
        ensures
            opt_view(r) == player_value(*self, s as nat),
    {
        match self {
            Record::Keyed { fields } => {
                let key = key_with_number("Player", s);
                match keyed_lookup(fields, &key) {
                    Some(v) => if v.len() > 0 {
                        Some(v)
                    } else {
                        None
                    },
                    None => None,
                }
            },
            Record::Positional { names } => {
                if 1 <= s && s <= names.len() {
                    Some(chars_of(names[s - 1].as_str()))
                } else {
                    None
                }
            },
        }
    }

    /// The label this record supplies for pair `k`, if any.
    pub fn pair(&self, k: usize) -> (r: Option<Vec<char>>)
        ensures
            opt_view(r) == pair_value(*self, k as nat),
    {
        match self {
            Record::Keyed { fields } => {
                let key = key_with_number("Pair No", k);
                keyed_lookup(fields, &key)
            },
            Record::Positional { .. } => None,
        }
    }
}

} // verus!
