//! A document tree of the kind that TOML and JSON files hold, reduced to
//! what dependency lists are read from: strings, arrays and tables.

use vstd::prelude::*;

verus! {

/// A value of a parsed document. Numbers, booleans, dates and nulls are
/// `Other`: no dependency is read from them.
#[derive(Debug)]
pub enum DocValue {
    Str(String),
    Array(Vec<DocValue>),
    Table(Vec<DocEntry>),
    Other,
}

/// One `key = value` pair of a table.
#[derive(Debug)]
pub struct DocEntry {
    pub key: String,
    pub value: DocValue,
}

/// The value of the first entry at or after `i` whose key is `key`.
pub open spec fn entry_lookup_from(entries: Seq<DocEntry>, key: Seq<char>, i: int) -> Option<DocValue>
    decreases entries.len() - i,
{
    if i < 0 || i >= entries.len() {
        None
    } else if entries[i].key@ == key {
        Some(entries[i].value)
    } else {
        entry_lookup_from(entries, key, i + 1)
    }
}

/// The value under `key` when `v` is a table that has it (`Value::get`
/// with a string key).
pub open spec fn doc_get(v: DocValue, key: Seq<char>) -> Option<DocValue> {
    match v {
        DocValue::Table(entries) => entry_lookup_from(entries@, key, 0),
        _ => None,
    }
}

/// [`doc_get`] on an optional value.
pub open spec fn opt_get(v: Option<DocValue>, key: Seq<char>) -> Option<DocValue> {
    match v {
        Some(x) => doc_get(x, key),
        None => None,
    }
}

/// The string items of `items`, in order; other items are skipped.
pub open spec fn string_items(items: Seq<DocValue>) -> Seq<Seq<char>>
    decreases items.len(),
{
    if items.len() == 0 {
        Seq::empty()
    } else {
        string_items(items.drop_last()) + match items.last() {
            DocValue::Str(s) => seq![s@],
            _ => Seq::empty(),
        }
    }
}

/// The string items of `v` when it is an array, and none otherwise.
pub open spec fn str_items(v: Option<DocValue>) -> Seq<Seq<char>> {
    match v {
        Some(DocValue::Array(items)) => string_items(items@),
        _ => Seq::empty(),
    }
}

/// The value under `key` in `v` (see [`doc_get`]).
pub fn get<'a>(v: &'a DocValue, key: &str) -> (r: Option<&'a DocValue>)
    ensures
        (match r {
            Some(x) => Some(*x),
            None => None,
        }) == doc_get(*v, key@),
{
    match v {
        DocValue::Table(entries) => {
            let k = key.to_owned();
            let mut i: usize = 0;
            while i < entries.len()
                invariant
                    i <= entries@.len(),
                    k@ == key@,
                    doc_get(*v, key@) == entry_lookup_from(entries@, key@, 0),
                    entry_lookup_from(entries@, key@, 0) == entry_lookup_from(entries@, key@, i as int),
                decreases entries@.len() - i,
            {
                if entries[i].key == k {
                    return Some(&entries[i].value);
                }
                i = i + 1;
            }
            None
        },
        _ => None,
    }
}

/// [`get`] on an optional value (see [`opt_get`]).
pub fn get_opt<'a>(v: Option<&'a DocValue>, key: &str) -> (r: Option<&'a DocValue>)
    ensures
        (match r {
            Some(x) => Some(*x),
            None => None,
        }) == opt_get(
            match v {
                Some(x) => Some(*x),
                None => None,
            },
            key@,
        ),
{
    match v {
        Some(x) => get(x, key),
        None => None,
    }
}

/// The string items of `v` (see [`str_items`]).
pub fn strings_in(v: Option<&DocValue>) -> (r: Vec<String>)
    ensures
        r@.map_values(|s: String| s@) == str_items(
            match v {
                Some(x) => Some(*x),
                None => None,
            },
        ),
{
    let mut out: Vec<String> = Vec::new();
    match v {
        Some(DocValue::Array(items)) => {
            let mut i: usize = 0;
            while i < items.len()
                invariant
                    i <= items@.len(),
                    out@.map_values(|s: String| s@) == string_items(items@.take(i as int)),
                decreases items@.len() - i,
            {
                assert(items@.take(i + 1).drop_last() =~= items@.take(i as int));
                let ghost before = out@;
                match &items[i] {
                    DocValue::Str(s) => {
                        out.push(s.clone());
                        assert(out@.map_values(|s: String| s@) =~= before.map_values(
                            |s: String| s@,
                        ).push(items@[i as int]->Str_0@));
                    },
                    _ => {
                        assert(out@.map_values(|s: String| s@) =~= before.map_values(
                            |s: String| s@,
                        ));
                    },
                }
                i = i + 1;
            }
            assert(items@.take(items@.len() as int) =~= items@);
        },
        _ => {},
    }
    assert(out@.map_values(|s: String| s@) =~= str_items(
        match v {
            Some(x) => Some(*x),
            None => None,
        },
    ));
    out
}

} // verus!
