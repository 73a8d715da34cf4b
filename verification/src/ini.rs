//! A reader for INI files with Python-style multi-line values, in which a
//! line that begins with whitespace continues the value of the last key.

use vstd::prelude::*;

use crate::assoc::{
    assoc_put, find_key, keys_unique, lemma_assoc_put, lemma_find_key, lemma_find_key_absent,
    lemma_find_key_at, lookup,
};
use crate::text::{
    chars_of, find_char, find_char_index, free_of, is_whitespace, is_ws, lemma_find_char_from,
    lemma_lines_free, lemma_split_nl_append, lemma_trim_free, lemma_trim_idempotent, lines,
    split_nl,
    lines_of, lowercase, lowercase_chars, opt_view, slice_chars, string_of, trim, trim_chars, views,
};

verus! {

/// The entries of a section: keys and values, in the order keys appeared.
pub type EntriesModel = Seq<(Seq<char>, Seq<char>)>;

/// The sections of a file: names and entries, in the order names appeared.
pub type IniModel = Seq<(Seq<char>, EntriesModel)>;

/// One `key = value` entry.
pub struct IniEntry {
    pub key: String,
    pub value: String,
}

/// One named section and its entries.
pub struct IniSection {
    pub name: String,
    pub entries: Vec<IniEntry>,
}

/// The sections of an INI file.
pub struct Ini {
    pub sections: Vec<IniSection>,
}

impl IniEntry {
    pub open spec fn model(&self) -> (Seq<char>, Seq<char>) {
        (self.key@, self.value@)
    }
}

impl IniSection {
    pub open spec fn entries_model(&self) -> EntriesModel {
        self.entries@.map_values(|e: IniEntry| e.model())
    }

    pub open spec fn model(&self) -> (Seq<char>, EntriesModel) {
        (self.name@, self.entries_model())
    }
}

impl View for Ini {
    type V = IniModel;

    open spec fn view(&self) -> IniModel {
        self.sections@.map_values(|s: IniSection| s.model())
    }
}

/// `secs` with a section called `name`, appended empty when it was missing.
pub open spec fn ensure_section(secs: IniModel, name: Seq<char>) -> IniModel {
    if find_key(secs, name) is Some {
        secs
    } else {
        secs.push((name, Seq::empty()))
    }
}

/// `secs` with `key = value` stored in section `name` (which is created if
/// missing); a key already present keeps its place and gets the new value.
pub open spec fn put_entry(secs: IniModel, name: Seq<char>, key: Seq<char>, value: Seq<char>) -> IniModel {
    let s2 = ensure_section(secs, name);
    let i = find_key(s2, name)->0;
    s2.update(i, (name, assoc_put(s2[i].1, key, value)))
}

/// `secs` with `extra` appended to the value of `key` in section `name`.
/// The section is created if missing; a missing key is left missing.
pub open spec fn extend_entry(secs: IniModel, name: Seq<char>, key: Seq<char>, extra: Seq<char>) -> IniModel {
    let s2 = ensure_section(secs, name);
    let i = find_key(s2, name)->0;
    match find_key(s2[i].1, key) {
        Some(j) => s2.update(i, (name, s2[i].1.update(j, (key, s2[i].1[j].1 + extra)))),
        None => s2,
    }
}

/// The reader's state between lines: what has been read, the current section
/// and the key that a continuation line would extend.
pub struct IniState {
    pub sections: IniModel,
    pub section: Seq<char>,
    pub key: Option<Seq<char>>,
}

pub open spec fn ini_start() -> IniState {
    IniState { sections: Seq::empty(), section: Seq::empty(), key: None }
}

/// How one line changes the reader's state:
/// - `[name]` (up to the first `]`) starts the section `name`, trimmed and
///   lowercased; a `[` line without `]` changes nothing;
/// - a line that begins with whitespace appends a newline and the trimmed
///   line to the value of the current key, if there is one;
/// - otherwise a line with `=` stores the trimmed, lowercased text before the
///   first `=` as key and the trimmed text after it as value, and makes that
///   key current;
/// - any other line changes nothing.
pub open spec fn ini_step(st: IniState, line: Seq<char>) -> IniState {
    if line.len() > 0 && line[0] == '[' {
        match find_char(line, ']') {
            Some(end) => IniState {
                section: lowercase(trim(line.subrange(1, end))),
                key: None,
                ..st
            },
            None => st,
        }
    } else if line.len() > 0 && is_ws(line[0]) {
        match st.key {
            Some(k) => IniState {
                sections: extend_entry(st.sections, st.section, k, seq!['\n'] + trim(line)),
                ..st
            },
            None => st,
        }
    } else {
        match find_char(line, '=') {
            Some(eq) => {
                let k = lowercase(trim(line.take(eq)));
                IniState {
                    sections: put_entry(st.sections, st.section, k, trim(line.skip(eq + 1))),
                    key: Some(k),
                    ..st
                }
            },
            None => st,
        }
    }
}

/// The state after reading `ls` in order.
pub open spec fn ini_run(ls: Seq<Seq<char>>) -> IniState
    decreases ls.len(),
{
    if ls.len() == 0 {
        ini_start()
    } else {
        ini_step(ini_run(ls.drop_last()), ls.last())
    }
}

/// The sections that `content` holds.
pub open spec fn ini_of(content: Seq<char>) -> IniModel {
    ini_run(lines(content)).sections
}

/// The value of `key` in section `section`.
pub open spec fn ini_get(m: IniModel, section: Seq<char>, key: Seq<char>) -> Option<Seq<char>> {
    match lookup(m, section) {
        Some(entries) => lookup(entries, key),
        None => None,
    }
}

/// Names are unique among the sections, and keys within each section.
pub open spec fn ini_wf(m: IniModel) -> bool {
    &&& keys_unique(m)
    &&& forall|i: int| 0 <= i < m.len() ==> keys_unique(#[trigger] m[i].1)
}

pub proof fn lemma_ensure_section(secs: IniModel, name: Seq<char>)
    requires
        ini_wf(secs),
    ensures
        ini_wf(ensure_section(secs, name)),
        find_key(ensure_section(secs, name), name) is Some,
        forall|n: Seq<char>| n != name ==> lookup(ensure_section(secs, name), n) == lookup(secs, n),
        lookup(secs, name) is Some ==> ensure_section(secs, name) == secs,
        lookup(secs, name) is None ==> lookup(ensure_section(secs, name), name) == Some(
            Seq::<(Seq<char>, Seq<char>)>::empty(),
        ),
{
    lemma_find_key(secs, name);
    if find_key(secs, name) is None {
        lemma_assoc_put(secs, name, Seq::<(Seq<char>, Seq<char>)>::empty());
        assert(ensure_section(secs, name) == assoc_put(secs, name, Seq::<(Seq<char>, Seq<char>)>::empty()));
        lemma_find_key(ensure_section(secs, name), name);
    }
}

/// Storing `key = value` in a section and then reading it gives `value`;
/// every other entry of every section reads as before.
pub proof fn law_put_then_get(secs: IniModel, name: Seq<char>, key: Seq<char>, value: Seq<char>)
    requires
        ini_wf(secs),
    ensures
        ini_wf(put_entry(secs, name, key, value)),
        ini_get(put_entry(secs, name, key, value), name, key) == Some(value),
        forall|n: Seq<char>, k: Seq<char>|
            n != name || k != key ==> #[trigger] ini_get(put_entry(secs, name, key, value), n, k)
                == ini_get(secs, n, k),
{
    let s2 = ensure_section(secs, name);
    lemma_ensure_section(secs, name);
    lemma_find_key(s2, name);
    let i = find_key(s2, name)->0;
    let e2 = assoc_put(s2[i].1, key, value);
    lemma_assoc_put(s2[i].1, key, value);
    let r = put_entry(secs, name, key, value);
    assert(r == assoc_put(s2, name, e2));
    lemma_assoc_put(s2, name, e2);
    assert forall|j: int| 0 <= j < r.len() implies keys_unique(#[trigger] r[j].1) by {
        if j != i {
            assert(r[j] == s2[j]);
        }
    }
    assert(lookup(s2, name) == Some(s2[i].1));
    assert forall|n: Seq<char>, k: Seq<char>|
        n != name || k != key implies #[trigger] ini_get(r, n, k) == ini_get(secs, n, k) by {
        if n == name {
            assert(lookup(r, n) == Some(e2));
            assert(lookup(e2, k) == lookup(s2[i].1, k));
            if lookup(secs, name) is None {
                assert(s2[i].1 == Seq::<(Seq<char>, Seq<char>)>::empty());
                lemma_find_key(s2[i].1, k);
            }
        }
    }
}

/// Extending a value keeps names and keys unique.
proof fn lemma_extend_entry(secs: IniModel, name: Seq<char>, key: Seq<char>, extra: Seq<char>)
    requires
        ini_wf(secs),
    ensures
        ini_wf(extend_entry(secs, name, key, extra)),
{
    let s2 = ensure_section(secs, name);
    lemma_ensure_section(secs, name);
    lemma_find_key(s2, name);
    let i = find_key(s2, name)->0;
    let e = s2[i].1;
    lemma_find_key(e, key);
    if let Some(j) = find_key(e, key) {
        let e2 = e.update(j, (key, e[j].1 + extra));
        let r = s2.update(i, (name, e2));
        assert(keys_unique(e2)) by {
            assert(keys_unique(e));
        }
        assert forall|x: int| 0 <= x < r.len() implies keys_unique(#[trigger] r[x].1) by {
            if x != i {
                assert(r[x] == s2[x]);
            }
        }
        assert(extend_entry(secs, name, key, extra) == r);
    }
}

/// The reader's state is well formed after every line.
proof fn lemma_ini_run_wf(ls: Seq<Seq<char>>)
    ensures
        ini_wf(ini_run(ls).sections),
    decreases ls.len(),
{
    if ls.len() == 0 {
        assert(ini_start().sections =~= Seq::<(Seq<char>, EntriesModel)>::empty());
    } else {
        lemma_ini_run_wf(ls.drop_last());
        let st = ini_run(ls.drop_last());
        let line = ls.last();
        if line.len() > 0 && line[0] == '[' {
        } else if line.len() > 0 && is_ws(line[0]) {
            if let Some(k) = st.key {
                lemma_extend_entry(st.sections, st.section, k, seq!['\n'] + trim(line));
            }
        } else if let Some(eq) = find_char(line, '=') {
            law_put_then_get(
                st.sections,
                st.section,
                lowercase(trim(line.take(eq))),
                trim(line.skip(eq + 1)),
            );
        }
    }
}

/// Like a map of maps, what `parse_ini` reads names each section once and
/// each key once within its section: a repeated header continues the same
/// section, and a repeated key takes the new value in its old place.
pub proof fn law_parse_ini_well_formed(content: Seq<char>)
    ensures
        ini_wf(ini_of(content)),
{
    lemma_ini_run_wf(lines(content));
}

/// A name as the reader stores it: some text, trimmed, then lowercased.
pub open spec fn is_folded(n: Seq<char>) -> bool {
    exists|x: Seq<char>| n == lowercase(trim(x))
}

/// The pieces of a value between its newlines.
pub open spec fn value_pieces(v: Seq<char>) -> Seq<Seq<char>> {
    split_nl(v).0.push(split_nl(v).1)
}

/// Every piece of `v` between newlines is trimmed.
pub open spec fn pieces_trimmed(v: Seq<char>) -> bool {
    forall|q: int| 0 <= q < value_pieces(v).len() ==> trim(#[trigger] value_pieces(v)[q])
        == value_pieces(v)[q]
}

/// Every section has an entry; its name is empty (keys before any header)
/// or folded, and so are its keys; and every piece of every value is
/// trimmed.
pub open spec fn ini_shape(m: IniModel) -> bool {
    forall|i: int|
        0 <= i < m.len() ==> {
            &&& (#[trigger] m[i]).1.len() > 0
            &&& (m[i].0.len() == 0 || is_folded(m[i].0))
            &&& forall|j: int| 0 <= j < m[i].1.len() ==> is_folded(#[trigger] m[i].1[j].0)
            &&& forall|j: int| 0 <= j < m[i].1.len() ==> pieces_trimmed(#[trigger] m[i].1[j].1)
        }
}

/// A trimmed text without newlines is one trimmed piece.
proof fn lemma_pieces_single(t: Seq<char>)
    requires
        free_of(t, '\n'),
        trim(t) == t,
    ensures
        pieces_trimmed(t),
        value_pieces(t) == seq![t],
{
    lemma_split_nl_append(Seq::empty(), t);
    assert(Seq::<char>::empty() + t =~= t);
    assert(split_nl(Seq::<char>::empty()) == (Seq::<Seq<char>>::empty(), Seq::<char>::empty()));
    assert(Seq::<char>::empty() + t =~= t);
    assert(value_pieces(t) =~= seq![t]);
}

/// A newline and a trimmed text without newlines add one trimmed piece.
proof fn lemma_pieces_extend(v: Seq<char>, t: Seq<char>)
    requires
        pieces_trimmed(v),
        free_of(t, '\n'),
        trim(t) == t,
    ensures
        pieces_trimmed(v + (seq!['\n'] + t)),
{
    let w = v + seq!['\n'];
    assert(w.drop_last() =~= v);
    assert(w.last() == '\n');
    assert(split_nl(w) == (value_pieces(v), Seq::<char>::empty()));
    lemma_split_nl_append(w, t);
    assert(w + t =~= v + (seq!['\n'] + t));
    assert(Seq::<char>::empty() + t =~= t);
    let n = v + (seq!['\n'] + t);
    assert(value_pieces(n) =~= value_pieces(v).push(t));
    assert forall|q: int| 0 <= q < value_pieces(n).len() implies trim(
        #[trigger] value_pieces(n)[q],
    ) == value_pieces(n)[q] by {
        if q < value_pieces(v).len() {
            assert(value_pieces(n)[q] == value_pieces(v)[q]);
        }
    }
}

/// What holds of the reader's state between lines.
pub open spec fn ini_state_ok(st: IniState) -> bool {
    &&& ini_wf(st.sections)
    &&& ini_shape(st.sections)
    &&& (st.section.len() == 0 || is_folded(st.section))
    &&& st.key matches Some(k) ==> is_folded(k) && ini_get(st.sections, st.section, k) is Some
}

proof fn lemma_put_shape(secs: IniModel, name: Seq<char>, key: Seq<char>, value: Seq<char>)
    requires
        ini_wf(secs),
        ini_shape(secs),
        name.len() == 0 || is_folded(name),
        is_folded(key),
        pieces_trimmed(value),
    ensures
        ini_shape(put_entry(secs, name, key, value)),
{
    let s2 = ensure_section(secs, name);
    lemma_ensure_section(secs, name);
    lemma_find_key(s2, name);
    let i = find_key(s2, name)->0;
    let e = s2[i].1;
    let e2 = assoc_put(e, key, value);
    let r = put_entry(secs, name, key, value);
    assert(r == s2.update(i, (name, e2)));
    lemma_find_key(e, key);
    assert(e2.len() > 0);
    assert forall|j: int| 0 <= j < e2.len() implies is_folded(#[trigger] e2[j].0) && pieces_trimmed(
        e2[j].1,
    ) by {
        if find_key(e, key) is None {
            if j < e.len() {
                assert(e2[j] == e[j]);
                if i < secs.len() {
                    assert(s2[i] == secs[i]);
                    assert(is_folded(secs[i].1[j].0));
                    assert(pieces_trimmed(secs[i].1[j].1));
                }
            }
        } else {
            let x = find_key(e, key)->0;
            if j != x {
                assert(e2[j] == e[j]);
                assert(s2[i] == secs[i]);
                assert(is_folded(secs[i].1[j].0));
                assert(pieces_trimmed(secs[i].1[j].1));
            }
        }
    }
    assert forall|x: int| 0 <= x < r.len() implies {
        &&& (#[trigger] r[x]).1.len() > 0
        &&& (r[x].0.len() == 0 || is_folded(r[x].0))
        &&& forall|j: int| 0 <= j < r[x].1.len() ==> is_folded(#[trigger] r[x].1[j].0)
        &&& forall|j: int| 0 <= j < r[x].1.len() ==> pieces_trimmed(#[trigger] r[x].1[j].1)
    } by {
        if x != i {
            assert(r[x] == s2[x]);
            assert(x < secs.len());
            assert(s2[x] == secs[x]);
        }
    }
}

proof fn lemma_extend_shape(secs: IniModel, name: Seq<char>, key: Seq<char>, t: Seq<char>)
    requires
        ini_wf(secs),
        ini_shape(secs),
        ini_get(secs, name, key) is Some,
        free_of(t, '\n'),
        trim(t) == t,
    ensures
        ini_shape(extend_entry(secs, name, key, seq!['\n'] + t)),
        ini_get(extend_entry(secs, name, key, seq!['\n'] + t), name, key) is Some,
{
    lemma_find_key(secs, name);
    let i = find_key(secs, name)->0;
    assert(ensure_section(secs, name) == secs);
    let extra = seq!['\n'] + t;
    let e = secs[i].1;
    lemma_find_key(e, key);
    let j = find_key(e, key)->0;
    lemma_pieces_extend(e[j].1, t);
    let e2 = e.update(j, (key, e[j].1 + extra));
    let r = secs.update(i, (name, e2));
    assert(extend_entry(secs, name, key, extra) == r);
    assert forall|x: int| 0 <= x < r.len() implies {
        &&& (#[trigger] r[x]).1.len() > 0
        &&& (r[x].0.len() == 0 || is_folded(r[x].0))
        &&& forall|y: int| 0 <= y < r[x].1.len() ==> is_folded(#[trigger] r[x].1[y].0)
        &&& forall|y: int| 0 <= y < r[x].1.len() ==> pieces_trimmed(#[trigger] r[x].1[y].1)
    } by {
        if x == i {
            assert forall|y: int| 0 <= y < r[x].1.len() implies is_folded(#[trigger] r[x].1[y].0)
                && pieces_trimmed(r[x].1[y].1) by {
                if y != j {
                    assert(e2[y] == e[y]);
                    assert(pieces_trimmed(secs[i].1[y].1));
                }
                assert(is_folded(secs[i].1[y].0));
            }
        } else {
            assert(r[x] == secs[x]);
        }
    }
    assert forall|y: int| 0 <= y < i implies r[y].0 != name by {
        assert(r[y] == secs[y]);
    }
    lemma_find_key_at(r, name, i);
    assert forall|y: int| 0 <= y < j implies e2[y].0 != key by {
        assert(e2[y] == e[y]);
    }
    lemma_find_key_at(e2, key, j);
}

proof fn lemma_ini_run_ok(ls: Seq<Seq<char>>)
    requires
        forall|k: int| 0 <= k < ls.len() ==> free_of(#[trigger] ls[k], '\n'),
    ensures
        ini_state_ok(ini_run(ls)),
    decreases ls.len(),
{
    if ls.len() == 0 {
        assert(ini_start().sections =~= Seq::<(Seq<char>, EntriesModel)>::empty());
    } else {
        assert forall|k: int| 0 <= k < ls.drop_last().len() implies free_of(
            #[trigger] ls.drop_last()[k],
            '\n',
        ) by {
            assert(ls.drop_last()[k] == ls[k]);
        }
        lemma_ini_run_ok(ls.drop_last());
        let st = ini_run(ls.drop_last());
        let line = ls.last();
        assert(free_of(ls[ls.len() - 1], '\n'));
        if line.len() > 0 && line[0] == '[' {
            if let Some(end) = find_char(line, ']') {
                let x = line.subrange(1, end);
                assert(is_folded(lowercase(trim(x))));
            }
        } else if line.len() > 0 && is_ws(line[0]) {
            if let Some(k) = st.key {
                let extra = seq!['\n'] + trim(line);
                lemma_trim_free(line, '\n');
                lemma_trim_idempotent(line);
                lemma_extend_entry(st.sections, st.section, k, extra);
                lemma_extend_shape(st.sections, st.section, k, trim(line));
            }
        } else if let Some(eq) = find_char(line, '=') {
            let x = line.take(eq);
            let k = lowercase(trim(x));
            assert(is_folded(k));
            lemma_find_char_from(line, '=', 0);
            let v = line.skip(eq + 1);
            assert forall|i: int| 0 <= i < v.len() implies v[i] != '\n' by {
                assert(v[i] == line[eq + 1 + i]);
            }
            lemma_trim_free(v, '\n');
            lemma_trim_idempotent(v);
            lemma_pieces_single(trim(v));
            law_put_then_get(st.sections, st.section, k, trim(v));
            lemma_put_shape(st.sections, st.section, k, trim(v));
        }
    }
}

/// What `parse_ini` reads has no empty section; its section names (but
/// the empty name of keys before any header) and its keys are text trimmed
/// and then lowercased; and each piece of a value between newlines is
/// trimmed.
pub proof fn law_parse_ini_shape(content: Seq<char>)
    ensures
        ini_shape(ini_of(content)),
{
    lemma_lines_free(content);
    lemma_ini_run_ok(lines(content));
}

/// The model of a vector of entries.
pub open spec fn entries_view(v: Seq<IniEntry>) -> EntriesModel {
    v.map_values(|e: IniEntry| e.model())
}

/// Stores `key = value` in `entries` (see [`assoc_put`]).
fn entries_put(entries: &mut Vec<IniEntry>, key: String, value: String)
    ensures
        entries_view(final(entries)@) == assoc_put(entries_view(old(entries)@), key@, value@),
{
    let ghost before = entries_view(entries@);
    let mut j: usize = 0;
    while j < entries.len()
        invariant
            entries_view(entries@) == before,
            before == entries_view(old(entries)@),
            j <= before.len(),
            forall|x: int| 0 <= x < j ==> before[x].0 != key@,
        decreases before.len() - j,
    {
        if entries[j].key == key {
            proof {
                lemma_find_key_at(before, key@, j as int);
            }
            let ghost kv = key@;
            let ghost vv = value@;
            entries.set(j, IniEntry { key, value });
            assert(entries_view(entries@) =~= before.update(j as int, (kv, vv)));
            return;
        }
        j = j + 1;
    }
    proof {
        lemma_find_key_absent(before, key@);
    }
    let ghost kv = key@;
    let ghost vv = value@;
    entries.push(IniEntry { key, value });
    assert(entries_view(entries@) =~= before.push((kv, vv)));
}

/// Appends `extra` to the value of `key` in `entries`, if `key` is there.
fn entries_extend(entries: &mut Vec<IniEntry>, key: &String, extra: &str)
    ensures
        entries_view(final(entries)@) == (match find_key(entries_view(old(entries)@), key@) {
            Some(j) => entries_view(old(entries)@).update(
                j,
                (key@, entries_view(old(entries)@)[j].1 + extra@),
            ),
            None => entries_view(old(entries)@),
        }),
{
    let ghost before = entries_view(entries@);
    let mut j: usize = 0;
    while j < entries.len()
        invariant
            entries_view(entries@) == before,
            before == entries_view(old(entries)@),
            j <= before.len(),
            forall|x: int| 0 <= x < j ==> before[x].0 != key@,
        decreases before.len() - j,
    {
        if entries[j].key == *key {
            proof {
                lemma_find_key_at(before, key@, j as int);
            }
            let mut v = entries[j].value.clone();
            v.append(extra);
            let k = key.clone();
            entries.set(j, IniEntry { key: k, value: v });
            assert(entries_view(entries@) =~= before.update(
                j as int,
                (key@, before[j as int].1 + extra@),
            ));
            return;
        }
        j = j + 1;
    }
    proof {
        lemma_find_key_absent(before, key@);
    }
}

impl Ini {
    /// The index of section `name`, which is appended empty if missing.
    fn section_index(&mut self, name: &String) -> (i: usize)
        ensures
            final(self)@ == ensure_section(old(self)@, name@),
            find_key(final(self)@, name@) == Some(i as int),
            i < final(self)@.len(),
    {
        let ghost m = self@;
        let mut i: usize = 0;
        while i < self.sections.len()
            invariant
                self@ == m,
                i <= self@.len(),
                forall|j: int| 0 <= j < i ==> self@[j].0 != name@,
            decreases self@.len() - i,
        {
            if self.sections[i].name == *name {
                proof {
                    lemma_find_key_at(m, name@, i as int);
                }
                return i;
            }
            i = i + 1;
        }
        proof {
            lemma_find_key_absent(m, name@);
        }
        let n = name.clone();
        let fresh = IniSection { name: n, entries: Vec::new() };
        assert(fresh.entries_model() =~= Seq::empty());
        self.sections.push(fresh);
        proof {
            assert(self@ =~= m.push((name@, Seq::empty())));
            lemma_find_key_at(self@, name@, i as int);
        }
        i
    }

    /// Stores `key = value` in section `name` (see [`put_entry`]).
    pub fn put(&mut self, name: &String, key: String, value: String)
        ensures
            final(self)@ == put_entry(old(self)@, name@, key@, value@),
    {
        let i = self.section_index(name);
        let ghost s2 = self@;
        let ghost kv = key@;
        let ghost vv = value@;
        let ghost vec_before = self.sections@;
        let mut sec = self.sections.remove(i);
        assert(sec.entries_model() == entries_view(sec.entries@));
        entries_put(&mut sec.entries, key, value);
        let ghost new_sec = sec;
        self.sections.insert(i, sec);
        assert(self.sections@ =~= vec_before.update(i as int, new_sec));
        proof {
            lemma_find_key(s2, name@);
            assert(vec_before[i as int].model() == s2[i as int]);
            assert(new_sec.entries_model() =~= entries_view(new_sec.entries@));
        }
        assert(new_sec.model() == (name@, assoc_put(s2[i as int].1, kv, vv)));
        assert(self@ =~= s2.update(i as int, (name@, assoc_put(s2[i as int].1, kv, vv))));
    }

    /// Appends `extra` to the value of `key` in section `name` (see
    /// [`extend_entry`]).
    pub fn extend(&mut self, name: &String, key: &String, extra: &str)
        ensures
            final(self)@ == extend_entry(old(self)@, name@, key@, extra@),
    {
        let ghost m = self@;
        let i = self.section_index(name);
        let ghost s2 = self@;
        let ghost vec_before = self.sections@;
        let mut sec = self.sections.remove(i);
        assert(sec.entries_model() == entries_view(sec.entries@));
        entries_extend(&mut sec.entries, key, extra);
        let ghost new_sec = sec;
        self.sections.insert(i, sec);
        assert(self.sections@ =~= vec_before.update(i as int, new_sec));
        proof {
            lemma_find_key(s2, name@);
            assert(vec_before[i as int].model() == s2[i as int]);
            assert(new_sec.entries_model() =~= entries_view(new_sec.entries@));
            assert(ensure_section(s2, name@) == s2);
        }
        assert(self@ =~= extend_entry(s2, name@, key@, extra@));
    }
}

/// Reads one line into the reader's state (see [`ini_step`]).
fn ini_line(ini: &mut Ini, section: &mut String, key: &mut Option<String>, line: &Vec<char>)
    ensures
        (IniState { sections: final(ini)@, section: final(section)@, key: opt_view(*final(key)) })
            == ini_step(
            IniState { sections: old(ini)@, section: old(section)@, key: opt_view(*old(key)) },
            line@,
        ),
{
    let ghost st = IniState { sections: ini@, section: section@, key: opt_view(*key) };
    if line.len() > 0 && line[0] == '[' {
        match find_char_index(line.as_slice(), ']') {
            Some(end) => {
                proof {
                    lemma_find_char_from(line@, ']', 0);
                }
                let inner = slice_chars(line.as_slice(), 1, end);
                let t = trim_chars(inner.as_slice());
                let low = lowercase_chars(t.as_slice());
                *section = string_of(low.as_slice());
                *key = None;
            },
            None => {},
        }
    } else if line.len() > 0 && is_whitespace(line[0]) {
        match key {
            Some(k) => {
                let t = trim_chars(line.as_slice());
                let mut extra: Vec<char> = Vec::new();
                extra.push('\n');
                let mut j: usize = 0;
                while j < t.len()
                    invariant
                        j <= t@.len(),
                        extra@ == seq!['\n'] + t@.take(j as int),
                    decreases t@.len() - j,
                {
                    extra.push(t[j]);
                    j = j + 1;
                    assert(extra@ =~= seq!['\n'] + t@.take(j as int));
                }
                assert(t@.take(t@.len() as int) =~= t@);
                let extra_s = string_of(extra.as_slice());
                ini.extend(section, k, extra_s.as_str());
            },
            None => {},
        }
    } else {
        match find_char_index(line.as_slice(), '=') {
            Some(eq) => {
                proof {
                    lemma_find_char_from(line@, '=', 0);
                }
                let before = slice_chars(line.as_slice(), 0, eq);
                let kt = trim_chars(before.as_slice());
                let kl = lowercase_chars(kt.as_slice());
                let k = string_of(kl.as_slice());
                let after = slice_chars(line.as_slice(), eq + 1, line.len());
                let vt = trim_chars(after.as_slice());
                let v = string_of(vt.as_slice());
                assert(before@ =~= line@.take(eq as int));
                assert(after@ =~= line@.skip(eq + 1));
                let k2 = k.clone();
                ini.put(section, k, v);
                *key = Some(k2);
            },
            None => {},
        }
    }
}

/// Reads the sections of an INI text: see [`ini_step`] for what each line
/// does. Keys that come before any section header belong to the section
/// with the empty name.
pub fn parse_ini(content: &str) -> (r: Ini)
    ensures
        r@ == ini_of(content@),
{
    let chars = chars_of(content);
    let ls = lines_of(chars.as_slice());
    let mut ini = Ini { sections: Vec::new() };
    let mut section = String::new();
    let mut key: Option<String> = None;
    assert(ini@ =~= Seq::empty());
    assert(views(ls@).take(0) =~= Seq::<Seq<char>>::empty());
    let mut i: usize = 0;
    while i < ls.len()
        invariant
            views(ls@) == lines(content@),
            i <= ls@.len(),
            ini_run(views(ls@).take(i as int)) == (IniState {
                sections: ini@,
                section: section@,
                key: opt_view(key),
            }),
        decreases ls@.len() - i,
    {
        assert(views(ls@).take(i + 1).drop_last() =~= views(ls@).take(i as int));
        assert(views(ls@).take(i + 1).last() == ls@[i as int]@);
        ini_line(&mut ini, &mut section, &mut key, &ls[i]);
        i = i + 1;
    }
    assert(views(ls@).take(ls@.len() as int) =~= views(ls@));
    ini
}

impl Ini {
    /// Where the section `name` is.
    pub fn section_position(&self, name: &str) -> (r: Option<usize>)
        ensures
            r matches Some(i) ==> find_key(self@, name@) == Some(i as int) && i < self@.len(),
            r is None ==> find_key(self@, name@) is None,
    {
        let n = name.to_owned();
        let mut i: usize = 0;
        while i < self.sections.len()
            invariant
                n@ == name@,
                i <= self@.len(),
                forall|j: int| 0 <= j < i ==> self@[j].0 != name@,
            decreases self@.len() - i,
        {
            if self.sections[i].name == n {
                proof {
                    lemma_find_key_at(self@, name@, i as int);
                }
                return Some(i);
            }
            i = i + 1;
        }
        proof {
            lemma_find_key_absent(self@, name@);
        }
        None
    }

    /// Whether there is a section called `name`.
    pub fn has_section(&self, name: &str) -> (r: bool)
        ensures
            r == lookup(self@, name@) is Some,
    {
        self.section_position(name).is_some()
    }

    /// How many entries the section `name` has, if there is one.
    pub fn section_len(&self, name: &str) -> (r: Option<usize>)
        ensures
            r matches Some(n) ==> lookup(self@, name@) matches Some(e) && e.len() == n,
            r is None ==> lookup(self@, name@) is None,
    {
        match self.section_position(name) {
            Some(i) => Some(self.sections[i].entries.len()),
            None => None,
        }
    }

    /// The value of `key` in section `section` (see [`ini_get`]).
    pub fn get(&self, section: &str, key: &str) -> (r: Option<String>)
        ensures
            opt_view(r) == ini_get(self@, section@, key@),
    {
        match self.section_position(section) {
            Some(i) => {
                let entries = &self.sections[i].entries;
                let ghost em = self@[i as int].1;
                assert(em =~= entries_view(entries@));
                let k = key.to_owned();
                let mut j: usize = 0;
                while j < entries.len()
                    invariant
                        k@ == key@,
                        em == entries_view(entries@),
                        ini_get(self@, section@, key@) == lookup(em, key@),
                        j <= em.len(),
                        forall|x: int| 0 <= x < j ==> em[x].0 != key@,
                    decreases em.len() - j,
                {
                    if entries[j].key == k {
                        proof {
                            lemma_find_key_at(em, key@, j as int);
                        }
                        return Some(entries[j].value.clone());
                    }
                    j = j + 1;
                }
                proof {
                    lemma_find_key_absent(em, key@);
                }
                None
            },
            None => None,
        }
    }
}

} // verus!
