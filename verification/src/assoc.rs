//! Association lists keyed by character sequences: the model of maps whose
//! entries keep the order in which their keys first arrived.

use vstd::prelude::*;

verus! {

/// The first index at or after `i` whose key is `k`.
pub open spec fn find_key_from<V>(l: Seq<(Seq<char>, V)>, k: Seq<char>, i: int) -> Option<int>
    decreases l.len() - i,
{
    if i < 0 || i >= l.len() {
        None
    } else if l[i].0 == k {
        Some(i)
    } else {
        find_key_from(l, k, i + 1)
    }
}

/// The index of the entry for key `k`.
pub open spec fn find_key<V>(l: Seq<(Seq<char>, V)>, k: Seq<char>) -> Option<int> {
    find_key_from(l, k, 0)
}

/// The value stored for key `k`.
pub open spec fn lookup<V>(l: Seq<(Seq<char>, V)>, k: Seq<char>) -> Option<V> {
    match find_key(l, k) {
        Some(i) => Some(l[i].1),
        None => None,
    }
}

/// `l` with the value for `k` set to `v`: in place when `k` is present,
/// appended otherwise.
pub open spec fn assoc_put<V>(l: Seq<(Seq<char>, V)>, k: Seq<char>, v: V) -> Seq<(Seq<char>, V)> {
    match find_key(l, k) {
        Some(i) => l.update(i, (k, v)),
        None => l.push((k, v)),
    }
}

/// No key occurs twice in `l`.
pub open spec fn keys_unique<V>(l: Seq<(Seq<char>, V)>) -> bool {
    forall|i: int, j: int| 0 <= i < l.len() && 0 <= j < l.len() && i != j ==> l[i].0 != l[j].0
}

pub proof fn lemma_find_key_from<V>(l: Seq<(Seq<char>, V)>, k: Seq<char>, i: int)
    requires
        0 <= i,
    ensures
        find_key_from(l, k, i) matches Some(r) ==> i <= r < l.len() && l[r].0 == k && forall|
            j: int,
        | i <= j < r ==> l[j].0 != k,
        find_key_from(l, k, i) is None ==> forall|j: int| i <= j < l.len() ==> l[j].0 != k,
    decreases l.len() - i,
{
    if i < l.len() && l[i].0 != k {
        lemma_find_key_from(l, k, i + 1);
    }
}

pub proof fn lemma_find_key<V>(l: Seq<(Seq<char>, V)>, k: Seq<char>)
    ensures
        find_key(l, k) matches Some(r) ==> 0 <= r < l.len() && l[r].0 == k && forall|j: int|
            0 <= j < r ==> l[j].0 != k,
        find_key(l, k) is None ==> forall|j: int| 0 <= j < l.len() ==> l[j].0 != k,
{
    lemma_find_key_from(l, k, 0);
}

/// The index found for a key is determined by where the key first occurs.
pub proof fn lemma_find_key_at<V>(l: Seq<(Seq<char>, V)>, k: Seq<char>, r: int)
    requires
        0 <= r < l.len(),
        l[r].0 == k,
        forall|j: int| 0 <= j < r ==> l[j].0 != k,
    ensures
        find_key(l, k) == Some(r),
{
    lemma_find_key(l, k);
    if let Some(x) = find_key(l, k) {
        if x < r {
            assert(l[x].0 != k);
        }
    }
}

pub proof fn lemma_find_key_absent<V>(l: Seq<(Seq<char>, V)>, k: Seq<char>)
    requires
        forall|j: int| 0 <= j < l.len() ==> l[j].0 != k,
    ensures
        find_key(l, k) is None,
{
    lemma_find_key(l, k);
}

/// Putting a key keeps keys unique and makes `lookup` return the new value.
pub proof fn lemma_assoc_put<V>(l: Seq<(Seq<char>, V)>, k: Seq<char>, v: V)
    requires
        keys_unique(l),
    ensures
        keys_unique(assoc_put(l, k, v)),
        lookup(assoc_put(l, k, v), k) == Some(v),
        forall|k2: Seq<char>| k2 != k ==> lookup(assoc_put(l, k, v), k2) == lookup(l, k2),
{
    let r = assoc_put(l, k, v);
    lemma_find_key(l, k);
    match find_key(l, k) {
        Some(i) => {
            lemma_find_key_at(r, k, i);
            assert forall|k2: Seq<char>| k2 != k implies lookup(r, k2) == lookup(l, k2) by {
                lemma_find_key(l, k2);
                lemma_find_key(r, k2);
                if let Some(x) = find_key(l, k2) {
                    lemma_find_key_at(r, k2, x);
                } else {
                    lemma_find_key_absent(r, k2);
                }
            }
        },
        None => {
            lemma_find_key_at(r, k, l.len() as int);
            assert forall|k2: Seq<char>| k2 != k implies lookup(r, k2) == lookup(l, k2) by {
                lemma_find_key(l, k2);
                if let Some(x) = find_key(l, k2) {
                    lemma_find_key_at(r, k2, x);
                } else {
                    lemma_find_key_absent(r, k2);
                }
            }
        },
    }
}

} // verus!
