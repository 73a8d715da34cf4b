//! The order of strings (`Ord for String`: lexicographic by code point,
//! which is the order of their UTF-8 bytes) and sorting by it.

use vstd::prelude::*;

use crate::precommit::string_views;
use crate::text::chars_of;

verus! {

broadcast use vstd::seq_lib::group_to_multiset_ensures;

/// `a` comes strictly before `b`: at the first position where they differ
/// `a` has the smaller character, or `a` is a proper prefix of `b`.
pub open spec fn lex_lt(a: Seq<char>, b: Seq<char>) -> bool
    decreases a.len(),
{
    if a.len() == 0 {
        b.len() > 0
    } else if b.len() == 0 {
        false
    } else if a[0] != b[0] {
        a[0] < b[0]
    } else {
        lex_lt(a.drop_first(), b.drop_first())
    }
}

/// `a` comes before `b` or equals it.
pub open spec fn lex_le(a: Seq<char>, b: Seq<char>) -> bool {
    a == b || lex_lt(a, b)
}

pub proof fn lemma_lex_irreflexive(a: Seq<char>)
    ensures
        !lex_lt(a, a),
    decreases a.len(),
{
    if a.len() > 0 {
        lemma_lex_irreflexive(a.drop_first());
    }
}

pub proof fn lemma_lex_asymmetric(a: Seq<char>, b: Seq<char>)
    ensures
        !(lex_lt(a, b) && lex_lt(b, a)),
    decreases a.len(),
{
    if a.len() > 0 && b.len() > 0 && a[0] == b[0] {
        lemma_lex_asymmetric(a.drop_first(), b.drop_first());
    }
}

pub proof fn lemma_lex_transitive(a: Seq<char>, b: Seq<char>, c: Seq<char>)
    requires
        lex_lt(a, b),
        lex_lt(b, c),
    ensures
        lex_lt(a, c),
    decreases a.len(),
{
    if a.len() > 0 && b.len() > 0 && c.len() > 0 && a[0] == b[0] && b[0] == c[0] {
        lemma_lex_transitive(a.drop_first(), b.drop_first(), c.drop_first());
    }
}

pub proof fn lemma_lex_total(a: Seq<char>, b: Seq<char>)
    ensures
        a == b || lex_lt(a, b) || lex_lt(b, a),
    decreases a.len(),
{
    if a.len() > 0 && b.len() > 0 && a[0] == b[0] {
        lemma_lex_total(a.drop_first(), b.drop_first());
        if a.drop_first() == b.drop_first() {
            assert(a =~= seq![a[0]] + a.drop_first());
            assert(b =~= seq![b[0]] + b.drop_first());
        }
    } else if a.len() == 0 && b.len() == 0 {
        assert(a =~= b);
    }
}

pub proof fn lemma_lex_le_transitive(a: Seq<char>, b: Seq<char>, c: Seq<char>)
    requires
        lex_le(a, b),
        lex_le(b, c),
    ensures
        lex_le(a, c),
{
    if lex_lt(a, b) && lex_lt(b, c) {
        lemma_lex_transitive(a, b, c);
    }
}

/// Every element comes before or equals every later one.
pub open spec fn sorted(s: Seq<Seq<char>>) -> bool {
    forall|i: int, j: int| 0 <= i < j < s.len() ==> lex_le(#[trigger] s[i], #[trigger] s[j])
}

/// The first index at or after `i` whose element does not come before `x`.
pub open spec fn insert_pos(s: Seq<Seq<char>>, x: Seq<char>, i: int) -> int
    decreases s.len() - i,
{
    if i < 0 || i >= s.len() {
        i
    } else if lex_le(x, s[i]) {
        i
    } else {
        insert_pos(s, x, i + 1)
    }
}

/// `s` with `x` placed before the first element that it does not follow.
pub open spec fn insert_sorted(s: Seq<Seq<char>>, x: Seq<char>) -> Seq<Seq<char>> {
    s.insert(insert_pos(s, x, 0), x)
}

/// `s` sorted by insertion, element by element from the front.
pub open spec fn sort_seq(s: Seq<Seq<char>>) -> Seq<Seq<char>>
    decreases s.len(),
{
    if s.len() == 0 {
        s
    } else {
        insert_sorted(sort_seq(s.drop_last()), s.last())
    }
}

pub proof fn lemma_insert_pos(s: Seq<Seq<char>>, x: Seq<char>, i: int)
    requires
        0 <= i <= s.len(),
    ensures
        i <= insert_pos(s, x, i) <= s.len(),
        forall|j: int| i <= j < insert_pos(s, x, i) ==> !lex_le(x, #[trigger] s[j]),
        insert_pos(s, x, i) < s.len() ==> lex_le(x, s[insert_pos(s, x, i)]),
    decreases s.len() - i,
{
    if i < s.len() && !lex_le(x, s[i]) {
        lemma_insert_pos(s, x, i + 1);
    }
}

pub proof fn lemma_insert_sorted(s: Seq<Seq<char>>, x: Seq<char>)
    requires
        sorted(s),
    ensures
        sorted(insert_sorted(s, x)),
        insert_sorted(s, x).to_multiset() == s.to_multiset().insert(x),
{
    let k = insert_pos(s, x, 0);
    lemma_insert_pos(s, x, 0);
    let t = insert_sorted(s, x);
    assert forall|i: int, j: int| 0 <= i < j < t.len() implies lex_le(
        #[trigger] t[i],
        #[trigger] t[j],
    ) by {
        if i < k && j == k {
            lemma_lex_total(x, s[i]);
        } else if i < k && j > k {
            lemma_lex_total(x, s[i]);
            assert(lex_lt(s[i], x));
            assert(lex_le(s[i], s[j - 1]));
        } else if i == k && j > k {
            lemma_lex_le_transitive(x, s[k], s[j - 1]);
        } else if i > k {
            assert(t[i] == s[i - 1] && t[j] == s[j - 1]);
        }
    }
}

/// Sorting gives the same strings, as often as before, in ascending order.
pub proof fn lemma_sort_seq(s: Seq<Seq<char>>)
    ensures
        sorted(sort_seq(s)),
        sort_seq(s).to_multiset() == s.to_multiset(),
        sort_seq(s).len() == s.len(),
    decreases s.len(),
{
    if s.len() > 0 {
        lemma_sort_seq(s.drop_last());
        lemma_insert_sorted(sort_seq(s.drop_last()), s.last());
        assert(s =~= s.drop_last().push(s.last()));
        lemma_insert_pos(sort_seq(s.drop_last()), s.last(), 0);
    }
}

/// Two sorted sequences with the same elements are equal.
pub proof fn lemma_sorted_unique(a: Seq<Seq<char>>, b: Seq<Seq<char>>)
    requires
        sorted(a),
        sorted(b),
        a.to_multiset() == b.to_multiset(),
    ensures
        a == b,
    decreases a.len(),
{
    vstd::seq_lib::to_multiset_len(a);
    vstd::seq_lib::to_multiset_len(b);
    if a.len() > 0 {
        assert(a.contains(a[0]));
        assert(b.contains(b[0]));
        vstd::seq_lib::to_multiset_contains(a, b[0]);
        vstd::seq_lib::to_multiset_contains(b, a[0]);
        let i = choose|i: int| 0 <= i < b.len() && b[i] == a[0];
        let j = choose|j: int| 0 <= j < a.len() && a[j] == b[0];
        assert(lex_le(b[0], a[0])) by {
            if i > 0 {
                assert(lex_le(b[0], b[i]));
            }
        }
        assert(lex_le(a[0], b[0])) by {
            if j > 0 {
                assert(lex_le(a[0], a[j]));
            }
        }
        lemma_lex_asymmetric(a[0], b[0]);
        assert(a[0] == b[0]);
        vstd::seq_lib::to_multiset_remove(a, 0);
        vstd::seq_lib::to_multiset_remove(b, 0);
        assert(a.remove(0) =~= a.drop_first());
        assert(b.remove(0) =~= b.drop_first());
        assert(sorted(a.drop_first())) by {
            assert forall|x: int, y: int| 0 <= x < y < a.drop_first().len() implies lex_le(
                #[trigger] a.drop_first()[x],
                #[trigger] a.drop_first()[y],
            ) by {
                assert(lex_le(a[x + 1], a[y + 1]));
            }
        }
        assert(sorted(b.drop_first())) by {
            assert forall|x: int, y: int| 0 <= x < y < b.drop_first().len() implies lex_le(
                #[trigger] b.drop_first()[x],
                #[trigger] b.drop_first()[y],
            ) by {
                assert(lex_le(b[x + 1], b[y + 1]));
            }
        }
        lemma_sorted_unique(a.drop_first(), b.drop_first());
        assert forall|k: int| 0 <= k < a.len() implies a[k] == b[k] by {
            if k > 0 {
                assert(a[k] == a.drop_first()[k - 1]);
                assert(b[k] == b.drop_first()[k - 1]);
            }
        }
        assert(a =~= b);
    } else {
        assert(a =~= b);
    }
}

/// Sorting depends only on which strings there are and how often: any two
/// orderings of the same strings sort to the same sequence.
pub proof fn lemma_sort_seq_permutation(a: Seq<Seq<char>>, b: Seq<Seq<char>>)
    requires
        a.to_multiset() == b.to_multiset(),
    ensures
        sort_seq(a) == sort_seq(b),
{
    lemma_sort_seq(a);
    lemma_sort_seq(b);
    lemma_sorted_unique(sort_seq(a), sort_seq(b));
}

/// Executable form of [`lex_lt`].
pub fn lex_lt_chars(a: &[char], b: &[char]) -> (r: bool)
    ensures
        r == lex_lt(a@, b@),
{
    let mut i: usize = 0;
    assert(a@.skip(0) =~= a@);
    assert(b@.skip(0) =~= b@);
    while i < a.len() && i < b.len() && a[i] == b[i]
        invariant
            i <= a@.len(),
            i <= b@.len(),
            lex_lt(a@, b@) == lex_lt(a@.skip(i as int), b@.skip(i as int)),
        decreases a@.len() - i,
    {
        assert(a@.skip(i as int).drop_first() =~= a@.skip(i + 1));
        assert(b@.skip(i as int).drop_first() =~= b@.skip(i + 1));
        i = i + 1;
    }
    if i == a.len() {
        i < b.len()
    } else if i == b.len() {
        false
    } else {
        a[i] < b[i]
    }
}

/// `v` sorted in ascending order (see [`sort_seq`]).
pub fn sort_strings(v: &[String]) -> (r: Vec<String>)
    ensures
        string_views(r@) == sort_seq(string_views(v@)),
{
    let mut out: Vec<String> = Vec::new();
    let mut keys: Vec<Vec<char>> = Vec::new();
    let mut i: usize = 0;
    while i < v.len()
        invariant
            i <= v@.len(),
            keys@.len() == out@.len(),
            forall|j: int| 0 <= j < keys@.len() ==> #[trigger] keys@[j]@ == out@[j]@,
            string_views(out@) == sort_seq(string_views(v@).take(i as int)),
        decreases v@.len() - i,
    {
        let ghost sv = string_views(v@);
        let ghost cur = string_views(out@);
        assert(sv.take(i + 1).drop_last() =~= sv.take(i as int));
        let x = chars_of(v[i].as_str());
        let mut k: usize = 0;
        while k < keys.len() && lex_lt_chars(keys[k].as_slice(), x.as_slice())
            invariant
                k <= keys@.len(),
                keys@.len() == cur.len(),
                forall|j: int| 0 <= j < keys@.len() ==> #[trigger] keys@[j]@ == cur[j],
                insert_pos(cur, x@, 0) == insert_pos(cur, x@, k as int),
            decreases keys@.len() - k,
        {
            proof {
                lemma_lex_asymmetric(cur[k as int], x@);
                lemma_lex_irreflexive(x@);
            }
            k = k + 1;
        }
        proof {
            if k < keys@.len() {
                lemma_lex_total(cur[k as int], x@);
            }
        }
        let s = v[i].clone();
        let ghost keys_before = keys@;
        let ghost out_before = out@;
        out.insert(k, s);
        keys.insert(k, x);
        i = i + 1;
        assert(string_views(out@) =~= cur.insert(k as int, sv[i - 1]));
        assert forall|j: int| 0 <= j < keys@.len() implies #[trigger] keys@[j]@ == out@[j]@ by {
            if j < k {
                assert(keys@[j] == keys_before[j]);
                assert(out@[j] == out_before[j]);
            } else if j > k {
                assert(keys@[j] == keys_before[j - 1]);
                assert(out@[j] == out_before[j - 1]);
            }
        }
    }
    assert(string_views(v@).take(v@.len() as int) =~= string_views(v@));
    out
}

} // verus!
