//! What rewriting preserves: every line of a configuration outside the old
//! blocks that it replaces comes back unchanged and in its order.

use vstd::prelude::*;

use crate::precommit::{
    first_eol, flush, in_old_block, lemma_leave_extends, leave_hook, normal_step, rewrite_run,
    rewrite_step, rewritten_lines, significant, RewriteState,
};
use crate::text::{indent_of, raw_lines};

verus! {

/// `a` is a subsequence of `b`: `b` holds the lines of `a` in their order,
/// with possibly other lines between them.
pub open spec fn is_subseq(a: Seq<Seq<char>>, b: Seq<Seq<char>>) -> bool
    decreases b.len(),
{
    if a.len() == 0 {
        true
    } else if b.len() == 0 {
        false
    } else if a.last() == b.last() {
        is_subseq(a.drop_last(), b.drop_last())
    } else {
        is_subseq(a, b.drop_last())
    }
}

proof fn lemma_subseq_drop(a: Seq<Seq<char>>, b: Seq<Seq<char>>)
    requires
        a.len() > 0,
        is_subseq(a, b),
    ensures
        is_subseq(a.drop_last(), b),
    decreases b.len(),
{
    let a1 = a.drop_last();
    let b1 = b.drop_last();
    if a.last() == b.last() {
        if a1.len() > 0 && a1.last() == b.last() {
            lemma_subseq_drop(a1, b1);
        }
    } else {
        if a1.len() > 0 {
            lemma_subseq_drop(a, b1);
            if a1.last() == b.last() {
                lemma_subseq_drop(a1, b1);
            }
        }
    }
}

proof fn lemma_subseq_push_right(a: Seq<Seq<char>>, b: Seq<Seq<char>>, x: Seq<char>)
    requires
        is_subseq(a, b),
    ensures
        is_subseq(a, b.push(x)),
{
    assert(b.push(x).drop_last() =~= b);
    if a.len() > 0 && a.last() == x {
        lemma_subseq_drop(a, b);
    }
}

proof fn lemma_subseq_push_both(a: Seq<Seq<char>>, b: Seq<Seq<char>>, x: Seq<char>)
    requires
        is_subseq(a, b),
    ensures
        is_subseq(a.push(x), b.push(x)),
{
    assert(a.push(x).drop_last() =~= a);
    assert(b.push(x).drop_last() =~= b);
}

proof fn lemma_subseq_append_right(a: Seq<Seq<char>>, b: Seq<Seq<char>>, c: Seq<Seq<char>>)
    requires
        is_subseq(a, b),
    ensures
        is_subseq(a, b + c),
    decreases c.len(),
{
    if c.len() == 0 {
        assert(b + c =~= b);
    } else {
        lemma_subseq_append_right(a, b, c.drop_last());
        lemma_subseq_push_right(a, b + c.drop_last(), c.last());
        assert((b + c.drop_last()).push(c.last()) =~= b + c);
    }
}

proof fn lemma_subseq_append_both(a: Seq<Seq<char>>, b: Seq<Seq<char>>, c: Seq<Seq<char>>)
    requires
        is_subseq(a, b),
    ensures
        is_subseq(a + c, b + c),
    decreases c.len(),
{
    if c.len() == 0 {
        assert(a + c =~= a);
        assert(b + c =~= b);
    } else {
        lemma_subseq_append_both(a, b, c.drop_last());
        lemma_subseq_push_both(a + c.drop_last(), b + c.drop_last(), c.last());
        assert((a + c.drop_last()).push(c.last()) =~= a + c);
        assert((b + c.drop_last()).push(c.last()) =~= b + c);
    }
}

/// The rewriter's state before line `k`.
pub open spec fn state_at(ls: Seq<Seq<char>>, deps: Seq<Seq<char>>, eol: Seq<char>, k: int) -> RewriteState {
    rewrite_run(ls.take(k), deps, eol)
}

/// The first significant line at or after `j`, or the number of lines.
pub open spec fn next_significant(ls: Seq<Seq<char>>, j: int) -> int
    decreases ls.len() - j,
{
    if j < 0 || j >= ls.len() {
        ls.len() as int
    } else if significant(ls[j]) {
        j
    } else {
        next_significant(ls, j + 1)
    }
}

/// Line `k` is the `additional_dependencies:` key of a typing hook, which
/// the new block replaces.
pub open spec fn is_replaced_key(ls: Seq<Seq<char>>, deps: Seq<Seq<char>>, eol: Seq<char>, k: int) -> bool {
    let st = state_at(ls, deps, eol, k);
    &&& !(st.skipping && (!significant(ls[k]) || in_old_block(st, ls[k])))
    &&& state_at(ls, deps, eol, k + 1).skipping
}

/// Line `k` belongs to a replaced block: a line of the block itself, or a
/// blank or comment line that the block goes on after.
pub open spec fn in_replaced_block(
    ls: Seq<Seq<char>>,
    deps: Seq<Seq<char>>,
    eol: Seq<char>,
    k: int,
) -> bool {
    let st = state_at(ls, deps, eol, k);
    st.skipping && if significant(ls[k]) {
        in_old_block(st, ls[k])
    } else {
        let j = next_significant(ls, k + 1);
        j < ls.len() && in_old_block(state_at(ls, deps, eol, j), ls[j])
    }
}

/// Line `k` lies outside every replaced block.
pub open spec fn outside_blocks(ls: Seq<Seq<char>>, deps: Seq<Seq<char>>, eol: Seq<char>, k: int) -> bool {
    !is_replaced_key(ls, deps, eol, k) && !in_replaced_block(ls, deps, eol, k)
}

/// The lines among the first `k` that lie outside every replaced block.
pub open spec fn outside_upto(ls: Seq<Seq<char>>, deps: Seq<Seq<char>>, eol: Seq<char>, k: int) -> Seq<
    Seq<char>,
>
    decreases k,
{
    if k <= 0 {
        Seq::empty()
    } else {
        outside_upto(ls, deps, eol, k - 1) + if outside_blocks(ls, deps, eol, k - 1) {
            seq![ls[k - 1]]
        } else {
            Seq::<Seq<char>>::empty()
        }
    }
}

proof fn lemma_next_significant(ls: Seq<Seq<char>>, a: int, b: int)
    requires
        0 <= a <= b <= ls.len(),
        forall|i: int| a <= i < b ==> !significant(#[trigger] ls[i]),
        b < ls.len() ==> significant(ls[b]),
    ensures
        next_significant(ls, a) == b,
    decreases b - a,
{
    if a < b {
        lemma_next_significant(ls, a + 1, b);
    }
}

/// The held lines read since line `a` are blank or comments, so the next
/// significant line after any of them is `b`.
proof fn lemma_held_next(ls: Seq<Seq<char>>, deps: Seq<Seq<char>>, eol: Seq<char>, a: int, i: int, b: int)
    requires
        0 <= a <= i < b <= ls.len(),
        forall|x: int|
            a <= x < b ==> (#[trigger] state_at(ls, deps, eol, x)).skipping
                && !significant(ls[x]),
        b < ls.len() ==> significant(ls[b]),
    ensures
        next_significant(ls, i + 1) == b,
{
    assert forall|x: int| i + 1 <= x < b implies !significant(#[trigger] ls[x]) by {
        assert(state_at(ls, deps, eol, x).skipping && !significant(ls[x]));
    }
    lemma_next_significant(ls, i + 1, b);
}

proof fn lemma_outside_range(
    ls: Seq<Seq<char>>,
    deps: Seq<Seq<char>>,
    eol: Seq<char>,
    a: int,
    b: int,
    kept: bool,
)
    requires
        0 <= a <= b <= ls.len(),
        forall|i: int| a <= i < b ==> #[trigger] outside_blocks(ls, deps, eol, i) == kept,
    ensures
        outside_upto(ls, deps, eol, b) == outside_upto(ls, deps, eol, a) + if kept {
            ls.subrange(a, b)
        } else {
            Seq::<Seq<char>>::empty()
        },
    decreases b - a,
{
    if a == b {
        assert(outside_upto(ls, deps, eol, a) + ls.subrange(a, b) =~= outside_upto(
            ls,
            deps,
            eol,
            a,
        ));
        assert(outside_upto(ls, deps, eol, a) + Seq::<Seq<char>>::empty() =~= outside_upto(
            ls,
            deps,
            eol,
            a,
        ));
    } else {
        lemma_outside_range(ls, deps, eol, a, b - 1, kept);
        assert(outside_blocks(ls, deps, eol, b - 1) == kept);
        if kept {
            assert(ls.subrange(a, b - 1) + seq![ls[b - 1]] =~= ls.subrange(a, b));
            assert(outside_upto(ls, deps, eol, a) + ls.subrange(a, b - 1) + seq![ls[b - 1]]
                =~= outside_upto(ls, deps, eol, a) + ls.subrange(a, b));
        } else {
            assert(outside_upto(ls, deps, eol, a) + Seq::<Seq<char>>::empty()
                + Seq::<Seq<char>>::empty() =~= outside_upto(ls, deps, eol, a)
                + Seq::<Seq<char>>::empty());
        }
    }
}

/// What holds before line `k`: the held lines are the last lines read, all
/// blank or comments read while a block was dropped; and the output holds
/// the lines outside replaced blocks that came before them.
pub open spec fn keep_invariant(ls: Seq<Seq<char>>, deps: Seq<Seq<char>>, eol: Seq<char>, k: int) -> bool {
    let st = state_at(ls, deps, eol, k);
    let p = st.pending.len() as int;
    &&& p <= k
    &&& st.pending == ls.subrange(k - p, k)
    &&& !st.skipping ==> p == 0
    &&& forall|i: int|
        k - p <= i < k ==> (#[trigger] state_at(ls, deps, eol, i)).skipping && !significant(ls[i])
    &&& is_subseq(outside_upto(ls, deps, eol, k - p), st.out)
}

#[verifier::rlimit(100)]
proof fn lemma_keep(ls: Seq<Seq<char>>, deps: Seq<Seq<char>>, eol: Seq<char>, k: int)
    requires
        0 <= k <= ls.len(),
    ensures
        keep_invariant(ls, deps, eol, k),
    decreases k,
{
    if k == 0 {
        assert(ls.take(0) =~= Seq::<Seq<char>>::empty());
        assert(ls.subrange(0, 0) =~= Seq::<Seq<char>>::empty());
    } else {
        let j = k - 1;
        lemma_keep(ls, deps, eol, j);
        let st = state_at(ls, deps, eol, j);
        let l = ls[j];
        let p = st.pending.len() as int;
        assert(ls.take(k).drop_last() =~= ls.take(j));
        assert(ls.take(k).last() == l);
        let s = state_at(ls, deps, eol, k);
        assert(s == rewrite_step(st, l, deps));
        let up = outside_upto(ls, deps, eol, j - p);
        if st.skipping && !significant(l) {
            assert(s.pending == st.pending.push(l));
            assert(ls.subrange(j - p, j).push(l) =~= ls.subrange(k - (p + 1), k));
            assert forall|i: int| k - (p + 1) <= i < k implies (#[trigger] state_at(
                ls,
                deps,
                eol,
                i,
            )).skipping && !significant(ls[i]) by {
                if i < j {
                }
            }
        } else if st.skipping && in_old_block(st, l) {
            assert(s.pending =~= Seq::<Seq<char>>::empty());
            assert(ls.subrange(k, k) =~= Seq::<Seq<char>>::empty());
            assert forall|i: int| j - p <= i < k implies #[trigger] outside_blocks(
                ls,
                deps,
                eol,
                i,
            ) == false by {
                if i < j {
                    assert(state_at(ls, deps, eol, i).skipping && !significant(ls[i]));
                    lemma_held_next(ls, deps, eol, j - p, i, j);
                    assert(in_replaced_block(ls, deps, eol, i));
                } else {
                    assert(in_replaced_block(ls, deps, eol, i));
                }
            }
            lemma_outside_range(ls, deps, eol, j - p, k, false);
            assert(up + Seq::<Seq<char>>::empty() =~= up);
        } else {
            let y = RewriteState { skipping: false, ..flush(st) };
            assert(s == normal_step(y, l, deps));
            assert(s.pending =~= Seq::<Seq<char>>::empty());
            assert(ls.subrange(k, k) =~= Seq::<Seq<char>>::empty());
            assert forall|i: int| j - p <= i < j implies #[trigger] outside_blocks(
                ls,
                deps,
                eol,
                i,
            ) == true by {
                assert(state_at(ls, deps, eol, i).skipping && !significant(ls[i]));
                assert(!is_replaced_key(ls, deps, eol, i));
                if st.skipping {
                    lemma_held_next(ls, deps, eol, j - p, i, j);
                    assert(!in_replaced_block(ls, deps, eol, i));
                }
            }
            lemma_outside_range(ls, deps, eol, j - p, j, true);
            let held = ls.subrange(j - p, j);
            assert(st.pending == held);
            lemma_subseq_append_both(up, st.out, held);
            assert(y.out == st.out + held);
            assert(!in_replaced_block(ls, deps, eol, j));
            let lv = significant(l) && (indent_of(l) as int) < y.field_indent;
            let st1 = if lv {
                leave_hook(y, deps)
            } else {
                y
            };
            let extra = st1.out.skip(y.out.len() as int);
            assert(st1.out =~= y.out + extra) by {
                if lv {
                    lemma_leave_extends(y, deps);
                }
            }
            lemma_subseq_append_right(up + held, y.out, extra);
            if s.skipping {
                assert(is_replaced_key(ls, deps, eol, j));
                assert(outside_upto(ls, deps, eol, k) == outside_upto(ls, deps, eol, j));
                let b = s.out.skip(st1.out.len() as int);
                assert(s.out =~= st1.out + b);
                lemma_subseq_append_right(up + held, st1.out, b);
            } else {
                assert(!is_replaced_key(ls, deps, eol, j));
                assert(outside_blocks(ls, deps, eol, j));
                assert(outside_upto(ls, deps, eol, k) == outside_upto(ls, deps, eol, j) + seq![l]);
                assert(s.out == st1.out.push(l));
                lemma_subseq_push_both(up + held, st1.out, l);
                assert((up + held).push(l) =~= up + held + seq![l]);
            }
        }
    }
}

/// Every line of the configuration outside the old blocks that it replaces
/// comes back unchanged and in its order: all lines but an old block's key,
/// its items, the lines indented deeper than its key, and the blank and
/// comment lines that the block goes on after. In particular every comment
/// and blank line outside those blocks is kept.
#[verifier::rlimit(40)]
pub proof fn law_lines_outside_blocks_are_kept(content: Seq<char>, deps: Seq<Seq<char>>)
    ensures
        is_subseq(
            outside_upto(
                raw_lines(content),
                deps,
                first_eol(content),
                raw_lines(content).len() as int,
            ),
            rewritten_lines(content, deps),
        ),
{
    let ls = raw_lines(content);
    let eol = first_eol(content);
    let n = ls.len() as int;
    lemma_keep(ls, deps, eol, n);
    let st = state_at(ls, deps, eol, n);
    assert(ls.take(n) =~= ls);
    let p = st.pending.len() as int;
    assert forall|i: int| n - p <= i < n implies #[trigger] outside_blocks(ls, deps, eol, i)
        == true by {
        assert(state_at(ls, deps, eol, i).skipping && !significant(ls[i]));
        assert(!is_replaced_key(ls, deps, eol, i));
        lemma_held_next(ls, deps, eol, n - p, i, n);
        assert(!in_replaced_block(ls, deps, eol, i));
    }
    lemma_outside_range(ls, deps, eol, n - p, n, true);
    let up = outside_upto(ls, deps, eol, n - p);
    lemma_subseq_append_both(up, st.out, st.pending);
    let f = flush(st);
    lemma_leave_extends(f, deps);
    let r = leave_hook(f, deps).out;
    let extra = r.skip(f.out.len() as int);
    assert(r =~= f.out + extra);
    lemma_subseq_append_right(up + st.pending, f.out, extra);
}

} // verus!
