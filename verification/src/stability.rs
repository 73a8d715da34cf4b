//! What rewriting keeps: a configuration that was rewritten once is left
//! as it is by a second rewrite with the same dependencies, so that a second
//! sync finds nothing to change, and a final newline is kept exactly when the
//! configuration had one.

use vstd::prelude::*;

use crate::order::{lemma_sort_seq, sort_seq};
use crate::precommit::{
    dep_line, deps_block, first_eol, flush, in_old_block, lemma_first_line_kept,
    lemma_flush_extends, lemma_leave_extends, lemma_prefix_trans, leave_hook, normal_step,
    rewrite_run, rewrite_start, rewrite_step, rewritten, rewritten_lines, significant,
    typing_hook, updated_config, RewriteState,
};
use crate::text::{
    ends_with_newline, free_of, indent_of, is_ws, join_lines, lemma_join_last, lemma_raw_lines,
    lemma_raw_lines_join, raw_lines, skip_ws_from, spaces, starts_with, trim_start, utf8_len,
};

verus! {

/// The state after reading `ls` from `st`.
pub open spec fn run_from(st: RewriteState, ls: Seq<Seq<char>>, deps: Seq<Seq<char>>) -> RewriteState
    decreases ls.len(),
{
    if ls.len() == 0 {
        st
    } else {
        rewrite_step(run_from(st, ls.drop_last(), deps), ls.last(), deps)
    }
}

proof fn lemma_run_from_start(ls: Seq<Seq<char>>, deps: Seq<Seq<char>>, eol: Seq<char>)
    ensures
        rewrite_run(ls, deps, eol) == run_from(rewrite_start(eol), ls, deps),
    decreases ls.len(),
{
    if ls.len() > 0 {
        lemma_run_from_start(ls.drop_last(), deps, eol);
    }
}

proof fn lemma_run_from_append(
    st: RewriteState,
    a: Seq<Seq<char>>,
    b: Seq<Seq<char>>,
    deps: Seq<Seq<char>>,
)
    ensures
        run_from(st, a + b, deps) == run_from(run_from(st, a, deps), b, deps),
    decreases b.len(),
{
    if b.len() == 0 {
        assert(a + b =~= a);
    } else {
        lemma_run_from_append(st, a, b.drop_last(), deps);
        assert((a + b).drop_last() =~= a + b.drop_last());
        assert((a + b).last() == b.last());
    }
}

proof fn lemma_run_from_one(st: RewriteState, l: Seq<char>, deps: Seq<Seq<char>>)
    ensures
        run_from(st, seq![l], deps) == rewrite_step(st, l, deps),
{
    assert(seq![l].drop_last() =~= Seq::<Seq<char>>::empty());
    assert(seq![l].last() == l);
    assert(run_from(st, seq![l].drop_last(), deps) == st);
}

proof fn lemma_spaces_prefix(n: int, r: Seq<char>, i: int)
    requires
        0 <= i <= n,
        r.len() > 0,
        !is_ws(r[0]),
    ensures
        skip_ws_from(spaces(n) + r, i) == n,
    decreases n - i,
{
    let s = spaces(n) + r;
    if i < n {
        assert(s[i] == ' ');
        lemma_spaces_prefix(n, r, i + 1);
    } else {
        assert(s[n] == r[0]);
    }
}

proof fn lemma_utf8_len_spaces(n: int)
    requires
        0 <= n,
    ensures
        utf8_len(spaces(n)) == n,
    decreases n,
{
    if n > 0 {
        lemma_utf8_len_spaces(n - 1);
        assert(spaces(n).drop_last() =~= spaces(n - 1));
        assert(spaces(n).last() == ' ');
    }
}

/// A line made of `n` spaces and then a non-blank text is indented by `n`
/// bytes, and trimming it leaves the text.
proof fn lemma_indented(n: int, r: Seq<char>)
    requires
        0 <= n,
        r.len() > 0,
        !is_ws(r[0]),
    ensures
        indent_of(spaces(n) + r) == n,
        trim_start(spaces(n) + r) == r,
{
    lemma_spaces_prefix(n, r, 0);
    assert((spaces(n) + r).take(n) =~= spaces(n));
    lemma_utf8_len_spaces(n);
    assert((spaces(n) + r).skip(n) =~= r);
}

/// What the text of the block's key and dashes consist of.
proof fn lemma_block_texts()
    ensures
        "additional_dependencies:"@.len() > 0,
        "additional_dependencies:"@[0] == 'a',
        free_of("additional_dependencies:"@, '\n'),
        "- "@ == seq!['-', ' '],
{
    reveal_strlit("additional_dependencies:");
    reveal_strlit("- ");
    assert("- "@ =~= seq!['-', ' ']);
}

/// The state in which the next line is handled outside a replaced block:
/// the held lines written, and no block being dropped.
pub open spec fn unskip(z: RewriteState) -> RewriteState {
    RewriteState { skipping: false, ..flush(z) }
}

/// The state once the current hook's block has replaced its key.
pub open spec fn after_block(z: RewriteState, deps: Seq<Seq<char>>) -> RewriteState {
    RewriteState {
        out: z.out + deps_block(z.field_indent, deps, z.eol),
        injected: true,
        skipping: true,
        ..z
    }
}

/// While a block is being replaced, its dependency lines are dropped.
proof fn lemma_skip_dep_lines(w: RewriteState, ds: Seq<Seq<char>>, deps: Seq<Seq<char>>)
    requires
        w.skipping,
        w.field_indent >= 0,
        w.pending.len() == 0,
    ensures
        run_from(w, ds.map_values(|d: Seq<char>| dep_line(w.field_indent, d, w.eol)), deps) == w,
    decreases ds.len(),
{
    if ds.len() > 0 {
        let dls = ds.map_values(|d: Seq<char>| dep_line(w.field_indent, d, w.eol));
        assert(dls.drop_last() =~= ds.drop_last().map_values(
            |d: Seq<char>| dep_line(w.field_indent, d, w.eol),
        ));
        lemma_skip_dep_lines(w, ds.drop_last(), deps);
        let d = ds.last();
        lemma_block_texts();
        let r = "- "@ + d + w.eol;
        assert(dep_line(w.field_indent, d, w.eol) =~= spaces(w.field_indent) + r);
        lemma_indented(w.field_indent, r);
        assert(r.take(2) =~= "- "@);
        assert(significant(dls.last()));
        assert(in_old_block(w, dls.last()));
        assert(w.pending =~= Seq::<Seq<char>>::empty());
    }
}

/// Reading the block for the current typing hook, written at its fields'
/// indentation, replaces the block by itself.
proof fn lemma_block_run(z: RewriteState, deps: Seq<Seq<char>>)
    requires
        z.hook_id is Some,
        typing_hook(z.repo_url, z.hook_id->0),
        z.field_indent >= 0,
    ensures
        run_from(z, deps_block(z.field_indent, deps, z.eol), deps) == after_block(unskip(z), deps),
{
    let fi = z.field_indent;
    let key = "additional_dependencies:"@;
    let header = spaces(fi) + key + z.eol;
    let b = deps_block(fi, deps, z.eol);
    lemma_block_texts();
    assert(header =~= spaces(fi) + (key + z.eol));
    lemma_indented(fi, key + z.eol);
    assert((key + z.eol).take(key.len() as int) =~= key);
    assert(starts_with(key + z.eol, key));
    assert(significant(header));
    assert(!in_old_block(z, header));
    let y = unskip(z);
    assert(normal_step(y, header, deps) == after_block(y, deps));
    assert(rewrite_step(z, header, deps) == after_block(y, deps));
    assert(b =~= seq![header] + deps.map_values(|d: Seq<char>| dep_line(fi, d, z.eol)));
    lemma_run_from_one(z, header, deps);
    lemma_run_from_append(
        z,
        seq![header],
        deps.map_values(|d: Seq<char>| dep_line(fi, d, z.eol)),
        deps,
    );
    lemma_skip_dep_lines(after_block(y, deps), deps, deps);
}

/// Lines none of which holds `c`.
pub open spec fn lines_free_of(ls: Seq<Seq<char>>, c: char) -> bool {
    forall|k: int| 0 <= k < ls.len() ==> free_of(#[trigger] ls[k], c)
}

proof fn lemma_concat_free(a: Seq<Seq<char>>, b: Seq<Seq<char>>)
    requires
        lines_free_of(a, '\n'),
        lines_free_of(b, '\n'),
    ensures
        lines_free_of(a + b, '\n'),
{
    assert forall|k: int| 0 <= k < (a + b).len() implies free_of(#[trigger] (a + b)[k], '\n') by {
        if k < a.len() {
            assert((a + b)[k] == a[k]);
        } else {
            assert((a + b)[k] == b[k - a.len()]);
        }
    }
}

proof fn lemma_push_free(a: Seq<Seq<char>>, l: Seq<char>)
    requires
        lines_free_of(a, '\n'),
        free_of(l, '\n'),
    ensures
        lines_free_of(a.push(l), '\n'),
{
    assert forall|k: int| 0 <= k < a.push(l).len() implies free_of(#[trigger] a.push(l)[k], '\n') by {
        if k < a.len() {
            assert(a.push(l)[k] == a[k]);
        }
    }
}

/// The block holds a line break only where a dependency or the line ending
/// does, and its last line is not empty.
proof fn lemma_block_free(fi: int, deps: Seq<Seq<char>>, eol: Seq<char>)
    requires
        fi >= 0,
        lines_free_of(deps, '\n'),
        free_of(eol, '\n'),
    ensures
        lines_free_of(deps_block(fi, deps, eol), '\n'),
        deps_block(fi, deps, eol).len() > 0,
        deps_block(fi, deps, eol).last().len() > 0,
{
    lemma_block_texts();
    let key = "additional_dependencies:"@;
    let b = deps_block(fi, deps, eol);
    assert forall|k: int| 0 <= k < b.len() implies free_of(#[trigger] b[k], '\n') by {
        if k == 0 {
            assert(b[0] == spaces(fi) + key + eol);
            assert forall|i: int| 0 <= i < b[0].len() implies b[0][i] != '\n' by {
                if i >= fi + key.len() {
                    assert(b[0][i] == eol[i - fi - key.len()]);
                } else if i >= fi {
                    assert(b[0][i] == key[i - fi]);
                }
            }
        } else {
            let d = deps[k - 1];
            assert(b[k] == dep_line(fi, d, eol));
            assert(free_of(d, '\n'));
            assert forall|i: int| 0 <= i < b[k].len() implies b[k][i] != '\n' by {
                if i >= fi + 2 + d.len() {
                    assert(b[k][i] == eol[i - fi - 2 - d.len()]);
                } else if i >= fi + 2 {
                    assert(b[k][i] == d[i - fi - 2]);
                } else if i >= fi {
                    assert(b[k][i] == "- "@[i - fi]);
                }
            }
        }
    }
    if deps.len() > 0 {
        assert(b.last() == dep_line(fi, deps.last(), eol));
    } else {
        assert(b.last() == spaces(fi) + key + eol);
    }
}

/// No line of `ls` is significant.
pub open spec fn all_insignificant(ls: Seq<Seq<char>>) -> bool {
    forall|k: int| 0 <= k < ls.len() ==> !significant(#[trigger] ls[k])
}

/// What holds of the state after each line of a configuration: no written
/// or held line holds `'\n'`; held lines are blank or comments and exist
/// only while a block is dropped, whose last line then ends the output; the
/// output with the held lines is not empty once a line was read, and ends
/// with a non-empty line when the last line read was not empty; and
/// rewriting the output so far reaches the same state, held lines aside.
pub open spec fn pass_invariant(st: RewriteState, done: Seq<Seq<char>>, deps: Seq<Seq<char>>) -> bool {
    &&& lines_free_of(st.out, '\n')
    &&& lines_free_of(st.pending, '\n')
    &&& all_insignificant(st.pending)
    &&& free_of(st.eol, '\n')
    &&& st.skipping ==> st.injected
    &&& st.skipping ==> st.out.len() > 0 && st.out.last().len() > 0
    &&& !st.skipping ==> st.pending.len() == 0
    &&& done.len() > 0 ==> (st.out + st.pending).len() > 0
    &&& done.len() > 0 && done.last().len() > 0 ==> (st.out + st.pending).last().len() > 0
    &&& st.field_indent >= 0
    &&& rewrite_run(st.out, deps, st.eol) == RewriteState { pending: Seq::empty(), ..st }
}

/// Reading from `x`, where rewriting `o` reaches `x`: rewriting `o + more`
/// reaches `run_from(x, more)`.
proof fn lemma_resume(
    o: Seq<Seq<char>>,
    x: RewriteState,
    more: Seq<Seq<char>>,
    deps: Seq<Seq<char>>,
    eol: Seq<char>,
)
    requires
        rewrite_run(o, deps, eol) == x,
    ensures
        rewrite_run(o + more, deps, eol) == run_from(x, more, deps),
{
    lemma_run_from_start(o + more, deps, eol);
    lemma_run_from_append(rewrite_start(eol), o, more, deps);
    lemma_run_from_start(o, deps, eol);
}

/// Blank and comment lines read while a block is dropped are held back.
proof fn lemma_replay(x: RewriteState, p: Seq<Seq<char>>, deps: Seq<Seq<char>>)
    requires
        x.skipping,
        all_insignificant(p),
    ensures
        run_from((RewriteState { pending: Seq::empty(), ..x }), p, deps) == (RewriteState {
            pending: p,
            ..x
        }),
    decreases p.len(),
{
    if p.len() == 0 {
        assert(p =~= Seq::<Seq<char>>::empty());
    } else {
        let q = p.drop_last();
        assert(all_insignificant(q)) by {
            assert forall|k: int| 0 <= k < q.len() implies !significant(#[trigger] q[k]) by {
                assert(q[k] == p[k]);
            }
        }
        lemma_replay(x, q, deps);
        assert(!significant(p[p.len() - 1]));
        assert(q.push(p.last()) =~= p);
    }
}

/// Rewriting the output and the held lines reaches the state itself.
proof fn lemma_read_flushed(x: RewriteState, deps: Seq<Seq<char>>)
    requires
        rewrite_run(x.out, deps, x.eol) == (RewriteState { pending: Seq::empty(), ..x }),
        x.skipping ==> all_insignificant(x.pending),
        !x.skipping ==> x.pending.len() == 0,
    ensures
        rewrite_run(x.out + x.pending, deps, x.eol) == x,
{
    let x0 = RewriteState { pending: Seq::empty(), ..x };
    lemma_resume(x.out, x0, x.pending, deps, x.eol);
    if x.skipping {
        lemma_replay(x, x.pending, deps);
    } else {
        assert(x.pending =~= Seq::<Seq<char>>::empty());
        assert(x0 == x);
    }
}

#[verifier::rlimit(80)]
proof fn lemma_pass(ls: Seq<Seq<char>>, deps: Seq<Seq<char>>, eol: Seq<char>)
    requires
        lines_free_of(ls, '\n'),
        lines_free_of(deps, '\n'),
        free_of(eol, '\n'),
    ensures
        pass_invariant(rewrite_run(ls, deps, eol), ls, deps),
        rewrite_run(ls, deps, eol).eol == eol,
    decreases ls.len(),
{
    if ls.len() == 0 {
        assert(rewrite_start(eol).out =~= Seq::<Seq<char>>::empty());
        assert(rewrite_run(Seq::<Seq<char>>::empty(), deps, eol) == rewrite_start(eol));
    } else {
        let p = ls.drop_last();
        let l = ls.last();
        assert(lines_free_of(p, '\n')) by {
            assert forall|k: int| 0 <= k < p.len() implies free_of(#[trigger] p[k], '\n') by {
                assert(p[k] == ls[k]);
            }
        }
        lemma_pass(p, deps, eol);
        let x = rewrite_run(p, deps, eol);
        assert(free_of(ls[ls.len() - 1], '\n'));
        let s = rewrite_step(x, l, deps);
        assert(rewrite_run(ls, deps, eol) == s);
        if x.skipping && !significant(l) {
            lemma_push_free(x.pending, l);
            assert(all_insignificant(x.pending.push(l))) by {
                assert forall|k: int| 0 <= k < x.pending.push(l).len() implies !significant(
                    #[trigger] x.pending.push(l)[k],
                ) by {
                    if k < x.pending.len() {
                        assert(x.pending.push(l)[k] == x.pending[k]);
                    }
                }
            }
            assert((s.out + s.pending).last() == l);
        } else if x.skipping && in_old_block(x, l) {
            assert(s.out + s.pending =~= s.out);
            assert(s.pending =~= Seq::<Seq<char>>::empty());
        } else {
            let y = unskip(x);
            lemma_read_flushed(x, deps);
            lemma_concat_free(x.out, x.pending);
            assert(y.pending =~= Seq::<Seq<char>>::empty());
            let lv = significant(l) && (indent_of(l) as int) < y.field_indent;
            let st1 = if lv {
                leave_hook(y, deps)
            } else {
                y
            };
            let inj = lv && y.hook_id is Some && !y.injected && typing_hook(
                y.repo_url,
                y.hook_id->0,
            );
            let t = trim_start(l);
            let key_case = significant(l) && t[0] != '-' && (indent_of(l) as int)
                == st1.field_indent && starts_with(t, "additional_dependencies:"@)
                && st1.hook_id is Some && typing_hook(st1.repo_url, st1.hook_id->0);
            assert(s == normal_step(y, l, deps));
            if key_case {
                assert(!lv);
                assert(s == after_block(y, deps));
                lemma_block_free(x.field_indent, deps, x.eol);
                let b = deps_block(x.field_indent, deps, x.eol);
                lemma_concat_free(y.out, b);
                lemma_resume(y.out, x, b, deps, eol);
                lemma_block_run(x, deps);
                assert(s.out.last() == b.last());
                assert(s.out + s.pending =~= s.out);
            } else if inj {
                assert(!x.skipping);
                assert(x.pending =~= Seq::<Seq<char>>::empty());
                assert(x.out + x.pending =~= x.out);
                assert(y == x);
                let b = deps_block(x.field_indent, deps, x.eol);
                lemma_block_free(x.field_indent, deps, x.eol);
                assert(st1.out == x.out + b);
                assert(s.out == (x.out + b).push(l));
                assert((x.out + b).push(l) =~= x.out + (b + seq![l]));
                lemma_push_free(b, l);
                assert(b.push(l) =~= b + seq![l]);
                lemma_concat_free(x.out, b + seq![l]);
                lemma_resume(x.out, x, b + seq![l], deps, eol);
                lemma_run_from_append(x, b, seq![l], deps);
                lemma_block_run(x, deps);
                let w = after_block(x, deps);
                assert(unskip(x) == x);
                lemma_run_from_one(w, l, deps);
                assert(!in_old_block(w, l));
                let w2 = unskip(w);
                assert(w.pending =~= Seq::<Seq<char>>::empty());
                assert(w2 == RewriteState { skipping: false, ..w });
                assert(leave_hook(w2, deps) == st1);
                assert(rewrite_step(w, l, deps) == normal_step(w2, l, deps));
                assert(normal_step(w2, l, deps) == s);
                assert(x.out + (b + seq![l]) == s.out);
                assert(s.out + s.pending =~= s.out);
            } else {
                assert(st1.out == y.out);
                assert(s.out == y.out.push(l));
                lemma_push_free(y.out, l);
                assert(y.out.push(l).drop_last() =~= y.out);
                assert(rewrite_run(y.out.push(l), deps, eol) == rewrite_step(x, l, deps));
                assert(s.out + s.pending =~= s.out);
            }
        }
    }
}

/// What rewriting `content` writes, and that reading it back reaches a state
/// that writes it again.
proof fn lemma_rewritten_shape(content: Seq<char>, deps: Seq<Seq<char>>)
    requires
        lines_free_of(deps, '\n'),
    ensures
        lines_free_of(rewritten_lines(content, deps), '\n'),
        content.len() > 0 ==> rewritten_lines(content, deps).len() > 0,
        content.len() > 0 && !ends_with_newline(content) ==> rewritten_lines(
            content,
            deps,
        ).last().len() > 0,
        content.len() == 0 ==> rewritten_lines(content, deps).len() == 0,
        content.len() > 0 ==> rewritten_lines(content, deps)[0] == raw_lines(content)[0],
        leave_hook(
            flush(rewrite_run(rewritten_lines(content, deps), deps, first_eol(content))),
            deps,
        ).out == rewritten_lines(content, deps),
{
    let ls = raw_lines(content);
    let eol = first_eol(content);
    lemma_raw_lines(content);
    assert(free_of(eol, '\n'));
    lemma_pass(ls, deps, eol);
    let s = rewrite_run(ls, deps, eol);
    let f = flush(s);
    let r = rewritten_lines(content, deps);
    assert(r == leave_hook(f, deps).out);
    if content.len() == 0 {
        assert(s == rewrite_start(eol));
        assert(r =~= Seq::<Seq<char>>::empty());
        assert(rewrite_run(r, deps, eol) == rewrite_start(eol));
        assert(flush(rewrite_start(eol)).out =~= r);
    } else {
        let inj = f.hook_id is Some && !f.injected && typing_hook(f.repo_url, f.hook_id->0);
        lemma_concat_free(s.out, s.pending);
        if inj {
            assert(!s.skipping);
            assert(s.pending =~= Seq::<Seq<char>>::empty());
            assert(s.out + s.pending =~= s.out);
            let b = deps_block(s.field_indent, deps, eol);
            lemma_block_free(s.field_indent, deps, eol);
            assert(r == s.out + b);
            lemma_concat_free(s.out, b);
            assert(RewriteState { pending: Seq::empty(), ..s } == s);
            lemma_resume(s.out, s, b, deps, eol);
            lemma_block_run(s, deps);
            assert(unskip(s) == s);
            let a = after_block(s, deps);
            assert(rewrite_run(r, deps, eol) == a);
            assert(a.out + a.pending =~= a.out);
            assert(flush(a) == a);
            assert(leave_hook(a, deps).out == r);
            assert(r.last() == b.last());
        } else {
            assert(r == s.out + s.pending);
            lemma_read_flushed(s, deps);
        }
        lemma_first_line_kept(ls, deps, eol);
        lemma_flush_extends(s);
        lemma_leave_extends(f, deps);
        lemma_prefix_trans(seq![ls[0]], s.out, f.out);
        lemma_prefix_trans(seq![ls[0]], f.out, r);
        assert(r.take(1)[0] == r[0]);
        assert(ls.last().len() > 0 || ends_with_newline(content));
    }
}

/// Rewriting a configuration a second time, with dependencies that hold no
/// `'\n'`, changes nothing: the blocks it wrote read back as the blocks it
/// would write, and every other line as itself.
pub proof fn law_rewrite_is_stable(content: Seq<char>, deps: Seq<Seq<char>>)
    requires
        lines_free_of(deps, '\n'),
    ensures
        rewritten(rewritten(content, deps), deps) == rewritten(content, deps),
{
    lemma_rewritten_shape(content, deps);
    let r = rewritten_lines(content, deps);
    let nl = if ends_with_newline(content) {
        seq!['\n']
    } else {
        Seq::<char>::empty()
    };
    let new = rewritten(content, deps);
    assert(new == join_lines(r) + nl);
    if content.len() == 0 {
        assert(r =~= Seq::<Seq<char>>::empty());
        assert(new =~= Seq::<char>::empty());
        lemma_raw_lines(new);
        assert(rewritten_lines(new, deps) =~= Seq::<Seq<char>>::empty()) by {
            assert(raw_lines(new).len() == 0);
            assert(raw_lines(new) =~= Seq::<Seq<char>>::empty());
            let e = first_eol(new);
            assert(rewrite_run(raw_lines(new), deps, e) == rewrite_start(e));
            assert(flush(rewrite_start(e)).out =~= Seq::<Seq<char>>::empty());
        }
    } else {
        lemma_raw_lines_join(r);
        if ends_with_newline(content) {
            assert(ends_with_newline(new));
        } else {
            assert(new =~= join_lines(r));
            lemma_join_last(r);
            assert(free_of(r[r.len() - 1], '\n'));
            assert(r.last()[r.last().len() - 1] == r.last().last());
            assert(!ends_with_newline(new));
        }
        assert(raw_lines(new) == r);
        assert(first_eol(new) == first_eol(content));
        assert(rewritten_lines(new, deps) == r);
    }
}

/// Rewriting keeps a final newline, and adds none: with dependencies that
/// hold no `'\n'`, the result ends with a newline exactly when the
/// configuration does.
pub proof fn law_rewrite_keeps_final_newline(content: Seq<char>, deps: Seq<Seq<char>>)
    requires
        lines_free_of(deps, '\n'),
    ensures
        ends_with_newline(rewritten(content, deps)) == ends_with_newline(content),
{
    lemma_rewritten_shape(content, deps);
    let r = rewritten_lines(content, deps);
    let new = rewritten(content, deps);
    if ends_with_newline(content) {
        assert(new.last() == '\n');
    } else if content.len() == 0 {
        assert(r =~= Seq::<Seq<char>>::empty());
        assert(new =~= Seq::<char>::empty());
    } else {
        assert(new =~= join_lines(r));
        lemma_join_last(r);
        assert(free_of(r[r.len() - 1], '\n'));
        assert(r.last()[r.last().len() - 1] == r.last().last());
    }
}

/// Sorting dependencies without `'\n'` gives dependencies without `'\n'`.
proof fn lemma_sorted_free(deps: Seq<Seq<char>>)
    requires
        lines_free_of(deps, '\n'),
    ensures
        lines_free_of(sort_seq(deps), '\n'),
{
    broadcast use vstd::seq_lib::group_to_multiset_ensures;

    lemma_sort_seq(deps);
    let t = sort_seq(deps);
    assert forall|k: int| 0 <= k < t.len() implies free_of(#[trigger] t[k], '\n') by {
        assert(t.contains(t[k]));
        assert(t.to_multiset().count(t[k]) > 0);
        assert(deps.contains(t[k]));
        let j = choose|j: int| 0 <= j < deps.len() && deps[j] == t[k];
        assert(free_of(deps[j], '\n'));
    }
}

/// Syncing is idempotent: once a configuration was updated with
/// dependencies that hold no `'\n'`, syncing the same dependencies again
/// finds nothing to change.
pub proof fn law_update_is_idempotent(content: Seq<char>, deps: Seq<Seq<char>>)
    requires
        lines_free_of(deps, '\n'),
    ensures
        updated_config(content, deps) matches Some(new) ==> updated_config(new, deps) is None,
{
    lemma_sorted_free(deps);
    law_rewrite_is_stable(content, sort_seq(deps));
}

} // verus!
