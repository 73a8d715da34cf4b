//! Rewriting the `additional_dependencies` of typing hooks in a pre-commit
//! configuration, line by line, so that comments and the layout of every
//! other line stay as they were.

use vstd::prelude::*;

use crate::error::SyncError;
use crate::order::{lemma_sort_seq_permutation, sort_seq, sort_strings};
use crate::yaml::{yaml_accepts, yaml_entry_is_sequence, yaml_entry_sequence};
use crate::text::{
    chars_eq, chars_of, concat, ends_with_newline, join_lines, contains_chars, contains_seq, indent_len, indent_of,
    lemma_raw_lines, raw_lines, raw_lines_of, slice_chars, spaces, spaces_of, starts_with, starts_with_chars, string_of,
    trim, trim_char, trim_char_chars, trim_chars, trim_start, trim_start_chars, views, opt_view,
};

verus! {

/// Whether a hook is a type checker whose environment needs the project's
/// dependencies: its id is `mypy`, `ty` or `pyright`, or its repository URL
/// names one of their pre-commit mirrors.
pub open spec fn typing_hook(repo_url: Seq<char>, hook_id: Seq<char>) -> bool {
    ||| hook_id == "mypy"@
    ||| hook_id == "ty"@
    ||| hook_id == "pyright"@
    ||| contains_seq(repo_url, "mirrors-mypy"@)
    ||| contains_seq(repo_url, "mirrors-ty"@)
    ||| contains_seq(repo_url, "mirrors-pyright"@)
}

/// [`typing_hook`] on character vectors.
pub fn typing_hook_chars(repo_url: &[char], hook_id: &[char]) -> (r: bool)
    ensures
        r == typing_hook(repo_url@, hook_id@),
{
    chars_eq(hook_id, chars_of("mypy").as_slice()) || chars_eq(hook_id, chars_of("ty").as_slice())
        || chars_eq(hook_id, chars_of("pyright").as_slice()) || contains_chars(
        repo_url,
        chars_of("mirrors-mypy").as_slice(),
    ) || contains_chars(repo_url, chars_of("mirrors-ty").as_slice()) || contains_chars(
        repo_url,
        chars_of("mirrors-pyright").as_slice(),
    )
}

/// Whether the hook `hook_id` of the repository at `repo_url` is a typing
/// hook (see [`typing_hook`]).
pub fn is_typing_hook(repo_url: &str, hook_id: &str) -> (r: bool)
    ensures
        r == typing_hook(repo_url@, hook_id@),
{
    let u = chars_of(repo_url);
    let h = chars_of(hook_id);
    typing_hook_chars(u.as_slice(), h.as_slice())
}

/// One dependency line of the block: `- dep` at the given indentation,
/// ended by `eol`.
pub open spec fn dep_line(indent: int, dep: Seq<char>, eol: Seq<char>) -> Seq<char> {
    spaces(indent) + "- "@ + dep + eol
}

/// The block written for a typing hook: the key at the given indentation,
/// then one `- dep` line per dependency at the same indentation; each line
/// is ended by `eol`.
pub open spec fn deps_block(indent: int, deps: Seq<Seq<char>>, eol: Seq<char>) -> Seq<Seq<char>> {
    seq![spaces(indent) + "additional_dependencies:"@ + eol] + deps.map_values(
        |d: Seq<char>| dep_line(indent, d, eol),
    )
}

/// A scalar as written after `repo:` or `id:`: trimmed, then without
/// surrounding double quotes, then without surrounding single quotes.
pub open spec fn unquote(s: Seq<char>) -> Seq<char> {
    trim_char(trim_char(trim(s), '"'), '\'')
}

/// What the rewriter knows between lines.
pub struct RewriteState {
    /// The lines written so far.
    pub out: Seq<Seq<char>>,
    /// The URL of the current repository.
    pub repo_url: Seq<char>,
    /// The id of the current hook.
    pub hook_id: Option<Seq<char>>,
    /// The indentation of the current hook's fields, in bytes: the column
    /// where the text after the dash of its `- id:` line starts.
    pub field_indent: int,
    /// Whether the current hook's block has been written.
    pub injected: bool,
    /// Whether the lines of a replaced block are being dropped.
    pub skipping: bool,
    /// The blank and comment lines met while dropping a replaced block: they
    /// are written when the block ends after them, and dropped with the block
    /// when it goes on.
    pub pending: Seq<Seq<char>>,
    /// What ends each line of a written block: `'\r'` in a file whose first
    /// line ends with `"\r\n"`, nothing otherwise.
    pub eol: Seq<char>,
}

pub open spec fn rewrite_start(eol: Seq<char>) -> RewriteState {
    RewriteState {
        out: Seq::empty(),
        repo_url: Seq::empty(),
        hook_id: None,
        field_indent: 0,
        injected: false,
        skipping: false,
        pending: Seq::empty(),
        eol: eol,
    }
}

/// Leaving the current hook: a typing hook that got no block yet gets one.
pub open spec fn leave_hook(st: RewriteState, deps: Seq<Seq<char>>) -> RewriteState {
    match st.hook_id {
        Some(id) => RewriteState {
            out: if !st.injected && typing_hook(st.repo_url, id) {
                st.out + deps_block(st.field_indent, deps, st.eol)
            } else {
                st.out
            },
            hook_id: None,
            injected: false,
            ..st
        },
        None => st,
    }
}

/// A line that is neither blank nor a comment.
pub open spec fn significant(line: Seq<char>) -> bool {
    let t = trim_start(line);
    t.len() > 0 && t[0] != '#'
}

/// How a line is handled outside a replaced block:
/// - a significant line less indented than the hook's fields leaves the hook;
/// - `- repo: url` sets the repository URL; `- id: name` starts a hook whose
///   fields sit where the text after the dash starts;
/// - the `additional_dependencies:` key of a typing hook is replaced by the
///   new block, and the old block's lines are dropped after it;
/// - every other line is kept as it is.
pub open spec fn normal_step(st: RewriteState, line: Seq<char>, deps: Seq<Seq<char>>) -> RewriteState {
    let t = trim_start(line);
    let ind = indent_of(line) as int;
    let st1 = if significant(line) && ind < st.field_indent {
        leave_hook(st, deps)
    } else {
        st
    };
    let kept = RewriteState { out: st1.out.push(line), ..st1 };
    if !significant(line) {
        kept
    } else if t[0] == '-' {
        let rest = trim_start(t.skip(1));
        if starts_with(rest, "repo:"@) {
            RewriteState { repo_url: unquote(rest.skip("repo:"@.len() as int)), ..kept }
        } else if starts_with(rest, "id:"@) {
            RewriteState {
                hook_id: Some(unquote(rest.skip("id:"@.len() as int))),
                field_indent: ind + 1 + indent_of(t.skip(1)),
                injected: false,
                ..kept
            }
        } else {
            kept
        }
    } else if ind == st1.field_indent && starts_with(t, "additional_dependencies:"@)
        && st1.hook_id is Some && typing_hook(st1.repo_url, st1.hook_id->0) {
        RewriteState {
            out: st1.out + deps_block(st1.field_indent, deps, st1.eol),
            injected: true,
            skipping: true,
            ..st1
        }
    } else {
        kept
    }
}

/// A significant line that belongs to the block being replaced: more
/// indented than the key, or a `- ` item at the key's indentation.
pub open spec fn in_old_block(st: RewriteState, line: Seq<char>) -> bool {
    let t = trim_start(line);
    let ind = indent_of(line) as int;
    ind > st.field_indent || (ind == st.field_indent && starts_with(t, "- "@))
}

/// The state with the held blank and comment lines written out.
pub open spec fn flush(st: RewriteState) -> RewriteState {
    RewriteState { out: st.out + st.pending, pending: Seq::empty(), ..st }
}

/// How one line changes the rewriter's state. While a replaced block is
/// being dropped, blank and comment lines are held back, and a line of the
/// block drops them with it; the first other line ends the block, and the
/// held lines are written before it is handled.
pub open spec fn rewrite_step(st: RewriteState, line: Seq<char>, deps: Seq<Seq<char>>) -> RewriteState {
    if st.skipping && !significant(line) {
        RewriteState { pending: st.pending.push(line), ..st }
    } else if st.skipping && in_old_block(st, line) {
        RewriteState { pending: Seq::empty(), ..st }
    } else {
        normal_step(RewriteState { skipping: false, ..flush(st) }, line, deps)
    }
}

/// The state after the lines `ls`, with blocks ended by `eol`.
pub open spec fn rewrite_run(ls: Seq<Seq<char>>, deps: Seq<Seq<char>>, eol: Seq<char>) -> RewriteState
    decreases ls.len(),
{
    if ls.len() == 0 {
        rewrite_start(eol)
    } else {
        rewrite_step(rewrite_run(ls.drop_last(), deps, eol), ls.last(), deps)
    }
}

/// What ends the lines written for blocks: `'\r'` when the first line of
/// `content` ends with `"\r\n"` (or is a last line ending with `'\r'`).
pub open spec fn first_eol(content: Seq<char>) -> Seq<char> {
    let ls = raw_lines(content);
    if ls.len() > 0 && ls[0].len() > 0 && ls[0].last() == '\r' {
        seq!['\r']
    } else {
        Seq::empty()
    }
}

/// The lines of the rewritten configuration: every line keeps its ending;
/// lines held back at the end of the file are written; a typing hook still
/// open at the end gets its block there.
pub open spec fn rewritten_lines(content: Seq<char>, deps: Seq<Seq<char>>) -> Seq<Seq<char>> {
    leave_hook(flush(rewrite_run(raw_lines(content), deps, first_eol(content))), deps).out
}

/// The rewritten configuration: its lines joined, with a final newline
/// exactly when `content` had one.
pub open spec fn rewritten(content: Seq<char>, deps: Seq<Seq<char>>) -> Seq<char> {
    join_lines(rewritten_lines(content, deps)) + if ends_with_newline(content) {
        seq!['\n']
    } else {
        Seq::<char>::empty()
    }
}

/// The views of a sequence of strings.
pub open spec fn string_views(v: Seq<String>) -> Seq<Seq<char>> {
    v.map_values(|s: String| s@)
}

/// Appends the block for `deps` at indentation `indent`, each line ended by
/// `eol` (see [`deps_block`]).
fn inject_lines(out: &mut Vec<Vec<char>>, indent: u128, deps: &Vec<Vec<char>>, eol: &Vec<char>)
    ensures
        views(final(out)@) == views(old(out)@) + deps_block(indent as int, views(deps@), eol@),
{
    let ghost start = views(out@);
    let prefix = spaces_of(indent);
    let key = chars_of("additional_dependencies:");
    let dash = chars_of("- ");
    let key_line = concat(prefix.as_slice(), key.as_slice());
    let header = concat(key_line.as_slice(), eol.as_slice());
    out.push(header);
    let item_prefix = concat(prefix.as_slice(), dash.as_slice());
    let ghost block = deps_block(indent as int, views(deps@), eol@);
    assert(views(out@) =~= start + block.take(1));
    let mut i: usize = 0;
    while i < deps.len()
        invariant
            i <= deps@.len(),
            block == deps_block(indent as int, views(deps@), eol@),
            item_prefix@ == spaces(indent as int) + "- "@,
            views(out@) == start + block.take(i + 1),
        decreases deps@.len() - i,
    {
        let item = concat(item_prefix.as_slice(), deps[i].as_slice());
        let line = concat(item.as_slice(), eol.as_slice());
        let ghost before = out@;
        out.push(line);
        assert(views(out@) =~= views(before).push(line@));
        i = i + 1;
        assert(block[i as int] == dep_line(indent as int, deps@[i - 1]@, eol@));
        assert(views(out@) =~= start + block.take(i + 1));
    }
    assert(block.take(deps@.len() + 1 as int) =~= block);
}

/// Appends to `out` the `additional_dependencies:` key at indentation
/// `indent`, then one `- dep` line per dependency at the same indentation.
pub fn inject_deps(out: &mut Vec<String>, indent: usize, sorted_deps: &[String])
    ensures
        string_views(final(out)@) == string_views(old(out)@) + deps_block(
            indent as int,
            string_views(sorted_deps@),
            Seq::empty(),
        ),
{
    let deps = strings_to_chars(sorted_deps);
    let mut lines: Vec<Vec<char>> = Vec::new();
    let no_eol: Vec<char> = Vec::new();
    inject_lines(&mut lines, indent as u128, &deps, &no_eol);
    assert(views(lines@) =~= deps_block(indent as int, string_views(sorted_deps@), Seq::empty()));
    let ghost start = string_views(out@);
    let mut i: usize = 0;
    while i < lines.len()
        invariant
            i <= lines@.len(),
            string_views(out@) == start + views(lines@).take(i as int),
        decreases lines@.len() - i,
    {
        let l = string_of(lines[i].as_slice());
        let ghost before = out@;
        out.push(l);
        assert(string_views(out@) =~= string_views(before).push(lines@[i as int]@));
        i = i + 1;
        assert(string_views(out@) =~= start + views(lines@).take(i as int));
    }
    assert(views(lines@).take(lines@.len() as int) =~= views(lines@));
}

/// The characters of each string.
pub fn strings_to_chars(v: &[String]) -> (r: Vec<Vec<char>>)
    ensures
        views(r@) == string_views(v@),
{
    let mut r: Vec<Vec<char>> = Vec::new();
    let mut i: usize = 0;
    while i < v.len()
        invariant
            i <= v@.len(),
            views(r@) == string_views(v@).take(i as int),
        decreases v@.len() - i,
    {
        let c = chars_of(v[i].as_str());
        let ghost before = r@;
        r.push(c);
        assert(views(r@) =~= views(before).push(v@[i as int]@));
        i = i + 1;
        assert(views(r@) =~= string_views(v@).take(i as int));
    }
    assert(string_views(v@).take(v@.len() as int) =~= string_views(v@));
    r
}

/// [`join_lines`] on character vectors.
pub fn join_chars(ls: &Vec<Vec<char>>) -> (r: Vec<char>)
    ensures
        r@ == join_lines(views(ls@)),
{
    let mut r: Vec<char> = Vec::new();
    let mut i: usize = 0;
    while i < ls.len()
        invariant
            i <= ls@.len(),
            r@ == join_lines(views(ls@).take(i as int)),
        decreases ls@.len() - i,
    {
        let ghost prev = r@;
        assert(views(ls@).take(i + 1).drop_last() =~= views(ls@).take(i as int));
        if i > 0 {
            r.push('\n');
        }
        let piece = concat(r.as_slice(), ls[i].as_slice());
        r = piece;
        i = i + 1;
        proof {
            if i == 1 {
                assert(r@ =~= ls@[0]@);
            } else {
                assert(r@ =~= prev + seq!['\n'] + ls@[i - 1]@);
            }
        }
    }
    assert(views(ls@).take(ls@.len() as int) =~= views(ls@));
    r
}

/// The rewriter's state in executable form.
struct Rewriter {
    out: Vec<Vec<char>>,
    repo_url: Vec<char>,
    hook_id: Option<Vec<char>>,
    field_indent: u128,
    injected: bool,
    skipping: bool,
    pending: Vec<Vec<char>>,
    eol: Vec<char>,
}

impl Rewriter {
    spec fn model(&self) -> RewriteState {
        RewriteState {
            out: views(self.out@),
            repo_url: self.repo_url@,
            hook_id: match self.hook_id {
                Some(h) => Some(h@),
                None => None,
            },
            field_indent: self.field_indent as int,
            injected: self.injected,
            skipping: self.skipping,
            pending: views(self.pending@),
            eol: self.eol@,
        }
    }

    fn leave_hook(&mut self, deps: &Vec<Vec<char>>)
        ensures
            final(self).model() == leave_hook(old(self).model(), views(deps@)),
    {
        let inject = match &self.hook_id {
            Some(id) => !self.injected && typing_hook_chars(self.repo_url.as_slice(), id.as_slice()),
            None => false,
        };
        if self.hook_id.is_some() {
            if inject {
                inject_lines(&mut self.out, self.field_indent, deps, &self.eol);
            }
            self.hook_id = None;
            self.injected = false;
        }
    }

    fn keep(&mut self, line: &Vec<char>)
        ensures
            final(self).model() == (RewriteState {
                out: old(self).model().out.push(line@),
                ..old(self).model()
            }),
    {
        let copy = slice_chars(line.as_slice(), 0, line.len());
        assert(copy@ =~= line@);
        self.out.push(copy);
        assert(views(self.out@) =~= old(self).model().out.push(line@));
    }

    /// Writes the held lines out.
    fn flush(&mut self)
        ensures
            final(self).model() == flush(old(self).model()),
    {
        let ghost start = views(self.out@);
        let ghost held = views(self.pending@);
        let ghost m = self.model();
        let mut i: usize = 0;
        while i < self.pending.len()
            invariant
                i <= self.pending@.len(),
                held == views(self.pending@),
                views(self.out@) == start + held.take(i as int),
                self.model() == (RewriteState { out: views(self.out@), ..m }),
            decreases self.pending@.len() - i,
        {
            let copy = slice_chars(self.pending[i].as_slice(), 0, self.pending[i].len());
            assert(copy@ =~= held[i as int]);
            let ghost before = self.out@;
            self.out.push(copy);
            assert(views(self.out@) =~= views(before).push(held[i as int]));
            i = i + 1;
            assert(views(self.out@) =~= start + held.take(i as int));
        }
        assert(held.take(held.len() as int) =~= held);
        self.pending = Vec::new();
        assert(views(self.pending@) =~= Seq::<Seq<char>>::empty());
    }

    fn normal_line(&mut self, line: &Vec<char>, deps: &Vec<Vec<char>>)
        ensures
            final(self).model() == normal_step(old(self).model(), line@, views(deps@)),
    {
        let t = trim_start_chars(line.as_slice());
        let ind = indent_len(line.as_slice());
        let sig = t.len() > 0 && t[0] != '#';
        if sig && ind < self.field_indent {
            self.leave_hook(deps);
        }
        if !sig {
            self.keep(line);
        } else if t[0] == '-' {
            let after_dash = slice_chars(t.as_slice(), 1, t.len());
            assert(after_dash@ =~= t@.skip(1));
            let rest = trim_start_chars(after_dash.as_slice());
            let repo_key = chars_of("repo:");
            let id_key = chars_of("id:");
            if starts_with_chars(rest.as_slice(), repo_key.as_slice()) {
                let v = slice_chars(rest.as_slice(), repo_key.len(), rest.len());
                assert(v@ =~= rest@.skip("repo:"@.len() as int));
                self.repo_url = unquote_chars(v.as_slice());
                self.keep(line);
            } else if starts_with_chars(rest.as_slice(), id_key.as_slice()) {
                let v = slice_chars(rest.as_slice(), id_key.len(), rest.len());
                assert(v@ =~= rest@.skip("id:"@.len() as int));
                let gap = indent_len(after_dash.as_slice());
                self.hook_id = Some(unquote_chars(v.as_slice()));
                self.field_indent = ind + 1 + gap;
                self.injected = false;
                self.keep(line);
            } else {
                self.keep(line);
            }
        } else {
            let key = chars_of("additional_dependencies:");
            let replace = ind == self.field_indent && starts_with_chars(t.as_slice(), key.as_slice())
                && match &self.hook_id {
                Some(id) => typing_hook_chars(self.repo_url.as_slice(), id.as_slice()),
                None => false,
            };
            if replace {
                inject_lines(&mut self.out, self.field_indent, deps, &self.eol);
                self.injected = true;
                self.skipping = true;
            } else {
                self.keep(line);
            }
        }
    }

    fn in_old_block(&self, line: &Vec<char>) -> (r: bool)
        ensures
            r == in_old_block(self.model(), line@),
    {
        let t = trim_start_chars(line.as_slice());
        let ind = indent_len(line.as_slice());
        let dash = chars_of("- ");
        ind > self.field_indent || (ind == self.field_indent && starts_with_chars(
            t.as_slice(),
            dash.as_slice(),
        ))
    }

    fn step(&mut self, line: &Vec<char>, deps: &Vec<Vec<char>>)
        ensures
            final(self).model() == rewrite_step(old(self).model(), line@, views(deps@)),
    {
        if self.skipping {
            let t = trim_start_chars(line.as_slice());
            if !(t.len() > 0 && t[0] != '#') {
                let copy = slice_chars(line.as_slice(), 0, line.len());
                assert(copy@ =~= line@);
                self.pending.push(copy);
                assert(views(self.pending@) =~= old(self).model().pending.push(line@));
                return;
            }
            if self.in_old_block(line) {
                self.pending = Vec::new();
                assert(views(self.pending@) =~= Seq::<Seq<char>>::empty());
                return;
            }
        }
        self.flush();
        self.skipping = false;
        self.normal_line(line, deps);
    }
}

/// [`unquote`] on characters.
fn unquote_chars(s: &[char]) -> (r: Vec<char>)
    ensures
        r@ == unquote(s@),
{
    let t = trim_chars(s);
    let a = trim_char_chars(t.as_slice(), '"');
    trim_char_chars(a.as_slice(), '\'')
}

/// Rewrites the `additional_dependencies:` of every typing hook in the
/// configuration `content` to list `sorted_deps` in the given order (see
/// [`rewritten`]); every other line is kept as it is, line ending included.
pub fn rewrite_additional_deps(content: &str, sorted_deps: &[String]) -> (r: String)
    ensures
        r@ == rewritten(content@, string_views(sorted_deps@)),
{
    let chars = chars_of(content);
    let ls = raw_lines_of(chars.as_slice());
    let deps = strings_to_chars(sorted_deps);
    let mut eol: Vec<char> = Vec::new();
    if ls.len() > 0 && ls[0].len() > 0 && ls[0][ls[0].len() - 1] == '\r' {
        eol.push('\r');
    }
    assert(eol@ =~= first_eol(content@));
    let mut rw = Rewriter {
        out: Vec::new(),
        repo_url: Vec::new(),
        hook_id: None,
        field_indent: 0,
        injected: false,
        skipping: false,
        pending: Vec::new(),
        eol: eol,
    };
    assert(rw.model().out =~= Seq::<Seq<char>>::empty());
    assert(rw.model().pending =~= Seq::<Seq<char>>::empty());
    assert(rw.model().repo_url =~= Seq::<char>::empty());
    assert(rw.model() == rewrite_start(first_eol(content@)));
    let mut i: usize = 0;
    while i < ls.len()
        invariant
            views(ls@) == raw_lines(content@),
            views(deps@) == string_views(sorted_deps@),
            i <= ls@.len(),
            rw.model() == rewrite_run(views(ls@).take(i as int), views(deps@), first_eol(content@)),
        decreases ls@.len() - i,
    {
        assert(views(ls@).take(i + 1).drop_last() =~= views(ls@).take(i as int));
        rw.step(&ls[i], &deps);
        i = i + 1;
    }
    assert(views(ls@).take(ls@.len() as int) =~= views(ls@));
    rw.flush();
    rw.leave_hook(&deps);
    let mut joined = join_chars(&rw.out);
    if chars.len() > 0 && chars[chars.len() - 1] == '\n' {
        joined.push('\n');
    }
    assert(joined@ =~= rewritten(content@, string_views(sorted_deps@)));
    string_of(joined.as_slice())
}

/// Whether the configuration `content` maps `repos` to a sequence, as
/// `serde_yaml` reads it.
pub open spec fn lists_repos(content: Seq<char>) -> bool {
    yaml_entry_is_sequence(content, "repos"@)
}

/// Reads `content` as YAML and tells whether its top level maps `repos` to a
/// sequence. It fails, with `SyncError::Yaml`, exactly when `content` is not
/// YAML.
pub fn repos_listed(content: &str) -> (r: Result<bool, SyncError>)
    ensures
        r is Err <==> !yaml_accepts(content@),
        r matches Err(e) ==> e is Yaml,
        r matches Ok(b) ==> b == lists_repos(content@),
{
    match yaml_entry_sequence(content, "repos") {
        Ok(listed) => Ok(listed),
        Err(e) => Err(SyncError::Yaml(e.to_string())),
    }
}

/// The new configuration: `content` with the typing hooks' blocks listing
/// `deps` sorted, or `None` when that changes nothing.
pub open spec fn updated_config(content: Seq<char>, deps: Seq<Seq<char>>) -> Option<Seq<char>> {
    let new = rewritten(content, sort_seq(deps));
    if new == content {
        None
    } else {
        Some(new)
    }
}

/// What syncing `deps` into the configuration `content` gives, once it is
/// known whether `content` maps `repos` to a sequence: without one it is
/// refused with `SyncError::Config`; otherwise the new text when it differs
/// (see [`updated_config`]).
pub fn plan_update(content: &str, deps: &[String], repos_are_listed: bool) -> (r: Result<
    Option<String>,
    SyncError,
>)
    ensures
        repos_are_listed ==> (r matches Ok(o) && opt_view(o) == updated_config(
            content@,
            string_views(deps@),
        )),
        !repos_are_listed ==> (r matches Err(SyncError::Config(m)) && m@
            == "missing 'repos' sequence"@),
{
    if !repos_are_listed {
        return Err(SyncError::Config("missing 'repos' sequence".to_owned()));
    }
    let sorted = sort_strings(deps);
    let new_content = rewrite_additional_deps(content, sorted.as_slice());
    let old_content = content.to_owned();
    if new_content == old_content {
        Ok(None)
    } else {
        Ok(Some(new_content))
    }
}

/// Syncs `deps` into the configuration `content`: fails with
/// `SyncError::Yaml` exactly when `content` is not YAML, with
/// `SyncError::Config` exactly when it is YAML that does not map `repos` to
/// a sequence, and otherwise gives the new text when it differs (see
/// [`updated_config`]).
pub fn update_config_content(content: &str, deps: &[String]) -> (r: Result<
    Option<String>,
    SyncError,
>)
    ensures
        !yaml_accepts(content@) ==> r matches Err(SyncError::Yaml(_)),
        yaml_accepts(content@) && !lists_repos(content@) ==> (r matches Err(
            SyncError::Config(m),
        ) && m@ == "missing 'repos' sequence"@),
        yaml_accepts(content@) && lists_repos(content@) ==> (r matches Ok(o) && opt_view(o)
            == updated_config(content@, string_views(deps@))),
{
    let listed = repos_listed(content)?;
    plan_update(content, deps, listed)
}

/// Syncing depends only on which dependencies there are and how often, not
/// on the order in which they come.
pub proof fn law_update_ignores_dep_order(content: Seq<char>, a: Seq<Seq<char>>, b: Seq<Seq<char>>)
    requires
        a.to_multiset() == b.to_multiset(),
    ensures
        updated_config(content, a) == updated_config(content, b),
{
    lemma_sort_seq_permutation(a, b);
}

/// The current hook is a typing hook.
pub open spec fn current_typing(st: RewriteState) -> bool {
    st.hook_id matches Some(id) && typing_hook(st.repo_url, id)
}

/// While `ls` is read, a typing hook is never the current hook.
pub open spec fn never_typing(ls: Seq<Seq<char>>, deps: Seq<Seq<char>>, eol: Seq<char>) -> bool {
    forall|i: int|
        0 <= i <= ls.len() ==> !current_typing(#[trigger] rewrite_run(ls.take(i), deps, eol))
}

proof fn lemma_run_keeps_lines(ls: Seq<Seq<char>>, deps: Seq<Seq<char>>, eol: Seq<char>)
    requires
        never_typing(ls, deps, eol),
    ensures
        rewrite_run(ls, deps, eol).out == ls,
        !rewrite_run(ls, deps, eol).skipping,
        rewrite_run(ls, deps, eol).pending.len() == 0,
    decreases ls.len(),
{
    if ls.len() == 0 {
        assert(rewrite_start(eol).out =~= ls);
    } else {
        let p = ls.drop_last();
        assert forall|i: int| 0 <= i <= p.len() implies !current_typing(
            #[trigger] rewrite_run(p.take(i), deps, eol),
        ) by {
            assert(p.take(i) =~= ls.take(i));
            assert(!current_typing(rewrite_run(ls.take(i), deps, eol)));
        }
        lemma_run_keeps_lines(p, deps, eol);
        assert(ls.take(p.len() as int) =~= p);
        assert(!current_typing(rewrite_run(ls.take(p.len() as int), deps, eol)));
        let x = rewrite_run(p, deps, eol);
        assert(x.out + x.pending =~= x.out);
        assert(p.push(ls.last()) =~= ls);
    }
}

/// A configuration in which no typing hook is ever current comes back
/// exactly as it was: comments, blank lines, line endings and the layout of
/// every line are kept.
pub proof fn law_config_without_typing_hooks_is_kept(content: Seq<char>, deps: Seq<Seq<char>>)
    requires
        never_typing(raw_lines(content), deps, first_eol(content)),
    ensures
        rewritten(content, deps) == content,
{
    let ls = raw_lines(content);
    let eol = first_eol(content);
    lemma_run_keeps_lines(ls, deps, eol);
    assert(ls.take(ls.len() as int) =~= ls);
    assert(!current_typing(rewrite_run(ls.take(ls.len() as int), deps, eol)));
    let x = rewrite_run(ls, deps, eol);
    assert(x.out + x.pending =~= x.out);
    lemma_raw_lines(content);
}

/// A list item line: significant, and its text begins with a dash.
pub open spec fn is_item(line: Seq<char>) -> bool {
    significant(line) && trim_start(line)[0] == '-'
}

/// The text of a list item after its dash, trimmed at its start.
pub open spec fn item_rest(line: Seq<char>) -> Seq<char> {
    trim_start(trim_start(line).skip(1))
}

/// A `- repo: url` line.
pub open spec fn is_repo_line(line: Seq<char>) -> bool {
    is_item(line) && starts_with(item_rest(line), "repo:"@)
}

/// The URL of a `- repo: url` line.
pub open spec fn repo_of(line: Seq<char>) -> Seq<char> {
    unquote(item_rest(line).skip("repo:"@.len() as int))
}

/// A `- id: name` line.
pub open spec fn is_id_line(line: Seq<char>) -> bool {
    is_item(line) && !is_repo_line(line) && starts_with(item_rest(line), "id:"@)
}

/// The hook id of a `- id: name` line.
pub open spec fn id_of(line: Seq<char>) -> Seq<char> {
    unquote(item_rest(line).skip("id:"@.len() as int))
}

/// The URL of the last `- repo:` line among the first `k` lines, or the
/// empty text when there is none.
pub open spec fn url_before(ls: Seq<Seq<char>>, k: int) -> Seq<char>
    decreases k,
{
    if k <= 0 {
        Seq::empty()
    } else if is_repo_line(ls[k - 1]) {
        repo_of(ls[k - 1])
    } else {
        url_before(ls, k - 1)
    }
}

/// Read as text, the lines name no typing hook: no `- id:` line names a
/// typing hook together with the URL of the nearest `- repo:` line before
/// it, and no `- repo:` line is indented deeper than a `- id:` line before
/// it (so that every repository starts after the hooks before it end).
pub open spec fn no_typing_hook_lines(ls: Seq<Seq<char>>) -> bool {
    &&& forall|h: int|
        0 <= h < ls.len() && is_id_line(#[trigger] ls[h]) ==> !typing_hook(
            url_before(ls, h),
            id_of(ls[h]),
        )
    &&& forall|h: int, r: int|
        0 <= h < r < ls.len() && is_id_line(#[trigger] ls[h]) && is_repo_line(#[trigger] ls[r])
            ==> indent_of(ls[r]) <= indent_of(ls[h])
}

/// The current hook, if any, comes from an earlier `- id:` line after which
/// no `- repo:` line came.
pub open spec fn hook_from_line(ls: Seq<Seq<char>>, k: int, st: RewriteState, h: int) -> bool {
    &&& 0 <= h < k
    &&& is_id_line(ls[h])
    &&& st.hook_id == Some(id_of(ls[h]))
    &&& (indent_of(ls[h]) as int) < st.field_indent
    &&& url_before(ls, k) == url_before(ls, h)
    &&& forall|r: int| h < r < k ==> !is_repo_line(#[trigger] ls[r])
}

/// What holds after the first `k` lines of a configuration that names no
/// typing hook.
pub open spec fn scan_ok(ls: Seq<Seq<char>>, k: int, st: RewriteState) -> bool {
    &&& !st.skipping
    &&& st.pending.len() == 0
    &&& st.repo_url == url_before(ls, k)
    &&& !current_typing(st)
    &&& st.hook_id is Some ==> exists|h: int| hook_from_line(ls, k, st, h)
}

#[verifier::rlimit(40)]
proof fn lemma_scan(ls: Seq<Seq<char>>, k: int, deps: Seq<Seq<char>>, eol: Seq<char>)
    requires
        no_typing_hook_lines(ls),
        0 <= k <= ls.len(),
    ensures
        scan_ok(ls, k, rewrite_run(ls.take(k), deps, eol)),
    decreases k,
{
    if k == 0 {
        assert(ls.take(0) =~= Seq::<Seq<char>>::empty());
    } else {
        lemma_scan(ls, k - 1, deps, eol);
        let st = rewrite_run(ls.take(k - 1), deps, eol);
        let l = ls[k - 1];
        assert(ls.take(k).drop_last() =~= ls.take(k - 1));
        assert(ls.take(k).last() == l);
        let s = rewrite_run(ls.take(k), deps, eol);
        assert(s == rewrite_step(st, l, deps));
        assert(st.out + st.pending =~= st.out);
        assert(unskip_of(st) == st);
        assert(s == normal_step(st, l, deps));
        let ind = indent_of(l) as int;
        let lv = significant(l) && ind < st.field_indent;
        let st1 = if lv {
            leave_hook(st, deps)
        } else {
            st
        };
        if is_repo_line(l) {
            assert(url_before(ls, k) == repo_of(l));
            if st.hook_id is Some {
                let h = choose|h: int| #[trigger] hook_from_line(ls, k - 1, st, h);
                assert(is_id_line(ls[h]) && is_repo_line(ls[k - 1]));
                assert(indent_of(ls[k - 1]) <= indent_of(ls[h]));
                assert(lv);
            }
            assert(st1.hook_id is None);
            assert(s.hook_id is None);
        } else {
            assert(url_before(ls, k) == url_before(ls, k - 1));
            if is_id_line(l) {
                assert(s.hook_id == Some(id_of(l)));
                assert(hook_from_line(ls, k, s, k - 1));
                assert(!typing_hook(url_before(ls, k - 1), id_of(ls[k - 1])));
            } else {
                if st1.hook_id is Some {
                    assert(st1 == st);
                    let h = choose|h: int| #[trigger] hook_from_line(ls, k - 1, st, h);
                    assert(!typing_hook(url_before(ls, h), id_of(ls[h])));
                    assert(s.hook_id == st.hook_id);
                    assert(s.field_indent == st.field_indent);
                    assert forall|r: int| h < r < k implies !is_repo_line(#[trigger] ls[r]) by {
                        if r < k - 1 {
                            assert(!is_repo_line(ls[r]));
                        }
                    }
                    assert(hook_from_line(ls, k, s, h));
                } else {
                    assert(s.hook_id is None);
                }
            }
        }
    }
}

/// The state in which a line is handled outside a replaced block.
spec fn unskip_of(st: RewriteState) -> RewriteState {
    RewriteState { skipping: false, ..flush(st) }
}

/// A configuration whose lines, read as text, name no typing hook (see
/// [`no_typing_hook_lines`]) comes back exactly as it was: nothing is
/// injected, replaced or reformatted.
pub proof fn law_config_without_typing_hook_lines_is_kept(content: Seq<char>, deps: Seq<Seq<char>>)
    requires
        no_typing_hook_lines(raw_lines(content)),
    ensures
        rewritten(content, deps) == content,
{
    let ls = raw_lines(content);
    let eol = first_eol(content);
    assert forall|i: int| 0 <= i <= ls.len() implies !current_typing(
        #[trigger] rewrite_run(ls.take(i), deps, eol),
    ) by {
        lemma_scan(ls, i, deps, eol);
    }
    law_config_without_typing_hooks_is_kept(content, deps);
}

/// `a` begins with `p`.
pub open spec fn is_prefix(p: Seq<Seq<char>>, a: Seq<Seq<char>>) -> bool {
    p.len() <= a.len() && a.take(p.len() as int) == p
}

proof fn lemma_prefix_push(p: Seq<Seq<char>>, a: Seq<Seq<char>>, l: Seq<char>)
    requires
        is_prefix(p, a),
    ensures
        is_prefix(p, a.push(l)),
{
    assert(a.push(l).take(p.len() as int) =~= a.take(p.len() as int));
}

proof fn lemma_prefix_concat(p: Seq<Seq<char>>, a: Seq<Seq<char>>, b: Seq<Seq<char>>)
    requires
        is_prefix(p, a),
    ensures
        is_prefix(p, a + b),
{
    assert((a + b).take(p.len() as int) =~= a.take(p.len() as int));
}

pub proof fn lemma_prefix_trans(a: Seq<Seq<char>>, b: Seq<Seq<char>>, c: Seq<Seq<char>>)
    requires
        is_prefix(a, b),
        is_prefix(b, c),
    ensures
        is_prefix(a, c),
{
    assert(c.take(a.len() as int) =~= c.take(b.len() as int).take(a.len() as int));
}

/// Writing out the held lines only appends to the output.
pub proof fn lemma_flush_extends(st: RewriteState)
    ensures
        is_prefix(st.out, flush(st).out),
{
    assert(st.out.take(st.out.len() as int) =~= st.out);
    lemma_prefix_concat(st.out, st.out, st.pending);
}

/// Leaving a hook only appends to the output.
pub proof fn lemma_leave_extends(st: RewriteState, deps: Seq<Seq<char>>)
    ensures
        is_prefix(st.out, leave_hook(st, deps).out),
{
    assert(st.out.take(st.out.len() as int) =~= st.out);
    lemma_prefix_concat(st.out, st.out, deps_block(st.field_indent, deps, st.eol));
}

/// A line only appends to the output.
proof fn lemma_step_extends(st: RewriteState, line: Seq<char>, deps: Seq<Seq<char>>)
    ensures
        is_prefix(st.out, rewrite_step(st, line, deps).out),
{
    assert(st.out.take(st.out.len() as int) =~= st.out);
    if !(st.skipping && !significant(line)) && !(st.skipping && in_old_block(st, line)) {
        let y = RewriteState { skipping: false, ..flush(st) };
        lemma_flush_extends(st);
        lemma_leave_extends(y, deps);
        let lv = significant(line) && (indent_of(line) as int) < y.field_indent;
        let st1 = if lv {
            leave_hook(y, deps)
        } else {
            y
        };
        assert(y.out.take(y.out.len() as int) =~= y.out);
        lemma_prefix_trans(st.out, y.out, st1.out);
        lemma_prefix_push(st.out, st1.out, line);
        lemma_prefix_concat(st.out, st1.out, deps_block(st1.field_indent, deps, st1.eol));
    }
}

/// Reading more lines only appends to the output.
proof fn lemma_run_extends(ls: Seq<Seq<char>>, n: int, deps: Seq<Seq<char>>, eol: Seq<char>)
    requires
        0 <= n <= ls.len(),
    ensures
        is_prefix(rewrite_run(ls.take(n), deps, eol).out, rewrite_run(ls, deps, eol).out),
    decreases ls.len() - n,
{
    if n == ls.len() {
        assert(ls.take(n) =~= ls);
        let o = rewrite_run(ls, deps, eol).out;
        assert(o.take(o.len() as int) =~= o);
    } else {
        lemma_run_extends(ls, n + 1, deps, eol);
        let p = ls.take(n + 1);
        assert(p.drop_last() =~= ls.take(n));
        lemma_step_extends(rewrite_run(ls.take(n), deps, eol), p.last(), deps);
        lemma_prefix_trans(
            rewrite_run(ls.take(n), deps, eol).out,
            rewrite_run(p, deps, eol).out,
            rewrite_run(ls, deps, eol).out,
        );
    }
}

/// The first line is always written as it is.
pub proof fn lemma_first_line_kept(ls: Seq<Seq<char>>, deps: Seq<Seq<char>>, eol: Seq<char>)
    requires
        ls.len() > 0,
    ensures
        is_prefix(seq![ls[0]], rewrite_run(ls, deps, eol).out),
{
    let one = ls.take(1);
    assert(one.drop_last() =~= Seq::<Seq<char>>::empty());
    assert(one.last() == ls[0]);
    let st = rewrite_start(eol);
    assert(rewrite_run(one.drop_last(), deps, eol) == st);
    assert(flush(st).out =~= Seq::<Seq<char>>::empty());
    assert(rewrite_run(one, deps, eol).out =~= seq![ls[0]]);
    lemma_run_extends(ls, 1, deps, eol);
}

/// The lines before the first typing hook are kept as they are: when no
/// typing hook is current while the first `n` lines of `content` are read,
/// the rewritten configuration begins with those `n` lines.
pub proof fn law_lines_before_typing_hooks_are_kept(
    content: Seq<char>,
    deps: Seq<Seq<char>>,
    n: int,
)
    requires
        0 <= n <= raw_lines(content).len(),
        never_typing(raw_lines(content).take(n), deps, first_eol(content)),
    ensures
        is_prefix(raw_lines(content).take(n), rewritten_lines(content, deps)),
{
    let ls = raw_lines(content);
    let eol = first_eol(content);
    lemma_run_keeps_lines(ls.take(n), deps, eol);
    lemma_run_extends(ls, n, deps, eol);
    let s = rewrite_run(ls, deps, eol);
    lemma_flush_extends(s);
    lemma_leave_extends(flush(s), deps);
    lemma_prefix_trans(ls.take(n), s.out, flush(s).out);
    lemma_prefix_trans(ls.take(n), flush(s).out, leave_hook(flush(s), deps).out);
}


/// A hook whose repository URL names none of the mirrors `mirrors-mypy`,
/// `mirrors-ty` and `mirrors-pyright` is a typing hook exactly when its id
/// is `mypy`, `ty` or `pyright`, letter for letter: ids such as `typos` or
/// `mypy-extra` are not typing hooks.
pub proof fn law_typing_hook_by_exact_id(repo_url: Seq<char>, hook_id: Seq<char>)
    requires
        !contains_seq(repo_url, "mirrors-mypy"@),
        !contains_seq(repo_url, "mirrors-ty"@),
        !contains_seq(repo_url, "mirrors-pyright"@),
    ensures
        typing_hook(repo_url, hook_id) <==> (hook_id == "mypy"@ || hook_id == "ty"@ || hook_id
            == "pyright"@),
{
}

/// A hook in a repository whose URL names one of the typing mirrors is a
/// typing hook whatever its id.
pub proof fn law_typing_hook_by_mirror(repo_url: Seq<char>, hook_id: Seq<char>)
    requires
        contains_seq(repo_url, "mirrors-mypy"@) || contains_seq(repo_url, "mirrors-ty"@)
            || contains_seq(repo_url, "mirrors-pyright"@),
    ensures
        typing_hook(repo_url, hook_id),
{
}

} // verus!
