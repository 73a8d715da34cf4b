//! Character-level text handling: whitespace, trimming and line splitting.

use vstd::prelude::*;

verus! {

/// `String::push` appends one character.
pub assume_specification[ String::push ](s: &mut String, ch: char)
    ensures
        final(s)@ == old(s)@.push(ch),
;

/// The characters of `s`, in order.
pub fn chars_of(s: &str) -> (r: Vec<char>)
    ensures
        r@ == s@,
{
    let mut v: Vec<char> = Vec::new();
    for c in it: s.chars()
        invariant
            v@ == it.seq().take(it.index()),
    {
        v.push(c);
    }
    v
}

/// The string made of the characters `s`.
pub fn string_of(s: &[char]) -> (r: String)
    ensures
        r@ == s@,
{
    let mut out = String::new();
    let mut i: usize = 0;
    while i < s.len()
        invariant
            i <= s@.len(),
            out@ == s@.take(i as int),
        decreases s@.len() - i,
    {
        out.push(s[i]);
        i = i + 1;
        assert(out@ == s@.take(i as int));
    }
    assert(s@.take(s@.len() as int) == s@);
    out
}


/// Whether `c` has the Unicode `White_Space` property, which is what
/// `char::is_whitespace` tests.
pub open spec fn is_ws(c: char) -> bool {
    ||| ('\u{9}' <= c && c <= '\u{d}')
    ||| c == ' '
    ||| c == '\u{85}'
    ||| c == '\u{a0}'
    ||| c == '\u{1680}'
    ||| ('\u{2000}' <= c && c <= '\u{200a}')
    ||| c == '\u{2028}'
    ||| c == '\u{2029}'
    ||| c == '\u{202f}'
    ||| c == '\u{205f}'
    ||| c == '\u{3000}'
}

/// Executable form of [`is_ws`].
pub fn is_whitespace(c: char) -> (r: bool)
    ensures
        r == is_ws(c),
{
    ('\u{9}' <= c && c <= '\u{d}') || c == ' ' || c == '\u{85}' || c == '\u{a0}' || c == '\u{1680}'
        || ('\u{2000}' <= c && c <= '\u{200a}') || c == '\u{2028}' || c == '\u{2029}' || c
        == '\u{202f}' || c == '\u{205f}' || c == '\u{3000}'
}

/// The index of the first character at or after `i` that is not whitespace
/// (or the length when there is none).
pub open spec fn skip_ws_from(s: Seq<char>, i: int) -> int
    decreases s.len() - i,
{
    if 0 <= i < s.len() && is_ws(s[i]) {
        skip_ws_from(s, i + 1)
    } else {
        i
    }
}

/// The end of `s.take(j)` once trailing whitespace is removed.
pub open spec fn drop_ws_before(s: Seq<char>, j: int) -> int
    decreases j,
{
    if 0 < j <= s.len() && is_ws(s[j - 1]) {
        drop_ws_before(s, j - 1)
    } else {
        j
    }
}

/// `s` without its leading whitespace (`str::trim_start`).
pub open spec fn trim_start(s: Seq<char>) -> Seq<char> {
    s.skip(skip_ws_from(s, 0))
}

/// `s` without its trailing whitespace (`str::trim_end`).
pub open spec fn trim_end(s: Seq<char>) -> Seq<char> {
    s.take(drop_ws_before(s, s.len() as int))
}

/// `s` without leading and trailing whitespace (`str::trim`).
pub open spec fn trim(s: Seq<char>) -> Seq<char> {
    trim_end(trim_start(s))
}

pub proof fn lemma_skip_ws_from_bounds(s: Seq<char>, i: int)
    requires
        0 <= i <= s.len(),
    ensures
        i <= skip_ws_from(s, i) <= s.len(),
        forall|k: int| i <= k < skip_ws_from(s, i) ==> is_ws(#[trigger] s[k]),
        skip_ws_from(s, i) < s.len() ==> !is_ws(s[skip_ws_from(s, i)]),
    decreases s.len() - i,
{
    if i < s.len() && is_ws(s[i]) {
        lemma_skip_ws_from_bounds(s, i + 1);
    }
}

pub proof fn lemma_drop_ws_before_bounds(s: Seq<char>, j: int)
    requires
        0 <= j <= s.len(),
    ensures
        0 <= drop_ws_before(s, j) <= j,
        forall|k: int| drop_ws_before(s, j) <= k < j ==> is_ws(#[trigger] s[k]),
        drop_ws_before(s, j) > 0 ==> !is_ws(s[drop_ws_before(s, j) - 1]),
    decreases j,
{
    if 0 < j && is_ws(s[j - 1]) {
        lemma_drop_ws_before_bounds(s, j - 1);
    }
}

/// The number of leading whitespace characters of `s`.
pub fn leading_ws_len(s: &[char]) -> (r: usize)
    ensures
        r == skip_ws_from(s@, 0),
{
    let mut i: usize = 0;
    while i < s.len() && is_whitespace(s[i])
        invariant
            i <= s@.len(),
            skip_ws_from(s@, 0) == skip_ws_from(s@, i as int),
        decreases s@.len() - i,
    {
        i = i + 1;
    }
    i
}

/// The length of `s` once trailing whitespace is removed.
pub fn trimmed_end_len(s: &[char]) -> (r: usize)
    ensures
        r == drop_ws_before(s@, s@.len() as int),
{
    let mut j: usize = s.len();
    while j > 0 && is_whitespace(s[j - 1])
        invariant
            j <= s@.len(),
            drop_ws_before(s@, s@.len() as int) == drop_ws_before(s@, j as int),
        decreases j,
    {
        j = j - 1;
    }
    j
}

/// The characters `s[from..to]`.
pub fn slice_chars(s: &[char], from: usize, to: usize) -> (r: Vec<char>)
    requires
        from <= to <= s@.len(),
    ensures
        r@ == s@.subrange(from as int, to as int),
{
    let mut v: Vec<char> = Vec::new();
    let mut i: usize = from;
    while i < to
        invariant
            from <= i <= to <= s@.len(),
            v@ == s@.subrange(from as int, i as int),
        decreases to - i,
    {
        v.push(s[i]);
        i = i + 1;
    }
    v
}

/// `str::trim_start` on characters.
pub fn trim_start_chars(s: &[char]) -> (r: Vec<char>)
    ensures
        r@ == trim_start(s@),
{
    let a = leading_ws_len(s);
    proof {
        lemma_skip_ws_from_bounds(s@, 0);
    }
    slice_chars(s, a, s.len())
}

/// `str::trim_end` on characters.
pub fn trim_end_chars(s: &[char]) -> (r: Vec<char>)
    ensures
        r@ == trim_end(s@),
{
    let b = trimmed_end_len(s);
    proof {
        lemma_drop_ws_before_bounds(s@, s@.len() as int);
    }
    slice_chars(s, 0, b)
}

/// `str::trim` on characters.
pub fn trim_chars(s: &[char]) -> (r: Vec<char>)
    ensures
        r@ == trim(s@),
{
    let t = trim_start_chars(s);
    trim_end_chars(t.as_slice())
}


/// The views of a sequence of character vectors.
pub open spec fn views(v: Seq<Vec<char>>) -> Seq<Seq<char>> {
    v.map_values(|x: Vec<char>| x@)
}

/// Splits `s` at each `'\n'`: the pieces that a `'\n'` ended, and the piece
/// after the last `'\n'`.
pub open spec fn split_nl(s: Seq<char>) -> (Seq<Seq<char>>, Seq<char>)
    decreases s.len(),
{
    if s.len() == 0 {
        (seq![], seq![])
    } else {
        let prev = split_nl(s.drop_last());
        if s.last() == '\n' {
            (prev.0.push(prev.1), seq![])
        } else {
            (prev.0, prev.1.push(s.last()))
        }
    }
}

/// A line that ended in `"\r\n"` loses its `'\r'`.
pub open spec fn strip_cr(l: Seq<char>) -> Seq<char> {
    if l.len() > 0 && l.last() == '\r' {
        l.drop_last()
    } else {
        l
    }
}

/// The lines of `s`, as `str::lines` yields them: split at `'\n'`, a `'\r'`
/// before a `'\n'` removed, and no empty last line after a final `'\n'`.
pub open spec fn lines(s: Seq<char>) -> Seq<Seq<char>> {
    let parts = split_nl(s);
    let ended = parts.0.map_values(|l: Seq<char>| strip_cr(l));
    if parts.1.len() > 0 {
        ended.push(parts.1)
    } else {
        ended
    }
}

/// `l` without a final `'\r'`.
pub fn strip_cr_chars(l: Vec<char>) -> (r: Vec<char>)
    ensures
        r@ == strip_cr(l@),
{
    let mut l = l;
    if l.len() > 0 && l[l.len() - 1] == '\r' {
        l.pop();
    }
    l
}

/// The lines of `s` (see [`lines`]).
pub fn lines_of(s: &[char]) -> (r: Vec<Vec<char>>)
    ensures
        views(r@) == lines(s@),
{
    let mut done: Vec<Vec<char>> = Vec::new();
    let mut cur: Vec<char> = Vec::new();
    let mut i: usize = 0;
    while i < s.len()
        invariant
            i <= s@.len(),
            views(done@) == split_nl(s@.take(i as int)).0.map_values(|l: Seq<char>| strip_cr(l)),
            cur@ == split_nl(s@.take(i as int)).1,
        decreases s@.len() - i,
    {
        let ghost before = s@.take(i as int);
        let ghost after = s@.take(i + 1);
        let ghost prev = split_nl(before);
        assert(after.drop_last() =~= before);
        assert(after.last() == s@[i as int]);
        let ghost old_done = done@;
        let c = s[i];
        if c == '\n' {
            assert(split_nl(after) == (prev.0.push(prev.1), Seq::<char>::empty()));
            let line = strip_cr_chars(cur);
            done.push(line);
            cur = Vec::new();
            assert(views(done@) =~= views(old_done).push(strip_cr(prev.1)));
            assert(prev.0.push(prev.1).map_values(|l: Seq<char>| strip_cr(l)) =~= prev.0.map_values(
                |l: Seq<char>| strip_cr(l),
            ).push(strip_cr(prev.1)));
        } else {
            assert(split_nl(after) == (prev.0, prev.1.push(c)));
            cur.push(c);
        }
        i = i + 1;
    }
    assert(s@.take(s@.len() as int) == s@);
    let ghost old_done = done@;
    let ghost cur_view = cur@;
    if cur.len() > 0 {
        done.push(cur);
        assert(views(done@) =~= views(old_done).push(cur_view));
    }
    assert(views(done@) =~= lines(s@));
    done
}


/// The lines of `s` with their endings kept: split at `'\n'`, a `'\r'`
/// before it staying with its line, and no empty last line after a final
/// `'\n'`.
pub open spec fn raw_lines(s: Seq<char>) -> Seq<Seq<char>> {
    let parts = split_nl(s);
    if parts.1.len() > 0 {
        parts.0.push(parts.1)
    } else {
        parts.0
    }
}

/// The lines of `s` with their `'\r'` kept (see [`raw_lines`]).
pub fn raw_lines_of(s: &[char]) -> (r: Vec<Vec<char>>)
    ensures
        views(r@) == raw_lines(s@),
{
    let mut done: Vec<Vec<char>> = Vec::new();
    let mut cur: Vec<char> = Vec::new();
    let mut i: usize = 0;
    while i < s.len()
        invariant
            i <= s@.len(),
            views(done@) == split_nl(s@.take(i as int)).0,
            cur@ == split_nl(s@.take(i as int)).1,
        decreases s@.len() - i,
    {
        let ghost before = s@.take(i as int);
        let ghost after = s@.take(i + 1);
        let ghost prev = split_nl(before);
        assert(after.drop_last() =~= before);
        assert(after.last() == s@[i as int]);
        let ghost old_done = done@;
        let c = s[i];
        if c == '\n' {
            assert(split_nl(after) == (prev.0.push(prev.1), Seq::<char>::empty()));
            done.push(cur);
            cur = Vec::new();
            assert(views(done@) =~= views(old_done).push(prev.1));
        } else {
            assert(split_nl(after) == (prev.0, prev.1.push(c)));
            cur.push(c);
        }
        i = i + 1;
    }
    assert(s@.take(s@.len() as int) == s@);
    let ghost old_done = done@;
    let ghost cur_view = cur@;
    if cur.len() > 0 {
        done.push(cur);
        assert(views(done@) =~= views(old_done).push(cur_view));
    }
    done
}

/// The first index at or after `i` where `s` holds `c`.
pub open spec fn find_char_from(s: Seq<char>, c: char, i: int) -> Option<int>
    decreases s.len() - i,
{
    if i < 0 || i >= s.len() {
        None
    } else if s[i] == c {
        Some(i)
    } else {
        find_char_from(s, c, i + 1)
    }
}

/// The first index where `s` holds `c` (`str::find` with a `char`).
pub open spec fn find_char(s: Seq<char>, c: char) -> Option<int> {
    find_char_from(s, c, 0)
}

pub proof fn lemma_find_char_from(s: Seq<char>, c: char, i: int)
    requires
        0 <= i,
    ensures
        find_char_from(s, c, i) matches Some(k) ==> i <= k < s.len() && s[k] == c && forall|
            j: int,
        | i <= j < k ==> s[j] != c,
        find_char_from(s, c, i) is None ==> forall|j: int| i <= j < s.len() ==> s[j] != c,
    decreases s.len() - i,
{
    if i < s.len() && s[i] != c {
        lemma_find_char_from(s, c, i + 1);
    }
}

/// Executable form of [`find_char`].
pub fn find_char_index(s: &[char], c: char) -> (r: Option<usize>)
    ensures
        r matches Some(k) ==> find_char(s@, c) == Some(k as int),
        r is None ==> find_char(s@, c) is None,
{
    let mut i: usize = 0;
    while i < s.len()
        invariant
            i <= s@.len(),
            find_char(s@, c) == find_char_from(s@, c, i as int),
        decreases s@.len() - i,
    {
        if s[i] == c {
            return Some(i);
        }
        i = i + 1;
    }
    None
}

/// Whether `s` begins with `p`.
pub open spec fn starts_with(s: Seq<char>, p: Seq<char>) -> bool {
    p.len() <= s.len() && s.take(p.len() as int) == p
}

/// Executable form of [`starts_with`].
pub fn starts_with_chars(s: &[char], p: &[char]) -> (r: bool)
    ensures
        r == starts_with(s@, p@),
{
    if p.len() > s.len() {
        return false;
    }
    let mut i: usize = 0;
    while i < p.len()
        invariant
            p@.len() <= s@.len(),
            i <= p@.len(),
            forall|j: int| 0 <= j < i ==> s@[j] == p@[j],
        decreases p@.len() - i,
    {
        if s[i] != p[i] {
            assert(s@.take(p@.len() as int)[i as int] != p@[i as int]);
            return false;
        }
        i = i + 1;
    }
    assert(s@.take(p@.len() as int) =~= p@);
    true
}

/// Whether `t` occurs in `s` (`str::contains` with a `&str`).
pub open spec fn contains_seq(s: Seq<char>, t: Seq<char>) -> bool {
    exists|i: int| 0 <= i && i + t.len() <= s.len() && #[trigger] s.subrange(i, i + t.len()) == t
}

/// Executable form of [`contains_seq`].
pub fn contains_chars(s: &[char], t: &[char]) -> (r: bool)
    ensures
        r == contains_seq(s@, t@),
{
    if t.len() == 0 {
        assert(s@.subrange(0, 0 + t@.len() as int) =~= t@);
        return true;
    }
    if t.len() > s.len() {
        return false;
    }
    let mut i: usize = 0;
    while t.len() <= s.len() - i
        invariant
            0 < t@.len() <= s@.len(),
            i <= s@.len(),
            forall|k: int| 0 <= k < i ==> #[trigger] s@.subrange(k, k + t@.len()) != t@,
        decreases s@.len() - i,
    {
        if same_at(s, i, t) {
            assert(s@.subrange(i as int, i + t@.len()) =~= t@);
            return true;
        }
        i = i + 1;
    }
    assert forall|k: int| 0 <= k && k + t@.len() <= s@.len() implies #[trigger] s@.subrange(
        k,
        k + t@.len(),
    ) != t@ by {}
    false
}

/// Whether `t` occurs in `s` at index `i`.
fn same_at(s: &[char], i: usize, t: &[char]) -> (r: bool)
    requires
        i + t@.len() <= s@.len(),
    ensures
        r == (s@.subrange(i as int, i + t@.len()) == t@),
{
    let n = s.len();
    let mut j: usize = 0;
    while j < t.len()
        invariant
            n == s@.len(),
            i + t@.len() <= s@.len(),
            j <= t@.len(),
            forall|m: int| 0 <= m < j ==> s@[i + m] == t@[m],
        decreases t@.len() - j,
    {
        if s[i + j] != t[j] {
            assert(s@.subrange(i as int, i + t@.len())[j as int] != t@[j as int]);
            return false;
        }
        j = j + 1;
    }
    assert(s@.subrange(i as int, i + t@.len()) =~= t@);
    true
}

/// The lowercase form of `s` as `str::to_lowercase` computes it (by the
/// Unicode `Lowercase` mapping, which may change a string's length).
pub uninterp spec fn lowercase(s: Seq<char>) -> Seq<char>;

/// Calls `str::to_lowercase`, whose result depends on `s` alone.
#[verifier::external_body]
pub(crate) fn to_lowercase_str(s: &str) -> (r: String)
    ensures
        r@ == lowercase(s@),
{
    s.to_lowercase()
}

/// [`lowercase`] on characters.
pub fn lowercase_chars(s: &[char]) -> (r: Vec<char>)
    ensures
        r@ == lowercase(s@),
{
    let st = string_of(s);
    let low = to_lowercase_str(st.as_str());
    chars_of(low.as_str())
}

/// The number of bytes that UTF-8 takes for `c` (`char::len_utf8`).
pub open spec fn char_len(c: char) -> nat {
    if c <= '\u{7f}' {
        1
    } else if c <= '\u{7ff}' {
        2
    } else if c <= '\u{ffff}' {
        3
    } else {
        4
    }
}

/// The number of bytes that UTF-8 takes for `s` (`str::len`).
pub open spec fn utf8_len(s: Seq<char>) -> nat
    decreases s.len(),
{
    if s.len() == 0 {
        0
    } else {
        utf8_len(s.drop_last()) + char_len(s.last())
    }
}

/// The indentation of a line: the bytes of its leading whitespace.
pub open spec fn indent_of(line: Seq<char>) -> nat {
    utf8_len(line.take(skip_ws_from(line, 0)))
}

/// Executable form of [`char_len`].
pub fn char_len_of(c: char) -> (r: u128)
    ensures
        r == char_len(c),
{
    if c <= '\u{7f}' {
        1
    } else if c <= '\u{7ff}' {
        2
    } else if c <= '\u{ffff}' {
        3
    } else {
        4
    }
}

/// The indentation of `line` in bytes (see [`indent_of`]).
pub fn indent_len(line: &[char]) -> (r: u128)
    ensures
        r == indent_of(line@),
        r <= 4 * line@.len(),
        r <= 4 * (usize::MAX as int),
{
    let len = line.len();
    let n = leading_ws_len(line);
    proof {
        lemma_skip_ws_from_bounds(line@, 0);
    }
    let mut sum: u128 = 0;
    let mut i: usize = 0;
    while i < n
        invariant
            n <= line@.len(),
            i <= n,
            sum == utf8_len(line@.take(i as int)),
            sum <= 4 * i,
        decreases n - i,
    {
        assert(line@.take(i + 1).drop_last() =~= line@.take(i as int));
        sum = sum + char_len_of(line[i]);
        i = i + 1;
    }
    sum
}

/// `n` spaces.
pub open spec fn spaces(n: int) -> Seq<char> {
    Seq::new(n as nat, |i: int| ' ')
}

/// A vector of `n` spaces.
pub fn spaces_of(n: u128) -> (r: Vec<char>)
    ensures
        r@ == spaces(n as int),
{
    let mut v: Vec<char> = Vec::new();
    let mut k: u128 = 0;
    while k < n
        invariant
            k <= n,
            v@ == spaces(k as int),
        decreases n - k,
    {
        v.push(' ');
        k = k + 1;
        assert(v@ =~= spaces(k as int));
    }
    v
}

/// The characters of `a` followed by those of `b`.
pub fn concat(a: &[char], b: &[char]) -> (r: Vec<char>)
    ensures
        r@ == a@ + b@,
{
    let mut v = slice_chars(a, 0, a.len());
    let mut i: usize = 0;
    while i < b.len()
        invariant
            i <= b@.len(),
            v@ == a@ + b@.take(i as int),
        decreases b@.len() - i,
    {
        v.push(b[i]);
        i = i + 1;
        assert(v@ =~= a@ + b@.take(i as int));
    }
    assert(b@.take(b@.len() as int) =~= b@);
    assert(a@.subrange(0, a@.len() as int) =~= a@);
    v
}

/// Whether `a` and `b` hold the same characters.
pub fn chars_eq(a: &[char], b: &[char]) -> (r: bool)
    ensures
        r == (a@ == b@),
{
    if a.len() != b.len() {
        return false;
    }
    let mut i: usize = 0;
    while i < a.len()
        invariant
            a@.len() == b@.len(),
            i <= a@.len(),
            forall|j: int| 0 <= j < i ==> a@[j] == b@[j],
        decreases a@.len() - i,
    {
        if a[i] != b[i] {
            return false;
        }
        i = i + 1;
    }
    assert(a@ =~= b@);
    true
}

/// The index of the first character at or after `i` that is not `c`.
pub open spec fn skip_eq_from(s: Seq<char>, c: char, i: int) -> int
    decreases s.len() - i,
{
    if 0 <= i < s.len() && s[i] == c {
        skip_eq_from(s, c, i + 1)
    } else {
        i
    }
}

/// The end of `s.take(j)` once trailing `c`s are removed.
pub open spec fn drop_eq_before(s: Seq<char>, c: char, j: int) -> int
    decreases j,
{
    if 0 < j <= s.len() && s[j - 1] == c {
        drop_eq_before(s, c, j - 1)
    } else {
        j
    }
}

/// `s` without leading and trailing `c`s (`str::trim_matches` with a `char`).
pub open spec fn trim_char(s: Seq<char>, c: char) -> Seq<char> {
    let t = s.skip(skip_eq_from(s, c, 0));
    t.take(drop_eq_before(t, c, t.len() as int))
}

pub proof fn lemma_skip_eq_from_bounds(s: Seq<char>, c: char, i: int)
    requires
        0 <= i <= s.len(),
    ensures
        i <= skip_eq_from(s, c, i) <= s.len(),
    decreases s.len() - i,
{
    if i < s.len() && s[i] == c {
        lemma_skip_eq_from_bounds(s, c, i + 1);
    }
}

pub proof fn lemma_drop_eq_before_bounds(s: Seq<char>, c: char, j: int)
    requires
        0 <= j <= s.len(),
    ensures
        0 <= drop_eq_before(s, c, j) <= j,
    decreases j,
{
    if 0 < j && s[j - 1] == c {
        lemma_drop_eq_before_bounds(s, c, j - 1);
    }
}

/// Executable form of [`trim_char`].
pub fn trim_char_chars(s: &[char], c: char) -> (r: Vec<char>)
    ensures
        r@ == trim_char(s@, c),
{
    let mut i: usize = 0;
    while i < s.len() && s[i] == c
        invariant
            i <= s@.len(),
            skip_eq_from(s@, c, 0) == skip_eq_from(s@, c, i as int),
        decreases s@.len() - i,
    {
        i = i + 1;
    }
    let t = slice_chars(s, i, s.len());
    assert(t@ =~= s@.skip(i as int));
    let mut j: usize = t.len();
    while j > 0 && t[j - 1] == c
        invariant
            j <= t@.len(),
            drop_eq_before(t@, c, t@.len() as int) == drop_eq_before(t@, c, j as int),
        decreases j,
    {
        j = j - 1;
    }
    slice_chars(t.as_slice(), 0, j)
}

/// The view of an optional string.
pub open spec fn opt_view(o: Option<String>) -> Option<Seq<char>> {
    match o {
        Some(s) => Some(s@),
        None => None,
    }
}

/// A trimmed text that is not empty begins and ends with a character that
/// is not whitespace.
pub proof fn lemma_trim_edges(s: Seq<char>)
    ensures
        trim(s).len() > 0 ==> !is_ws(trim(s)[0]) && !is_ws(trim(s).last()),
{
    lemma_skip_ws_from_bounds(s, 0);
    let t = trim_start(s);
    lemma_skip_ws_from_bounds(t, 0);
    lemma_drop_ws_before_bounds(t, t.len() as int);
    let e = drop_ws_before(t, t.len() as int);
    if e > 0 {
        assert(skip_ws_from(s, 0) < s.len());
        assert(t[0] == s[skip_ws_from(s, 0)]);
        assert(trim(s)[0] == t[0]);
        assert(trim(s).last() == t[e - 1]);
    }
}

/// `ls` joined with `'\n'` between lines.
pub open spec fn join_lines(ls: Seq<Seq<char>>) -> Seq<char>
    decreases ls.len(),
{
    if ls.len() == 0 {
        Seq::empty()
    } else if ls.len() == 1 {
        ls[0]
    } else {
        join_lines(ls.drop_last()) + seq!['\n'] + ls.last()
    }
}

/// Whether `s` ends with a newline.
pub open spec fn ends_with_newline(s: Seq<char>) -> bool {
    s.len() > 0 && s.last() == '\n'
}

/// `s` holds no `c`.
pub open spec fn free_of(s: Seq<char>, c: char) -> bool {
    forall|i: int| 0 <= i < s.len() ==> s[i] != c
}

/// Appending text without a newline extends the last piece.
pub proof fn lemma_split_nl_append(a: Seq<char>, b: Seq<char>)
    requires
        free_of(b, '\n'),
    ensures
        split_nl(a + b) == (split_nl(a).0, split_nl(a).1 + b),
    decreases b.len(),
{
    if b.len() == 0 {
        assert(a + b =~= a);
        assert(split_nl(a).1 + b =~= split_nl(a).1);
    } else {
        lemma_split_nl_append(a, b.drop_last());
        assert((a + b).drop_last() =~= a + b.drop_last());
        assert((a + b).last() == b.last());
        assert(split_nl(a).1 + b.drop_last() + seq![b.last()] =~= split_nl(a).1 + b);
    }
}

/// Splitting joined lines gives them back.
pub proof fn lemma_split_nl_join(ls: Seq<Seq<char>>)
    requires
        ls.len() > 0,
        forall|k: int| 0 <= k < ls.len() ==> free_of(#[trigger] ls[k], '\n'),
    ensures
        split_nl(join_lines(ls)) == (ls.drop_last(), ls.last()),
    decreases ls.len(),
{
    if ls.len() == 1 {
        lemma_split_nl_append(Seq::empty(), ls[0]);
        assert(Seq::<char>::empty() + ls[0] =~= ls[0]);
        assert(ls.drop_last() =~= Seq::<Seq<char>>::empty());
        assert(Seq::<char>::empty() + ls[0] =~= ls[0]);
    } else {
        let p = ls.drop_last();
        assert forall|k: int| 0 <= k < p.len() implies free_of(#[trigger] p[k], '\n') by {
            assert(p[k] == ls[k]);
        }
        lemma_split_nl_join(p);
        let a = join_lines(p) + seq!['\n'];
        assert(a.drop_last() =~= join_lines(p));
        assert(split_nl(a) == (p.drop_last().push(p.last()), Seq::<char>::empty()));
        assert(p.drop_last().push(p.last()) =~= p);
        assert(free_of(ls[ls.len() - 1], '\n'));
        lemma_split_nl_append(a, ls.last());
        assert(Seq::<char>::empty() + ls.last() =~= ls.last());
    }
}

/// Joining the pieces of a text gives the text back.
pub proof fn lemma_join_split(s: Seq<char>)
    ensures
        join_lines(split_nl(s).0.push(split_nl(s).1)) == s,
        forall|k: int|
            0 <= k < split_nl(s).0.len() ==> free_of(s, '\r') ==> free_of(
                #[trigger] split_nl(s).0[k],
                '\r',
            ),
        free_of(s, '\r') ==> free_of(split_nl(s).1, '\r'),
        split_nl(s).1.len() == 0 && s.len() > 0 ==> s.last() == '\n',
        forall|k: int| 0 <= k < split_nl(s).0.len() ==> free_of(#[trigger] split_nl(s).0[k], '\n'),
        free_of(split_nl(s).1, '\n'),
    decreases s.len(),
{
    if s.len() > 0 {
        let p = s.drop_last();
        lemma_join_split(p);
        let d = split_nl(p).0;
        let c = split_nl(p).1;
        assert(free_of(s, '\r') ==> free_of(p, '\r'));
        if s.last() == '\n' {
            assert(d.push(c).push(Seq::<char>::empty()).drop_last() =~= d.push(c));
            assert(join_lines(d.push(c).push(Seq::<char>::empty())) =~= p + seq!['\n']);
            assert(p + seq!['\n'] =~= s);
        } else {
            if d.len() == 0 {
                assert(d.push(c) =~= seq![c]);
                assert(d.push(c.push(s.last())) =~= seq![c.push(s.last())]);
                assert(p.push(s.last()) =~= s);
            } else {
                assert(d.push(c).drop_last() =~= d);
                assert(d.push(c.push(s.last())).drop_last() =~= d);
                assert(join_lines(d.push(c.push(s.last()))) =~= join_lines(d.push(c)) + seq![
                    s.last(),
                ]);
                assert(p.push(s.last()) =~= s);
            }
            assert(free_of(s, '\r') ==> s.last() != '\r');
        }
    }
}

/// Joined lines end with the last one's last character.
pub proof fn lemma_join_last(ls: Seq<Seq<char>>)
    requires
        ls.len() > 0,
        ls.last().len() > 0,
    ensures
        join_lines(ls).len() > 0,
        join_lines(ls).last() == ls.last().last(),
{
    if ls.len() == 1 {
        assert(ls[0] == ls.last());
    }
}


/// A text is its raw lines joined, with a final newline when it had one;
/// its raw lines hold no `'\n'`, and when the text does not end with a
/// newline its last raw line is not empty.
pub proof fn lemma_raw_lines(s: Seq<char>)
    ensures
        join_lines(raw_lines(s)) + (if ends_with_newline(s) {
            seq!['\n']
        } else {
            Seq::<char>::empty()
        }) == s,
        forall|k: int| 0 <= k < raw_lines(s).len() ==> free_of(#[trigger] raw_lines(s)[k], '\n'),
        s.len() > 0 ==> raw_lines(s).len() > 0,
        s.len() > 0 && !ends_with_newline(s) ==> raw_lines(s).last().len() > 0,
        s.len() == 0 ==> raw_lines(s).len() == 0,
{
    lemma_join_split(s);
    let d = split_nl(s).0;
    let c = split_nl(s).1;
    if c.len() > 0 {
        assert(raw_lines(s) == d.push(c));
        assert(!ends_with_newline(s)) by {
            if s.len() > 0 && s.last() == '\n' {
                assert(split_nl(s).1 =~= Seq::<char>::empty());
            }
        }
        assert(s + Seq::<char>::empty() =~= s);
        assert forall|k: int| 0 <= k < raw_lines(s).len() implies free_of(
            #[trigger] raw_lines(s)[k],
            '\n',
        ) by {
            if k < d.len() {
                assert(raw_lines(s)[k] == d[k]);
            }
        }
    } else {
        assert(raw_lines(s) == d);
        if d.len() == 0 {
            assert(d.push(c) =~= seq![c]);
            assert(s.len() == 0);
            assert(join_lines(raw_lines(s)) + Seq::<char>::empty() =~= s);
        } else {
            assert(d.push(c).drop_last() =~= d);
            assert(join_lines(d) + seq!['\n'] =~= s);
        }
    }
    if s.len() == 0 {
        assert(split_nl(s) == (Seq::<Seq<char>>::empty(), Seq::<char>::empty()));
    }
}

/// Joined lines without `'\n'`, followed by a newline, read back as the
/// same raw lines; without the newline too when the last line is not empty.
pub proof fn lemma_raw_lines_join(ls: Seq<Seq<char>>)
    requires
        ls.len() > 0,
        forall|k: int| 0 <= k < ls.len() ==> free_of(#[trigger] ls[k], '\n'),
    ensures
        raw_lines(join_lines(ls) + seq!['\n']) == ls,
        ls.last().len() > 0 ==> raw_lines(join_lines(ls)) == ls,
{
    lemma_split_nl_join(ls);
    let s = join_lines(ls) + seq!['\n'];
    assert(s.drop_last() =~= join_lines(ls));
    assert(split_nl(s) == (ls.drop_last().push(ls.last()), Seq::<char>::empty()));
    assert(ls.drop_last().push(ls.last()) =~= ls);
}


/// Trimming twice trims no more than once.
pub proof fn lemma_trim_idempotent(s: Seq<char>)
    ensures
        trim(trim(s)) == trim(s),
{
    let t = trim(s);
    lemma_trim_edges(s);
    if t.len() == 0 {
        assert(trim_start(t) =~= t);
        assert(trim(t) =~= t);
    } else {
        assert(skip_ws_from(t, 0) == 0);
        assert(t.skip(0) =~= t);
        assert(drop_ws_before(t, t.len() as int) == t.len());
        assert(t.take(t.len() as int) =~= t);
    }
}

/// Trimming adds no character.
pub proof fn lemma_trim_free(s: Seq<char>, c: char)
    requires
        free_of(s, c),
    ensures
        free_of(trim(s), c),
{
    lemma_skip_ws_from_bounds(s, 0);
    let t = trim_start(s);
    let a = skip_ws_from(s, 0);
    lemma_drop_ws_before_bounds(t, t.len() as int);
    assert forall|i: int| 0 <= i < trim(s).len() implies trim(s)[i] != c by {
        assert(trim(s)[i] == t[i]);
        assert(t[i] == s[a + i]);
    }
}

/// The lines of a text hold no `'\n'`.
pub proof fn lemma_lines_free(s: Seq<char>)
    ensures
        forall|k: int| 0 <= k < lines(s).len() ==> free_of(#[trigger] lines(s)[k], '\n'),
{
    lemma_join_split(s);
    let d = split_nl(s).0;
    let c = split_nl(s).1;
    assert forall|k: int| 0 <= k < lines(s).len() implies free_of(#[trigger] lines(s)[k], '\n') by {
        if k < d.len() {
            let l = d[k];
            assert(lines(s)[k] == strip_cr(l));
            assert(free_of(l, '\n'));
            if l.len() > 0 && l.last() == '\r' {
                assert forall|i: int| 0 <= i < l.drop_last().len() implies l.drop_last()[i] != '\n' by {
                    assert(l.drop_last()[i] == l[i]);
                }
            }
        } else {
            assert(lines(s)[k] == c);
        }
    }
}

} // verus!
