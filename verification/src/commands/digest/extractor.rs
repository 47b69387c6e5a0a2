//! Signatures, doc comments and diagrams read from a symbol's source lines.

use vstd::prelude::*;
use crate::text::{
    chars_of, contains, contains_exec, is_ws, is_space, lower_seq, next_char, next_char_exec,
    lemma_next_char_bounds, slice_chars, starts_with, starts_with_exec, ends_with, ends_with_exec,
    string_of, trim, trim_bounds, trim_end, str_eq,
};

verus! {

// ---------------------------------------------------------------- text pieces

/// `s.trim_start_matches(p)`: every leading copy of `p` removed.
pub open spec fn strip_start_all(s: Seq<char>, p: Seq<char>) -> Seq<char>
    decreases s.len(),
{
    if p.len() > 0 && starts_with(s, p) {
        strip_start_all(s.subrange(p.len() as int, s.len() as int), p)
    } else {
        s
    }
}

/// `s.trim_end_matches(p)`: every trailing copy of `p` removed.
pub open spec fn strip_end_all(s: Seq<char>, p: Seq<char>) -> Seq<char>
    decreases s.len(),
{
    if p.len() > 0 && ends_with(s, p) {
        strip_end_all(s.subrange(0, s.len() - p.len()), p)
    } else {
        s
    }
}

/// A doc line without its comment markers (`///`, `//!`, `/**`, `*/`, `*`,
/// `//`, triple quotes) and surrounding whitespace.
pub open spec fn spec_strip_doc_prefix(line: Seq<char>) -> Seq<char> {
    let a = strip_start_all(trim(line), "///"@);
    let b = strip_start_all(a, "//!"@);
    let c = strip_start_all(b, "/**"@);
    let d = strip_end_all(c, "*/"@);
    let e = strip_start_all(d, "*"@);
    let f = strip_start_all(e, "//"@);
    let g = strip_start_all(f, "\"\"\""@);
    let h = strip_end_all(g, "\"\"\""@);
    let i = strip_start_all(h, "'''"@);
    let j = strip_end_all(i, "'''"@);
    trim(j)
}

/// How many leading characters of `s` equal `c`.
pub open spec fn run_len(s: Seq<char>, c: char) -> nat
    decreases s.len(),
{
    if s.len() > 0 && s[0] == c { 1 + run_len(s.drop_first(), c) } else { 0 }
}

/// The fence a doc line opens or closes, as its fence character and what
/// follows the run of fence characters (trimmed): three or more backticks or
/// tildes.
pub open spec fn fence_parts(line: Seq<char>) -> Option<(char, Seq<char>)> {
    let t = spec_strip_doc_prefix(line);
    let fc = if starts_with(t, "```"@) { '`' } else { '~' };
    if starts_with(t, "```"@) || starts_with(t, "~~~"@) {
        let n = run_len(t, fc);
        if n >= 3 { Some((fc, trim(t.subrange(n as int, t.len() as int)))) } else { None }
    } else {
        None
    }
}

/// A fence line with no info string repeating the fence character.
pub open spec fn spec_is_fence_delimiter(line: Seq<char>) -> bool {
    match fence_parts(line) {
        Some((fc, rest)) => !contains(rest, seq![fc]),
        None => false,
    }
}

/// The first whitespace-separated word of `s` (`s` is trimmed).
pub open spec fn first_word(s: Seq<char>) -> Seq<char> {
    s.subrange(0, first_ws(s, 0))
}

/// The first whitespace position at or after `p` (the length if none).
pub open spec fn first_ws(s: Seq<char>, p: int) -> int
    decreases s.len() - p,
{
    if p >= s.len() { s.len() as int } else if is_ws(s[p]) { p } else { first_ws(s, p + 1) }
}

/// The language an opening fence's info string names: its first word, up to
/// a `,`, lower-cased.
pub open spec fn fence_lang(rest: Seq<char>) -> Seq<char> {
    let w = first_word(rest);
    lower_seq(trim(w.subrange(0, next_char(w, 0, ','))))
}

/// A fence opening a `text`, `diagram` or `mermaid` block.
pub open spec fn spec_is_diagram_fence_opening(line: Seq<char>) -> bool {
    match fence_parts(line) {
        Some((fc, rest)) => {
            &&& rest.len() > 0
            &&& !contains(rest, seq![fc])
            &&& {
                let l = fence_lang(rest);
                l == "text"@ || l == "diagram"@ || l == "mermaid"@
            }
        },
        None => false,
    }
}

/// A line that starts (after whitespace) like a comment in one of the
/// supported languages.
pub open spec fn spec_is_comment_line(line: Seq<char>) -> bool {
    let t = trim(line);
    ||| starts_with(t, "///"@) || starts_with(t, "//!"@) || starts_with(t, "//"@)
    ||| starts_with(t, "/**"@) || starts_with(t, "/*"@) || starts_with(t, "*"@)
    ||| starts_with(t, "#"@) || starts_with(t, "\"\"\""@) || starts_with(t, "'''"@)
}

fn vtrim(s: &[char]) -> (r: Vec<char>)
    ensures
        r@ == trim(s@),
{
    let (a, b) = trim_bounds(s);
    slice_chars(s, a, b)
}

fn starts(s: &[char], p: &str) -> (r: bool)
    ensures
        r == starts_with(s@, p@),
{
    let pc = chars_of(p);
    starts_with_exec(s, pc.as_slice())
}

fn strip_start_all_exec(s: Vec<char>, p: &str) -> (r: Vec<char>)
    ensures
        r@ == strip_start_all(s@, p@),
{
    let pc = chars_of(p);
    let mut cur = s;
    while pc.len() > 0 && starts_with_exec(cur.as_slice(), pc.as_slice())
        invariant
            pc@ == p@,
            strip_start_all(cur@, p@) == strip_start_all(s@, p@),
        decreases cur@.len(),
    {
        cur = slice_chars(cur.as_slice(), pc.len(), cur.len());
    }
    cur
}

fn strip_end_all_exec(s: Vec<char>, p: &str) -> (r: Vec<char>)
    ensures
        r@ == strip_end_all(s@, p@),
{
    let pc = chars_of(p);
    let mut cur = s;
    while pc.len() > 0 && ends_with_exec(cur.as_slice(), pc.as_slice())
        invariant
            pc@ == p@,
            strip_end_all(cur@, p@) == strip_end_all(s@, p@),
        decreases cur@.len(),
    {
        cur = slice_chars(cur.as_slice(), 0, cur.len() - pc.len());
    }
    cur
}

fn strip_doc_prefix_chars(line: &[char]) -> (r: Vec<char>)
    ensures
        r@ == spec_strip_doc_prefix(line@),
{
    let t = vtrim(line);
    let a = strip_start_all_exec(t, "///");
    let b = strip_start_all_exec(a, "//!");
    let c = strip_start_all_exec(b, "/**");
    let d = strip_end_all_exec(c, "*/");
    let e = strip_start_all_exec(d, "*");
    let f = strip_start_all_exec(e, "//");
    let g = strip_start_all_exec(f, "\"\"\"");
    let h = strip_end_all_exec(g, "\"\"\"");
    let i = strip_start_all_exec(h, "'''");
    let j = strip_end_all_exec(i, "'''");
    vtrim(j.as_slice())
}

/// A doc line without its comment markers and surrounding whitespace.
pub fn strip_doc_prefix(line: &str) -> (r: String)
    ensures
        r@ == spec_strip_doc_prefix(line@),
{
    let c = chars_of(line);
    string_of(strip_doc_prefix_chars(c.as_slice()).as_slice())
}

fn run_len_exec(s: &[char], c: char) -> (r: usize)
    ensures
        r == run_len(s@, c),
        r <= s@.len(),
{
    let mut k: usize = 0;
    assert(s@.subrange(0, s@.len() as int) =~= s@);
    while k < s.len() && s[k] == c
        invariant
            0 <= k <= s@.len(),
            k + run_len(s@.subrange(k as int, s@.len() as int), c) == run_len(s@, c),
        decreases s@.len() - k,
    {
        assert(s@.subrange(k as int, s@.len() as int).drop_first() =~= s@.subrange(k + 1, s@.len() as int));
        k = k + 1;
    }
    proof {
        assert(s@.subrange(0, s@.len() as int) =~= s@);
    }
    k
}

proof fn lemma_run_len_start(s: Seq<char>, c: char)
    ensures
        run_len(s, c) == run_len(s.subrange(0, s.len() as int), c),
{
    assert(s.subrange(0, s.len() as int) =~= s);
}

fn fence_parts_exec(line: &[char]) -> (r: Option<(char, Vec<char>)>)
    ensures
        match fence_parts(line@) {
            Some((fc, rest)) => r matches Some((c, v)) && c == fc && v@ == rest,
            None => r is None,
        },
{
    let t = strip_doc_prefix_chars(line);
    let bt = starts(t.as_slice(), "```");
    let tl = starts(t.as_slice(), "~~~");
    if bt || tl {
        let fc = if bt { '`' } else { '~' };
        proof {
            lemma_run_len_start(t@, fc);
        }
        let n = run_len_exec(t.as_slice(), fc);
        if n >= 3 {
            let rest = vtrim(slice_chars(t.as_slice(), n, t.len()).as_slice());
            return Some((fc, rest));
        }
    }
    None
}

fn has_char(s: &[char], c: char) -> (r: bool)
    ensures
        r == contains(s@, seq![c]),
{
    let one = vec![c];
    assert(one@ =~= seq![c]);
    contains_exec(s, one.as_slice())
}

/// A line that opens or closes a code fence.
pub fn is_fence_delimiter(line: &str) -> (r: bool)
    ensures
        r == spec_is_fence_delimiter(line@),
{
    let c = chars_of(line);
    match fence_parts_exec(c.as_slice()) {
        Some((fc, rest)) => !has_char(rest.as_slice(), fc),
        None => false,
    }
}

fn fence_lang_exec(rest: &[char]) -> (r: Vec<char>)
    ensures
        r@ == fence_lang(rest@),
{
    let mut k: usize = 0;
    while k < rest.len() && !is_space(rest[k])
        invariant
            0 <= k <= rest@.len(),
            first_ws(rest@, k as int) == first_ws(rest@, 0),
        decreases rest@.len() - k,
    {
        k = k + 1;
    }
    let w = slice_chars(rest, 0, k);
    let comma = next_char_exec(w.as_slice(), 0, ',');
    let head = vtrim(slice_chars(w.as_slice(), 0, comma).as_slice());
    let mut out: Vec<char> = Vec::new();
    let mut i: usize = 0;
    while i < head.len()
        invariant
            0 <= i <= head@.len(),
            out@ == lower_seq(head@).take(i as int),
        decreases head@.len() - i,
    {
        out.push(crate::text::lower_char(head[i]));
        i = i + 1;
        assert(out@ =~= lower_seq(head@).take(i as int));
    }
    assert(out@ =~= lower_seq(head@));
    out
}

/// A fence line that opens a `text`, `diagram` or `mermaid` block.
pub fn is_diagram_fence_opening(line: &str) -> (r: bool)
    ensures
        r == spec_is_diagram_fence_opening(line@),
{
    let c = chars_of(line);
    match fence_parts_exec(c.as_slice()) {
        Some((fc, rest)) => {
            if rest.len() == 0 || has_char(rest.as_slice(), fc) {
                return false;
            }
            let lang = string_of(fence_lang_exec(rest.as_slice()).as_slice());
            let l = lang.as_str();
            str_eq(l, "text") || str_eq(l, "diagram") || str_eq(l, "mermaid")
        },
        None => false,
    }
}

/// A line that starts (after whitespace) like a comment.
pub fn is_comment_line(line: &str) -> (r: bool)
    ensures
        r == spec_is_comment_line(line@),
{
    let c = chars_of(line);
    let t = vtrim(c.as_slice());
    let s = t.as_slice();
    starts(s, "///") || starts(s, "//!") || starts(s, "//") || starts(s, "/**") || starts(s, "/*")
        || starts(s, "*") || starts(s, "#") || starts(s, "\"\"\"") || starts(s, "'''")
}

// ------------------------------------------------------------ line windows

/// The 0-based index of a 1-based start line (lines before 1 count as 1).
pub open spec fn start_index(start: i64) -> int {
    if start < 1 { 0 } else { start - 1 }
}

/// The larger of a symbol's start and end lines.
pub open spec fn hi_line(start: i64, end: i64) -> int {
    if end < start { start as int } else { end as int }
}

/// The 0-based index of the last line: `max(start, end) - 1` taken as a
/// `usize`, so an end before line 1 wraps around to a very large index and
/// leaves the window open to the end of the file.
pub open spec fn end_index(start: i64, end: Option<i64>) -> int {
    match end {
        Some(e) => ((hi_line(start, e) - 1) as usize) as int,
        None => start_index(start),
    }
}

/// The end index can be computed at all: the larger line is not `i64::MIN`.
pub open spec fn end_computable(start: i64, end: Option<i64>) -> bool {
    match end {
        Some(e) => hi_line(start, e) > i64::MIN,
        None => true,
    }
}

/// [`extract_signature`]'s arithmetic stays in range: for a start inside the
/// file, the end index is computable, not before the start index, and the
/// line count between them fits a `usize`.
pub open spec fn sig_window_ok(len: int, start: Option<i64>, end: Option<i64>) -> bool {
    match (start, end) {
        (Some(s), Some(_)) => start_index(s) < len ==> {
            &&& end_computable(s, end)
            &&& start_index(s) <= end_index(s, end)
            &&& end_index(s, end) - start_index(s) < usize::MAX
        },
        _ => true,
    }
}

/// The Python docstring window's arithmetic stays in range: for a start
/// inside the file, fifteen lines past it and one past the end index fit a
/// `usize`, and the end index is computable.
pub open spec fn docs_window_ok(len: int, start: Option<i64>, end: Option<i64>) -> bool {
    match start {
        Some(s) => start_index(s) < len ==> {
            &&& start_index(s) + 15 <= usize::MAX
            &&& end_computable(s, end)
            &&& end_index(s, end) < usize::MAX
        },
        None => true,
    }
}

/// [`check_body_has_diagram`]'s arithmetic stays in range: the end index is
/// computable, and for a start inside the file one past it fits a `usize`
/// and is not before the start.
pub open spec fn body_window_ok(len: int, start: Option<i64>, end: Option<i64>) -> bool {
    match (start, end) {
        (Some(s), Some(_)) => {
            &&& end_computable(s, end)
            &&& start_index(s) < len ==> end_index(s, end) < usize::MAX && start_index(s) <= end_index(s, end) + 1
        },
        _ => true,
    }
}

/// Everything read from a symbol's lines (signature, docs, diagrams) keeps
/// its arithmetic in range.
pub open spec fn window_ok(len: int, start: Option<i64>, end: Option<i64>) -> bool {
    sig_window_ok(len, start, end) && docs_window_ok(len, start, end) && body_window_ok(len, start, end)
}

/// The end index the arithmetic computes for an end line `e`.
fn wrapped_end(start: i64, e: i64) -> (r: u64)
    requires
        hi_line(start, e) > i64::MIN,
    ensures
        r as int == end_index(start, Some(e)),
{
    let hi: i64 = if e < start { start } else { e };
    let w: usize = ((hi as i128) - 1) as usize;
    w as u64
}

fn start_index_exec(start: i64) -> (r: u64)
    ensures
        r == start_index(start),
{
    if start < 1 { 0 } else { (start - 1) as u64 }
}

/// Any line matching `pred` in `lines[a..b]`.
pub open spec fn views(lines: Seq<String>) -> Seq<Seq<char>> {
    lines.map_values(|s: String| s@)
}

/// Whether a comment line inside the symbol's own lines opens a diagram
/// fence (a diagram documented on a field rather than the type).
pub open spec fn spec_body_has_diagram(lines: Seq<Seq<char>>, start: Option<i64>, end: Option<i64>) -> bool {
    match (start, end) {
        (Some(s), Some(e)) => {
            let a = start_index(s);
            let b = end_index(s, Some(e)) + 1;
            let lim = if b < lines.len() { b } else { lines.len() as int };
            a < lines.len() && exists|i: int|
                a <= i < lim && spec_is_comment_line(#[trigger] lines[i]) && spec_is_diagram_fence_opening(lines[i])
        },
        _ => false,
    }
}

pub fn check_body_has_diagram(lines: &[String], start_line: Option<i64>, end_line: Option<i64>) -> (r: bool)
    requires
        body_window_ok(lines@.len() as int, start_line, end_line),
    ensures
        r == spec_body_has_diagram(views(lines@), start_line, end_line),
{
    let (start, end) = match (start_line, end_line) {
        (Some(s), Some(e)) => (s, e),
        _ => { return false; },
    };
    let ev = wrapped_end(start, end);
    let a = start_index_exec(start);
    if a >= lines.len() as u64 {
        return false;
    }
    let b: u64 = ev + 1;
    let lim: usize = if b < lines.len() as u64 { b as usize } else { lines.len() };
    let mut i: usize = a as usize;
    assert(lim as int == (if end_index(start, Some(end)) + 1 < lines@.len() { end_index(start, Some(end)) + 1 } else { lines@.len() as int }));
    while i < lim
        invariant
            a <= i,
            a == start_index(start),
            a < lines@.len(),
            lim <= lines@.len(),
            lim as int == (if end_index(start, Some(end)) + 1 < lines@.len() { end_index(start, Some(end)) + 1 } else { lines@.len() as int }),
            start_line == Some(start),
            end_line == Some(end),
            forall|k: int| a <= k < i ==> !(spec_is_comment_line(#[trigger] views(lines@)[k]) && spec_is_diagram_fence_opening(views(lines@)[k])),
        decreases lim - i,
    {
        let l = lines[i].as_str();
        if is_comment_line(l) && is_diagram_fence_opening(l) {
            assert(views(lines@)[i as int] == lines@[i as int]@);
            return true;
        }
        assert(views(lines@)[i as int] == lines@[i as int]@);
        i = i + 1;
    }
    false
}

// ------------------------------------------------------------- signatures

/// The signature text gathered from `left` lines starting at `idx`: comment
/// lines skipped, each line added after a space, and stopping at the first
/// `{` (before it), `;` (with it), or `=` after `fn `/`def `/`let ` (before it).
pub open spec fn sig_from(lines: Seq<Seq<char>>, idx: int, left: int, sig: Seq<char>) -> Seq<char>
    decreases left,
{
    if left <= 0 || idx < 0 || idx >= lines.len() {
        sig
    } else {
        let line = trim(lines[idx]);
        if starts_with(line, "//"@) || starts_with(line, "#"@) || starts_with(line, "/*"@) {
            sig_from(lines, idx + 1, left - 1, sig)
        } else {
            let sep = if sig.len() > 0 { sig.push(' ') } else { sig };
            let b = next_char(line, 0, '{');
            let sc = next_char(line, 0, ';');
            let eq = next_char(line, 0, '=');
            if b < line.len() {
                sep + trim_end(line.subrange(0, b))
            } else if sc < line.len() {
                sep + trim_end(line.subrange(0, sc + 1))
            } else if eq < line.len() {
                let before = trim_end(line.subrange(0, eq));
                if contains(before, "fn "@) || contains(before, "def "@) || contains(before, "let "@) {
                    sep + before
                } else {
                    sig_from(lines, idx + 1, left - 1, sep + line)
                }
            } else {
                sig_from(lines, idx + 1, left - 1, sep + line)
            }
        }
    }
}

/// The whitespace-separated words of `s`.
pub open spec fn words(s: Seq<char>) -> Seq<Seq<char>>
    decreases s.len(),
{
    let t = crate::text::trim_start(s);
    if t.len() == 0 {
        seq![]
    } else {
        proof {
            lemma_trim_start_len(s);
            lemma_first_ws_bounds(t, 0);
        }
        let k = first_ws(t, 0);
        seq![t.subrange(0, k)] + words(t.subrange(k, t.len() as int))
    }
}

/// `parts` joined with `sep` between them.
pub open spec fn join_with(parts: Seq<Seq<char>>, sep: Seq<char>) -> Seq<char>
    decreases parts.len(),
{
    if parts.len() == 0 {
        seq![]
    } else if parts.len() == 1 {
        parts[0]
    } else {
        join_with(parts.drop_last(), sep) + sep + parts.last()
    }
}

pub proof fn lemma_trim_start_len(s: Seq<char>)
    ensures
        crate::text::trim_start(s).len() <= s.len(),
        crate::text::trim_start(s).len() > 0 ==> !is_ws(crate::text::trim_start(s)[0]),
    decreases s.len(),
{
    if s.len() > 0 && is_ws(s[0]) {
        lemma_trim_start_len(s.drop_first());
    }
}

pub proof fn lemma_first_ws_bounds(s: Seq<char>, p: int)
    requires
        0 <= p <= s.len(),
    ensures
        p <= first_ws(s, p) <= s.len(),
        first_ws(s, p) < s.len() ==> is_ws(s[first_ws(s, p)]),
        forall|j: int| p <= j < first_ws(s, p) ==> !is_ws(#[trigger] s[j]),
    decreases s.len() - p,
{
    if p < s.len() && !is_ws(s[p]) {
        lemma_first_ws_bounds(s, p + 1);
    }
}

fn trim_start_exec(s: &[char]) -> (r: Vec<char>)
    ensures
        r@ == crate::text::trim_start(s@),
{
    let mut a: usize = 0;
    assert(s@.subrange(0, s@.len() as int) =~= s@);
    while a < s.len() && is_space(s[a])
        invariant
            0 <= a <= s@.len(),
            crate::text::trim_start(s@) == crate::text::trim_start(s@.subrange(a as int, s@.len() as int)),
        decreases s@.len() - a,
    {
        assert(s@.subrange(a as int, s@.len() as int).drop_first() =~= s@.subrange(a + 1, s@.len() as int));
        a = a + 1;
    }
    slice_chars(s, a, s.len())
}

fn first_ws_exec(s: &[char]) -> (r: usize)
    ensures
        r == first_ws(s@, 0),
        r <= s@.len(),
{
    let mut k: usize = 0;
    while k < s.len() && !is_space(s[k])
        invariant
            0 <= k <= s@.len(),
            first_ws(s@, k as int) == first_ws(s@, 0),
        decreases s@.len() - k,
    {
        k = k + 1;
    }
    k
}

fn push_all(out: &mut Vec<char>, w: &[char])
    ensures
        final(out)@ == old(out)@ + w@,
{
    let mut j: usize = 0;
    while j < w.len()
        invariant
            0 <= j <= w@.len(),
            out@ == old(out)@ + w@.take(j as int),
        decreases w@.len() - j,
    {
        out.push(w[j]);
        j = j + 1;
        assert(out@ =~= old(out)@ + w@.take(j as int));
    }
    assert(w@.take(w@.len() as int) =~= w@);
}

/// `s.split_whitespace().collect::<Vec<_>>().join(" ")`.
fn squeeze_ws(s: &[char]) -> (r: Vec<char>)
    ensures
        r@ == join_with(words(s@), seq![' ']),
{
    let mut out: Vec<char> = Vec::new();
    let mut cur = slice_chars(s, 0, s.len());
    let ghost mut done: Seq<Seq<char>> = seq![];
    let mut first = true;
    assert(s@.subrange(0, s@.len() as int) =~= s@);
    loop
        invariant
            done + words(cur@) == words(s@),
            out@ == join_with(done, seq![' ']),
            first == (done.len() == 0),
        ensures
            out@ == join_with(words(s@), seq![' ']),
        decreases cur@.len(),
    {
        let t = trim_start_exec(cur.as_slice());
        proof {
            lemma_trim_start_len(cur@);
        }
        if t.len() == 0 {
            assert(words(cur@) =~= seq![]);
            assert(done =~= words(s@));
            break;
        }
        let k = first_ws_exec(t.as_slice());
        proof {
            lemma_first_ws_bounds(t@, 0);
        }
        let w = slice_chars(t.as_slice(), 0, k);
        proof {
            assert(words(cur@) == seq![w@] + words(t@.subrange(k as int, t@.len() as int)));
            assert(done.push(w@) + words(t@.subrange(k as int, t@.len() as int)) =~= done + words(cur@));
            assert(done.push(w@).drop_last() =~= done);
        }
        if !first {
            out.push(' ');
        }
        push_all(&mut out, w.as_slice());
        proof {
            if done.len() == 0 {
                assert(out@ =~= w@);
                assert(done.push(w@) =~= seq![w@]);
            } else {
                assert(out@ =~= join_with(done, seq![' ']) + seq![' '] + w@);
            }
            done = done.push(w@);
        }
        first = false;
        cur = slice_chars(t.as_slice(), k, t.len());
    }
    out
}

fn has_word(s: &[char], p: &str) -> (r: bool)
    ensures
        r == contains(s@, p@),
{
    let pc = chars_of(p);
    contains_exec(s, pc.as_slice())
}

fn trim_end_exec(s: &[char]) -> (r: Vec<char>)
    ensures
        r@ == trim_end(s@),
{
    let mut b: usize = s.len();
    assert(s@.subrange(0, s@.len() as int) =~= s@);
    while b > 0 && is_space(s[b - 1])
        invariant
            b <= s@.len(),
            trim_end(s@) == trim_end(s@.subrange(0, b as int)),
        decreases b,
    {
        assert(s@.subrange(0, b as int).drop_last() =~= s@.subrange(0, b - 1));
        b = b - 1;
    }
    slice_chars(s, 0, b)
}

/// The declaration line(s) of a symbol, up to its body, on one line: at most
/// five lines from `start_line`, comment lines skipped, whitespace squeezed.
pub open spec fn signature_text(lines: Seq<String>, start_line: Option<i64>, end_line: Option<i64>) -> Seq<char> {
    match start_line {
        None => seq![],
        Some(s) => if start_index(s) >= lines.len() {
            seq![]
        } else {
            let n = end_index(s, end_line) - start_index(s) + 1;
            join_with(words(sig_from(views(lines), start_index(s), if n < 5 { n } else { 5 }, seq![])), seq![' '])
        },
    }
}

/// See [`signature_text`].
pub fn extract_signature(lines: &[String], start_line: Option<i64>, end_line: Option<i64>) -> (r: String)
    requires
        sig_window_ok(lines@.len() as int, start_line, end_line),
    ensures
        r@ == signature_text(lines@, start_line, end_line),
{
    let start = match start_line {
        Some(s) => s,
        None => { return String::new(); },
    };
    let a = start_index_exec(start);
    if a >= lines.len() as u64 {
        return String::new();
    }
    let e: i128 = match end_line {
        Some(x) => wrapped_end(start, x) as i128,
        None => a as i128,
    };
    let n: i128 = e - a as i128 + 1;
    let mut left: usize = if n < 5 { n as usize } else { 5 };
    let mut idx: usize = a as usize;
    let ghost lv = views(lines@);
    let ghost total = sig_from(lv, a as int, left as int, seq![]);
    let mut sig: Vec<char> = Vec::new();
    loop
        invariant_except_break
            sig_from(lv, idx as int, left as int, sig@) == total,
        invariant
            lv == views(lines@),
        ensures
            sig@ == total,
        decreases left,
    {
        if left == 0 || idx >= lines.len() {
            break;
        }
        assert(lv[idx as int] == lines@[idx as int]@);
        let lc = chars_of(lines[idx].as_str());
        let line = vtrim(lc.as_slice());
        let ls = line.as_slice();
        if starts(ls, "//") || starts(ls, "#") || starts(ls, "/*") {
            idx = idx + 1;
            left = left - 1;
            continue;
        }
        if sig.len() > 0 {
            sig.push(' ');
        }
        let b = next_char_exec(ls, 0, '{');
        let sc = next_char_exec(ls, 0, ';');
        let eq = next_char_exec(ls, 0, '=');
        if b < line.len() {
            let head = trim_end_exec(slice_chars(ls, 0, b).as_slice());
            push_all(&mut sig, head.as_slice());
            break;
        } else if sc < line.len() {
            let head = trim_end_exec(slice_chars(ls, 0, sc + 1).as_slice());
            push_all(&mut sig, head.as_slice());
            break;
        } else if eq < line.len() {
            let before = trim_end_exec(slice_chars(ls, 0, eq).as_slice());
            if has_word(before.as_slice(), "fn ") || has_word(before.as_slice(), "def ") || has_word(before.as_slice(), "let ") {
                push_all(&mut sig, before.as_slice());
                break;
            }
        }
        push_all(&mut sig, ls);
        idx = idx + 1;
        left = left - 1;
    }
    string_of(squeeze_ws(sig.as_slice()).as_slice())
}

// ------------------------------------------------------------ doc comments

pub open spec fn tq() -> Seq<char> {
    "\"\"\""@
}

pub open spec fn ts() -> Seq<char> {
    "'''"@
}

/// A Python docstring read from `i` up to `lim`: from the first line opening
/// a triple quote to the line closing it.
pub open spec fn python_doc(lines: Seq<Seq<char>>, i: int, lim: int, in_doc: bool, marker: Seq<char>, acc: Seq<Seq<char>>) -> Seq<Seq<char>>
    decreases lim - i,
{
    if i >= lim || i < 0 || i >= lines.len() {
        acc
    } else {
        let line = trim(lines[i]);
        if !in_doc {
            if starts_with(line, tq()) || starts_with(line, ts()) {
                let m = if starts_with(line, tq()) { tq() } else { ts() };
                let acc2 = acc.push(line);
                if line.len() > 3 && contains(line.subrange(3, line.len() as int), m) {
                    acc2
                } else {
                    python_doc(lines, i + 1, lim, true, m, acc2)
                }
            } else {
                python_doc(lines, i + 1, lim, in_doc, marker, acc)
            }
        } else {
            let acc2 = acc.push(line);
            if contains(line, marker) { acc2 } else { python_doc(lines, i + 1, lim, in_doc, marker, acc2) }
        }
    }
}

pub open spec fn is_attribute_line(t: Seq<char>) -> bool {
    starts_with(t, "#["@) || starts_with(t, "@"@) || t == "]"@
}

pub open spec fn is_doc_comment_line(t: Seq<char>) -> bool {
    starts_with(t, "///"@) || starts_with(t, "//!"@) || starts_with(t, "/**"@) || starts_with(t, "*"@) || starts_with(t, "//"@)
}

/// The comment block right above line `cur` (inclusive), in source order:
/// attributes and, before the block starts, blank lines are skipped.
pub open spec fn comments_above(lines: Seq<Seq<char>>, cur: int, have: bool) -> Seq<Seq<char>>
    decreases cur + 1,
{
    if cur < 0 || cur >= lines.len() {
        seq![]
    } else {
        let t = trim(lines[cur]);
        if t.len() == 0 {
            if have || cur == 0 { seq![] } else { comments_above(lines, cur - 1, have) }
        } else if is_attribute_line(t) {
            if cur == 0 { seq![] } else { comments_above(lines, cur - 1, have) }
        } else if is_doc_comment_line(t) {
            (if cur == 0 { seq![] } else { comments_above(lines, cur - 1, true) }).push(t)
        } else {
            seq![]
        }
    }
}

/// Doc comments right after the declaration line (`///`, `/**`), up to `end`.
pub open spec fn comments_below(lines: Seq<Seq<char>>, i: int, end: int, acc: Seq<Seq<char>>) -> Seq<Seq<char>>
    decreases end - i,
{
    if i >= end || i < 0 || i >= lines.len() {
        acc
    } else {
        let t = trim(lines[i]);
        if starts_with(t, "///"@) || starts_with(t, "/**"@) {
            comments_below(lines, i + 1, end, acc.push(t))
        } else if acc.len() > 0 {
            acc
        } else {
            comments_below(lines, i + 1, end, acc)
        }
    }
}

/// The raw doc lines of the symbol starting at index `a`.
pub open spec fn raw_doc_lines(lines: Seq<Seq<char>>, a: int, e: int, python: bool) -> Seq<Seq<char>> {
    if python {
        let lim0 = if a + 15 < e + 1 { a + 15 } else { e + 1 };
        let lim = if lim0 < lines.len() { lim0 } else { lines.len() as int };
        python_doc(lines, a, lim, false, seq![], seq![])
    } else {
        let above = if a > 0 { comments_above(lines, a - 1, false) } else { seq![] };
        if above.len() == 0 {
            let end = if a + 5 < lines.len() { a + 5 } else { lines.len() as int };
            comments_below(lines, a, end, seq![])
        } else {
            above
        }
    }
}

/// The prose of doc lines: fenced blocks left out, markers stripped, blank
/// lines dropped, at most `max` lines.
pub open spec fn narrative(raw: Seq<Seq<char>>, i: int, in_fence: bool, acc: Seq<Seq<char>>, max: int) -> Seq<Seq<char>>
    decreases raw.len() - i,
{
    if i < 0 || i >= raw.len() {
        acc
    } else if spec_is_fence_delimiter(raw[i]) {
        narrative(raw, i + 1, !in_fence, acc, max)
    } else if in_fence {
        narrative(raw, i + 1, in_fence, acc, max)
    } else {
        let c = spec_strip_doc_prefix(raw[i]);
        if c.len() > 0 {
            let acc2 = acc.push(c);
            if acc2.len() >= max { acc2 } else { narrative(raw, i + 1, in_fence, acc2, max) }
        } else {
            narrative(raw, i + 1, in_fence, acc, max)
        }
    }
}

/// What [`extract_docs_and_diagram`] returns.
pub open spec fn spec_docs_and_diagram(lines: Seq<Seq<char>>, start: Option<i64>, end: Option<i64>, language: Seq<char>, max: nat) -> (Option<Seq<char>>, bool) {
    match start {
        None => (None, false),
        Some(s) => {
            let a = start_index(s);
            if a >= lines.len() {
                (None, false)
            } else {
                let raw = raw_doc_lines(lines, a, end_index(s, end), lower_seq(language) == "python"@);
                let diagram = exists|k: int| 0 <= k < raw.len() && spec_is_diagram_fence_opening(#[trigger] raw[k]);
                if max == 0 {
                    (None, diagram)
                } else {
                    let n = narrative(raw, 0, false, seq![], max as int);
                    (if n.len() == 0 { None } else { Some(join_with(n, seq!['\n'])) }, diagram)
                }
            }
        },
    }
}

fn trimmed_line(lines: &[String], i: usize) -> (r: Vec<char>)
    requires
        i < lines@.len(),
    ensures
        r@ == trim(views(lines@)[i as int]),
{
    let c = chars_of(lines[i].as_str());
    vtrim(c.as_slice())
}

pub open spec fn line_views(v: Seq<Vec<char>>) -> Seq<Seq<char>> {
    v.map_values(|l: Vec<char>| l@)
}

fn python_doc_exec(lines: &[String], a: usize, lim: usize) -> (r: Vec<Vec<char>>)
    requires
        lim <= lines@.len(),
    ensures
        line_views(r@) == python_doc(views(lines@), a as int, lim as int, false, seq![], seq![]),
{
    let ghost lv = views(lines@);
    let ghost total = python_doc(lv, a as int, lim as int, false, seq![], seq![]);
    let mut out: Vec<Vec<char>> = Vec::new();
    let mut in_doc = false;
    let mut marker: Vec<char> = Vec::new();
    let mut i = a;
    assert(line_views(out@) =~= seq![]);
    assert(marker@ =~= seq![]);
    loop
        invariant_except_break
            python_doc(lv, i as int, lim as int, in_doc, marker@, line_views(out@)) == total,
        invariant
            lv == views(lines@),
            lim <= lines@.len(),
        ensures
            line_views(out@) == total,
        decreases lim - i,
    {
        if i >= lim {
            break;
        }
        let line = trimmed_line(lines, i);
        let ls = line.as_slice();
        let ghost before = line_views(out@);
        let ghost lview = line@;
        if !in_doc {
            let is_tq = starts(ls, "\"\"\"");
            if is_tq || starts(ls, "'''") {
                let m = if is_tq { chars_of("\"\"\"") } else { chars_of("'''") };
                let closes = line.len() > 3 && contains_exec(slice_chars(ls, 3, line.len()).as_slice(), m.as_slice());
                out.push(line);
                assert(line_views(out@) =~= before.push(lview));
                if closes {
                    break;
                }
                in_doc = true;
                marker = m;
            }
        } else {
            let closes = contains_exec(ls, marker.as_slice());
            out.push(line);
            assert(line_views(out@) =~= before.push(lview));
            if closes {
                break;
            }
        }
        i = i + 1;
    }
    out
}

fn comments_above_exec(lines: &[String], a: usize) -> (r: Vec<Vec<char>>)
    requires
        0 < a <= lines@.len(),
    ensures
        line_views(r@) == comments_above(views(lines@), a - 1, false),
{
    let ghost lv = views(lines@);
    let ghost total = comments_above(lv, a - 1, false);
    let mut out: Vec<Vec<char>> = Vec::new();
    let mut have = false;
    let mut cur: usize = a - 1;
    assert(comments_above(lv, cur as int, have) + line_views(out@) =~= total);
    loop
        invariant_except_break
            comments_above(lv, cur as int, have) + line_views(out@) == total,
        invariant
            lv == views(lines@),
            cur < lines@.len(),
        ensures
            line_views(out@) == total,
        decreases cur,
    {
        let t = trimmed_line(lines, cur);
        let ts = t.as_slice();
        let ghost after = line_views(out@);
        if t.len() == 0 {
            if have || cur == 0 {
                assert(comments_above(lv, cur as int, have) =~= seq![]);
                assert(after =~= total);
                break;
            }
            cur = cur - 1;
            continue;
        }
        if starts(ts, "#[") || starts(ts, "@") || str_eq(string_of(ts).as_str(), "]") {
            if cur == 0 {
                assert(after =~= total);
                break;
            }
            cur = cur - 1;
            continue;
        }
        if starts(ts, "///") || starts(ts, "//!") || starts(ts, "/**") || starts(ts, "*") || starts(ts, "//") {
            let ghost tv = t@;
            out.insert(0, t);
            assert(line_views(out@) =~= seq![tv] + after);
            if cur == 0 {
                assert(line_views(out@) =~= total);
                break;
            }
            proof {
                let rest = comments_above(lv, cur - 1, true);
                assert(rest.push(tv) + after =~= rest + (seq![tv] + after));
            }
            have = true;
            cur = cur - 1;
            continue;
        }
        assert(after =~= total);
        break;
    }
    out
}

fn comments_below_exec(lines: &[String], a: usize, end: usize) -> (r: Vec<Vec<char>>)
    requires
        end <= lines@.len(),
    ensures
        line_views(r@) == comments_below(views(lines@), a as int, end as int, seq![]),
{
    let ghost lv = views(lines@);
    let ghost total = comments_below(lv, a as int, end as int, seq![]);
    let mut out: Vec<Vec<char>> = Vec::new();
    let mut i = a;
    assert(line_views(out@) =~= seq![]);
    loop
        invariant_except_break
            comments_below(lv, i as int, end as int, line_views(out@)) == total,
        invariant
            lv == views(lines@),
            end <= lines@.len(),
        ensures
            line_views(out@) == total,
        decreases end - i,
    {
        if i >= end {
            break;
        }
        let t = trimmed_line(lines, i);
        let ghost before = line_views(out@);
        let ghost tv = t@;
        if starts(t.as_slice(), "///") || starts(t.as_slice(), "/**") {
            out.push(t);
            assert(line_views(out@) =~= before.push(tv));
        } else if out.len() > 0 {
            break;
        }
        i = i + 1;
    }
    out
}

fn narrative_exec(raw: &Vec<Vec<char>>, max: usize) -> (r: Vec<Vec<char>>)
    requires
        max > 0,
    ensures
        line_views(r@) == narrative(line_views(raw@), 0, false, seq![], max as int),
{
    let ghost rv = line_views(raw@);
    let ghost total = narrative(rv, 0, false, seq![], max as int);
    let mut out: Vec<Vec<char>> = Vec::new();
    let mut in_fence = false;
    let mut i: usize = 0;
    assert(line_views(out@) =~= seq![]);
    loop
        invariant_except_break
            narrative(rv, i as int, in_fence, line_views(out@), max as int) == total,
            line_views(out@).len() < max,
        invariant
            rv == line_views(raw@),
        ensures
            line_views(out@) == total,
        decreases raw@.len() - i,
    {
        if i >= raw.len() {
            break;
        }
        let line = &raw[i];
        assert(rv[i as int] == line@);
        let s = string_of(line.as_slice());
        if is_fence_delimiter(s.as_str()) {
            in_fence = !in_fence;
            i = i + 1;
            continue;
        }
        if in_fence {
            i = i + 1;
            continue;
        }
        let c = strip_doc_prefix_chars(line.as_slice());
        if c.len() > 0 {
            let ghost before = line_views(out@);
            let ghost cv = c@;
            out.push(c);
            assert(line_views(out@) =~= before.push(cv));
            if out.len() >= max {
                break;
            }
        }
        i = i + 1;
    }
    out
}

fn join_lines(parts: &Vec<Vec<char>>) -> (r: String)
    ensures
        r@ == join_with(line_views(parts@), seq!['\n']),
{
    let ghost pv = line_views(parts@);
    let mut out: Vec<char> = Vec::new();
    let mut i: usize = 0;
    assert(pv.take(0) =~= seq![]);
    while i < parts.len()
        invariant
            0 <= i <= parts@.len(),
            pv == line_views(parts@),
            out@ == join_with(pv.take(i as int), seq!['\n']),
        decreases parts@.len() - i,
    {
        let ghost before = out@;
        if i > 0 {
            out.push('\n');
        }
        push_all(&mut out, parts[i].as_slice());
        proof {
            let t = pv.take(i + 1);
            assert(t.drop_last() =~= pv.take(i as int));
            assert(t.last() == parts@[i as int]@);
            if i == 0 {
                assert(out@ =~= t[0]);
            } else {
                assert(out@ =~= before + seq!['\n'] + t.last());
            }
        }
        i = i + 1;
    }
    assert(pv.take(parts@.len() as int) =~= pv);
    string_of(out.as_slice())
}

/// A symbol's doc comment (at most `max_doc_lines` lines of prose, fenced
/// blocks left out) and whether its docs hold a `text`/`diagram`/`mermaid`
/// fence. Rust-style languages read the comment block above the symbol (or
/// right below its first line); Python reads the docstring after `def`.
pub fn extract_docs_and_diagram(
    lines: &[String],
    start_line: Option<i64>,
    end_line: Option<i64>,
    language: &str,
    max_doc_lines: usize,
) -> (r: (Option<String>, bool))
    requires
        lower_seq(language@) == "python"@ ==> docs_window_ok(lines@.len() as int, start_line, end_line),
    ensures
        ({
            let expected = spec_docs_and_diagram(views(lines@), start_line, end_line, language@, max_doc_lines as nat);
            &&& r.1 == expected.1
            &&& match expected.0 {
                Some(d) => r.0 matches Some(x) && x@ == d,
                None => r.0 is None,
            }
        }),
{
    let start = match start_line {
        Some(s) => s,
        None => { return (None, false); },
    };
    let a64 = start_index_exec(start);
    if a64 >= lines.len() as u64 {
        return (None, false);
    }
    let a = a64 as usize;
    let ghost lv = views(lines@);
    let lang = crate::text::ascii_lower(language);
    let python = str_eq(lang.as_str(), "python");
    let raw: Vec<Vec<char>> = if python {
        let e: i128 = match end_line {
            Some(x) => wrapped_end(start, x) as i128,
            None => a as i128,
        };
        let lim0: i128 = if (a as i128) + 15 < e + 1 { a as i128 + 15 } else { e + 1 };
        let lim: usize = if lim0 < lines.len() as i128 { lim0 as usize } else { lines.len() };
        python_doc_exec(lines, a, lim)
    } else {
        let above = if a > 0 { comments_above_exec(lines, a) } else { Vec::new() };
        assert(a == 0 ==> line_views(above@) =~= seq![]);
        if above.len() == 0 {
            let end = if lines.len() >= 5 && a < lines.len() - 5 { a + 5 } else { lines.len() };
            comments_below_exec(lines, a, end)
        } else {
            above
        }
    };
    let ghost rv = line_views(raw@);
    assert(rv =~= raw_doc_lines(lv, a as int, end_index(start, end_line), lower_seq(language@) == "python"@));
    let mut diagram = false;
    let mut k: usize = 0;
    while k < raw.len()
        invariant
            0 <= k <= raw@.len(),
            rv == line_views(raw@),
            diagram == exists|j: int| 0 <= j < k && spec_is_diagram_fence_opening(#[trigger] rv[j]),
        decreases raw@.len() - k,
    {
        let s = string_of(raw[k].as_slice());
        assert(rv[k as int] == raw@[k as int]@);
        if is_diagram_fence_opening(s.as_str()) {
            diagram = true;
        }
        k = k + 1;
    }
    if max_doc_lines == 0 {
        return (None, diagram);
    }
    let narr = narrative_exec(&raw, max_doc_lines);
    if narr.len() == 0 {
        (None, diagram)
    } else {
        (Some(join_lines(&narr)), diagram)
    }
}

} // verus!
