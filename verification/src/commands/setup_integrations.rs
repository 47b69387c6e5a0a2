//! Integrations `setup` writes into files the user owns: instruction blocks in
//! the assistants' Markdown instruction files and a git post-commit hook.
//! Every write is confined to a marker-delimited block that can be updated or
//! removed without touching the surrounding content, and malformed markers
//! abort instead of guessing. The file I/O happens outside the library; here
//! is what the new content is.

use vstd::prelude::*;
use crate::text::{
    chars_of, concat, contains, contains_exec, ends_with, ends_with_exec, find, find_from, find_from_exec,
    is_first_occ, lemma_first_occ_unique, lines_exec, occurs_at, slice_chars, starts_with, starts_with_exec,
    str_eq, str_lines, str_trim, string_of, trim, trim_bounds,
};

verus! {

pub const MD_BEGIN: &'static str = "<!-- code-rcl:begin -->";
pub const MD_END: &'static str = "<!-- code-rcl:end -->";
pub const SH_BEGIN: &'static str = "# code-rcl:begin";
pub const SH_END: &'static str = "# code-rcl:end";

/// What a setup step did to a file.
#[derive(Debug, PartialEq, Eq, Clone, Copy, Structural)]
pub enum Change {
    Created,
    Updated,
    Unchanged,
    Removed,
    NotPresent,
}

pub open spec fn change_text(c: Change) -> Seq<char> {
    match c {
        Change::Created => "created"@,
        Change::Updated => "updated"@,
        Change::Unchanged => "already up to date"@,
        Change::Removed => "removed"@,
        Change::NotPresent => "nothing to remove"@,
    }
}

impl Change {
    pub fn describe(self) -> (r: &'static str)
        ensures
            r@ == change_text(self),
    {
        match self {
            Change::Created => "created",
            Change::Updated => "updated",
            Change::Unchanged => "already up to date",
            Change::Removed => "removed",
            Change::NotPresent => "nothing to remove",
        }
    }
}

/// Why a file's markers cannot be edited safely.
#[derive(Debug, PartialEq, Eq, Clone, Copy, Structural)]
pub enum MarkerError {
    /// The end marker comes before the begin marker.
    OutOfOrder,
    /// Not exactly one of each marker.
    Unpaired { begins: usize, ends: usize },
}

/// The line ending a file uses: `\r\n` if it holds one anywhere, else `\n`.
pub open spec fn spec_newline_of(content: Seq<char>) -> Seq<char> {
    if crate::text::contains(content, "\r\n"@) { "\r\n"@ } else { "\n"@ }
}

pub fn newline_of(content: &str) -> (r: &'static str)
    ensures
        r@ == spec_newline_of(content@),
{
    let c = chars_of(content);
    let crlf = chars_of("\r\n");
    if crate::text::contains_exec(c.as_slice(), crlf.as_slice()) { "\r\n" } else { "\n" }
}

/// How many times `p` occurs in `s` from `from` on, counted left to right
/// without overlap (`str::matches(p).count()`).
pub open spec fn count_from(s: Seq<char>, p: Seq<char>, from: int) -> nat
    decreases s.len() - from,
{
    if from < 0 || from > s.len() {
        0
    } else if p.len() == 0 {
        (s.len() - from + 1) as nat
    } else {
        match find_from(s, p, from) {
            Some(k) => {
                proof {
                    let c = choose|x: int| is_first_occ(s, p, from, x);
                }
                1 + count_from(s, p, k + p.len())
            },
            None => 0,
        }
    }
}

pub fn count_matches(s: &[char], p: &[char]) -> (r: usize)
    requires
        s@.len() < usize::MAX,
    ensures
        r == count_from(s@, p@, 0),
{
    if p.len() == 0 {
        return s.len() + 1;
    }
    let mut n: usize = 0;
    let mut from: usize = 0;
    let slen = s.len();
    loop
        invariant
            slen == s@.len(),
            from <= s@.len(),
            p@.len() > 0,
            n + count_from(s@, p@, from as int) == count_from(s@, p@, 0),
            n <= from,
        ensures
            n == count_from(s@, p@, 0),
        decreases s@.len() - from,
    {
        match find_from_exec(s, p, from) {
            Some(k) => {
                assert(occurs_at(s@, p@, k as int));
                n = n + 1;
                from = k + p.len();
            },
            None => {
                break;
            },
        }
    }
    n
}

/// Where the marker block sits: from the start of `begin` to the end of
/// `end`; `None` when neither marker occurs; an error when the markers are
/// unpaired, repeated or out of order.
pub open spec fn spec_find_block(c: Seq<char>, b: Seq<char>, e: Seq<char>) -> Result<Option<(int, int)>, MarkerError> {
    let nb = count_from(c, b, 0);
    let ne = count_from(c, e, 0);
    if nb == 0 && ne == 0 {
        Ok(None)
    } else if nb == 1 && ne == 1 {
        let bi = find(c, b)->0;
        let ei = find(c, e)->0;
        if ei < bi { Err(MarkerError::OutOfOrder) } else { Ok(Some((bi, ei + e.len()))) }
    } else {
        Err(MarkerError::Unpaired { begins: nb as usize, ends: ne as usize })
    }
}

pub fn find_block(c: &[char], b: &[char], e: &[char]) -> (r: Result<Option<(usize, usize)>, MarkerError>)
    requires
        c@.len() < usize::MAX,
    ensures
        match spec_find_block(c@, b@, e@) {
            Ok(None) => r == Ok::<Option<(usize, usize)>, MarkerError>(None),
            Ok(Some((x, y))) => r matches Ok(Some((u, v))) && u == x && v == y,
            Err(m) => r == Err::<Option<(usize, usize)>, MarkerError>(m),
        },
        r matches Ok(Some((u, v))) ==> u <= v <= c@.len(),
{
    let clen = c.len();
    let nb = count_matches(c, b);
    let ne = count_matches(c, e);
    if nb == 0 && ne == 0 {
        return Ok(None);
    }
    if nb == 1 && ne == 1 {
        proof {
            // one match of each means `find` sees it
            if b@.len() == 0 {
                assert(c@.subrange(0, 0) =~= b@);
                assert(is_first_occ(c@, b@, 0, 0));
            }
            if e@.len() == 0 {
                assert(c@.subrange(0, 0) =~= e@);
                assert(is_first_occ(c@, e@, 0, 0));
            }
            let cb = choose|x: int| is_first_occ(c@, b@, 0, x);
            let ce = choose|x: int| is_first_occ(c@, e@, 0, x);
        }
        let bi = find_from_exec(c, b, 0).unwrap();
        let ei = find_from_exec(c, e, 0).unwrap();
        assert(occurs_at(c@, e@, ei as int));
        assert(occurs_at(c@, b@, bi as int));
        if ei < bi {
            return Err(MarkerError::OutOfOrder);
        }
        return Ok(Some((bi, ei + e.len())));
    }
    Err(MarkerError::Unpaired { begins: nb, ends: ne })
}

/// `s` with each `\n` written as `nl`.
pub open spec fn with_newlines(s: Seq<char>, nl: Seq<char>) -> Seq<char>
    decreases s.len(),
{
    if s.len() == 0 {
        seq![]
    } else {
        with_newlines(s.drop_last(), nl) + if s.last() == '\n' { nl } else { seq![s.last()] }
    }
}

fn with_newlines_exec(s: &[char], nl: &[char]) -> (r: Vec<char>)
    ensures
        r@ == with_newlines(s@, nl@),
{
    let mut out: Vec<char> = Vec::new();
    let mut i: usize = 0;
    assert(s@.take(0) =~= seq![]);
    while i < s.len()
        invariant
            0 <= i <= s@.len(),
            out@ == with_newlines(s@.take(i as int), nl@),
        decreases s@.len() - i,
    {
        assert(s@.take(i + 1).drop_last() =~= s@.take(i as int));
        if s[i] == '\n' {
            let mut j: usize = 0;
            let ghost before = out@;
            while j < nl.len()
                invariant
                    0 <= j <= nl@.len(),
                    out@ == before + nl@.take(j as int),
                decreases nl@.len() - j,
            {
                out.push(nl[j]);
                j = j + 1;
                assert(out@ =~= before + nl@.take(j as int));
            }
            assert(nl@.take(nl@.len() as int) =~= nl@);
        } else {
            out.push(s[i]);
        }
        i = i + 1;
    }
    assert(s@.take(s@.len() as int) =~= s@);
    out
}

/// The block written between the markers, with the file's line endings.
pub open spec fn block_text(b: Seq<char>, e: Seq<char>, body: Seq<char>, nl: Seq<char>) -> Seq<char> {
    b + nl + with_newlines(body, nl) + nl + e
}

/// The content after inserting or refreshing the block: replacing the old
/// block in place, or appending it after a blank line (or alone, in a blank file).
pub open spec fn upserted(c: Seq<char>, blk: Seq<char>, nl: Seq<char>, at: Option<(int, int)>) -> Seq<char> {
    match at {
        Some((x, y)) => c.subrange(0, x) + blk + c.subrange(y, c.len() as int),
        None => if trim(c).len() == 0 {
            blk + nl
        } else {
            (if ends_with(c, "\n"@) { c } else { c + nl }) + nl + blk + nl
        },
    }
}

/// What inserting or refreshing the block makes of a file (`None`: the file
/// does not exist yet), and whether that is a creation, an update or no change.
pub open spec fn spec_plan_upsert(existing: Option<Seq<char>>, b: Seq<char>, e: Seq<char>, body: Seq<char>) -> Result<(Seq<char>, Change), MarkerError> {
    let c = match existing { Some(x) => x, None => seq![] };
    let nl = spec_newline_of(c);
    match spec_find_block(c, b, e) {
        Err(m) => Err(m),
        Ok(at) => {
            let out = upserted(c, block_text(b, e, body, nl), nl, at);
            Ok((out, match existing {
                None => Change::Created,
                Some(x) => if out == x { Change::Unchanged } else { Change::Updated },
            }))
        },
    }
}

fn push_all(out: &mut Vec<char>, w: &[char])
    ensures
        final(out)@ == old(out)@ + w@,
{
    let mut j: usize = 0;
    while j < w.len()
        invariant
            0 <= j <= w@.len(),
            out@ == old(out)@ + w@.take(j as int),
        decreases w@.len() - j,
    {
        out.push(w[j]);
        j = j + 1;
        assert(out@ =~= old(out)@ + w@.take(j as int));
    }
    assert(w@.take(w@.len() as int) =~= w@);
}

pub fn plan_upsert(existing: Option<&str>, begin: &str, end: &str, body: &str) -> (r: Result<(String, Change), MarkerError>)
    requires
        existing matches Some(x) ==> x@.len() < usize::MAX,
    ensures
        match spec_plan_upsert(match existing { Some(x) => Some(x@), None => None }, begin@, end@, body@) {
            Ok((s, ch)) => r matches Ok((t, k)) && t@ == s && k == ch,
            Err(m) => r == Err::<(String, Change), MarkerError>(m),
        },
{
    let c: Vec<char> = match existing {
        Some(x) => chars_of(x),
        None => Vec::new(),
    };
    let ghost cv = c@;
    assert(cv == (match existing { Some(x) => x@, None => seq![] }));
    let nl_str = newline_of(string_of(c.as_slice()).as_str());
    let nl = chars_of(nl_str);
    let bc = chars_of(begin);
    let ec = chars_of(end);
    let at = match find_block(c.as_slice(), bc.as_slice(), ec.as_slice()) {
        Ok(a) => a,
        Err(m) => { return Err(m); },
    };
    let mut blk: Vec<char> = Vec::new();
    push_all(&mut blk, bc.as_slice());
    push_all(&mut blk, nl.as_slice());
    let bodyc = chars_of(body);
    let wb = with_newlines_exec(bodyc.as_slice(), nl.as_slice());
    push_all(&mut blk, wb.as_slice());
    push_all(&mut blk, nl.as_slice());
    push_all(&mut blk, ec.as_slice());
    assert(blk@ =~= block_text(begin@, end@, body@, nl@));
    let mut out: Vec<char> = Vec::new();
    match at {
        Some((x, y)) => {
            push_all(&mut out, slice_chars(c.as_slice(), 0, x).as_slice());
            push_all(&mut out, blk.as_slice());
            push_all(&mut out, slice_chars(c.as_slice(), y, c.len()).as_slice());
        },
        None => {
            let (ta, tb) = trim_bounds(c.as_slice());
            if ta == tb {
                push_all(&mut out, blk.as_slice());
                push_all(&mut out, nl.as_slice());
            } else {
                push_all(&mut out, c.as_slice());
                let lf = chars_of("\n");
                if !ends_with_exec(c.as_slice(), lf.as_slice()) {
                    push_all(&mut out, nl.as_slice());
                }
                push_all(&mut out, nl.as_slice());
                push_all(&mut out, blk.as_slice());
                push_all(&mut out, nl.as_slice());
            }
        },
    }
    let ghost at_spec = match at { Some((x, y)) => Some((x as int, y as int)), None => None::<(int, int)> };
    assert(out@ =~= upserted(cv, blk@, nl@, at_spec));
    let ch = match existing {
        None => Change::Created,
        Some(x) => if crate::text::str_eq(string_of(out.as_slice()).as_str(), x) { Change::Unchanged } else { Change::Updated },
    };
    Ok((string_of(out.as_slice()), ch))
}

/// What removing the block does to the file.
#[derive(Debug, PartialEq, Eq, Clone)]
pub enum RemovePlan {
    /// No file, or no block in it.
    NotPresent,
    /// Nothing but whitespace would be left: delete the file.
    Delete,
    /// Write what is left.
    Write(String),
}

/// The content left once the block at `(x, y)` is taken out, with the line
/// break after it and the blank separator line before it.
pub open spec fn removed(c: Seq<char>, x: int, y: int) -> Seq<char> {
    let nl = spec_newline_of(c);
    let before0 = c.subrange(0, x);
    let after0 = c.subrange(y, c.len() as int);
    let after = if crate::text::starts_with(after0, "\r\n"@) {
        after0.subrange(2, after0.len() as int)
    } else if crate::text::starts_with(after0, "\n"@) {
        after0.subrange(1, after0.len() as int)
    } else {
        after0
    };
    let before = if ends_with(before0, nl + nl) { before0.subrange(0, before0.len() - nl.len()) } else { before0 };
    before + after
}

pub fn plan_remove(existing: Option<&str>, begin: &str, end: &str) -> (r: Result<RemovePlan, MarkerError>)
    requires
        existing matches Some(x) ==> x@.len() < usize::MAX,
    ensures
        existing is None ==> r == Ok::<RemovePlan, MarkerError>(RemovePlan::NotPresent),
        existing matches Some(x) ==> match spec_find_block(x@, begin@, end@) {
            Err(m) => r == Err::<RemovePlan, MarkerError>(m),
            Ok(None) => r == Ok::<RemovePlan, MarkerError>(RemovePlan::NotPresent),
            Ok(Some((a, b))) => {
                let left = removed(x@, a, b);
                if trim(left).len() == 0 {
                    r == Ok::<RemovePlan, MarkerError>(RemovePlan::Delete)
                } else {
                    r matches Ok(RemovePlan::Write(s)) && s@ == left
                }
            },
        },
{
    let x = match existing {
        Some(x) => x,
        None => { return Ok(RemovePlan::NotPresent); },
    };
    let c = chars_of(x);
    let bc = chars_of(begin);
    let ec = chars_of(end);
    let (a, b) = match find_block(c.as_slice(), bc.as_slice(), ec.as_slice()) {
        Ok(Some(ab)) => ab,
        Ok(None) => { return Ok(RemovePlan::NotPresent); },
        Err(m) => { return Err(m); },
    };
    let nl = chars_of(newline_of(x));
    let before0 = slice_chars(c.as_slice(), 0, a);
    let after0 = slice_chars(c.as_slice(), b, c.len());
    let crlf = chars_of("\r\n");
    let lf = chars_of("\n");
    proof {
        reveal_strlit("\r\n");
        reveal_strlit("\n");
    }
    let after = if crate::text::starts_with_exec(after0.as_slice(), crlf.as_slice()) {
        slice_chars(after0.as_slice(), 2, after0.len())
    } else if crate::text::starts_with_exec(after0.as_slice(), lf.as_slice()) {
        slice_chars(after0.as_slice(), 1, after0.len())
    } else {
        after0
    };
    proof {
        reveal_strlit("\r\n");
        reveal_strlit("\n");
    }
    let mut double: Vec<char> = Vec::new();
    push_all(&mut double, nl.as_slice());
    push_all(&mut double, nl.as_slice());
    let before = if ends_with_exec(before0.as_slice(), double.as_slice()) {
        slice_chars(before0.as_slice(), 0, before0.len() - nl.len())
    } else {
        before0
    };
    let mut left: Vec<char> = Vec::new();
    push_all(&mut left, before.as_slice());
    push_all(&mut left, after.as_slice());
    assert(left@ =~= removed(x@, a as int, b as int));
    let (ta, tb) = trim_bounds(left.as_slice());
    if ta == tb {
        Ok(RemovePlan::Delete)
    } else {
        Ok(RemovePlan::Write(string_of(left.as_slice())))
    }
}

/// A path as a POSIX shell reads it: backslashes become slashes.
pub open spec fn spec_shell_path(p: Seq<char>) -> Seq<char> {
    p.map_values(|c: char| if c == '\\' { '/' } else { c })
}

pub fn shell_path(path: &str) -> (r: String)
    ensures
        r@ == spec_shell_path(path@),
{
    let c = chars_of(path);
    let mut out: Vec<char> = Vec::new();
    let mut i: usize = 0;
    while i < c.len()
        invariant
            0 <= i <= c@.len(),
            c@ == path@,
            out@ == spec_shell_path(path@).take(i as int),
        decreases c@.len() - i,
    {
        out.push(if c[i] == '\\' { '/' } else { c[i] });
        i = i + 1;
        assert(out@ =~= spec_shell_path(path@).take(i as int));
    }
    assert(out@ =~= spec_shell_path(path@));
    string_of(out.as_slice())
}

/// The block the post-commit hook gets: a background `sync` that never
/// blocks or fails the commit.
pub open spec fn spec_git_hook_body(exe_cmd: Seq<char>) -> Seq<char> {
    "# Keep the code-rcl cache fresh in the background; never block or fail the commit.\n(\""@
        + spec_shell_path(exe_cmd) + "\" sync >/dev/null 2>&1 &) || true"@
}

/// See [`spec_git_hook_body`].
pub fn git_hook_body(exe_cmd: &str) -> (r: String)
    ensures
        r@ == spec_git_hook_body(exe_cmd@),
{
    let p = shell_path(exe_cmd);
    let a = crate::text::concat("# Keep the code-rcl cache fresh in the background; never block or fail the commit.\n(\"", p.as_str());
    crate::text::concat(a.as_str(), "\" sync >/dev/null 2>&1 &) || true")
}

/// An existing hook whose first line names an interpreter other than a
/// POSIX shell (`#!` without `sh`, or with `fish`): the block is not added.
pub open spec fn spec_foreign_interpreter(existing: Seq<char>) -> bool {
    let ls = str_lines(existing);
    ls.len() > 0 && starts_with(ls[0], "#!"@) && (!contains(ls[0], "sh"@) || contains(ls[0], "fish"@))
}

/// See [`spec_foreign_interpreter`].
pub fn foreign_interpreter(existing: &str) -> (r: bool)
    ensures
        r == spec_foreign_interpreter(existing@),
{
    let ls = lines_exec(existing);
    proof {
        assert(ls@.len() == str_lines(existing@).len());
        if ls@.len() > 0 {
            assert(ls@[0]@ == str_lines(existing@)[0]);
        }
    }
    if ls.len() == 0 {
        return false;
    }
    let first = ls[0].as_slice();
    let bang = chars_of("#!");
    let sh = chars_of("sh");
    let fish = chars_of("fish");
    starts_with_exec(first, bang.as_slice()) && (!contains_exec(first, sh.as_slice()) || contains_exec(first, fish.as_slice()))
}

/// After the block is removed, only the shebang the install added is left:
/// the hook file can go.
pub fn only_shebang_left(left: &str) -> (r: bool)
    ensures
        r == (trim(left@) == "#!/bin/sh"@),
{
    let t = str_trim(left);
    str_eq(t.as_str(), "#!/bin/sh")
}

} // verus!
