//! Configuration keys, indexed so a setting read in code can be traced to the
//! file that defines it: `[revsets] run = "@"` is recorded as `revsets.run`,
//! the spelling code uses to read it.
//!
//! This is a line scanner, not a TOML parser: it needs the key paths and their
//! lines, not the values, and it must not fail on a file it half understands.

use vstd::prelude::*;
use crate::analysis::ParsedFile;
use crate::cache::models::NewStringLiteral;
use crate::syntax::{sat_i64, to_i64};
use crate::text::{chars_of, is_space, is_ws, lemma_next_char_bounds, lemma_next_char_shift, next_char, next_char_exec, slice_chars, string_of, trim, trim_bounds};

verus! {

/// Marker stored in `string_literals.callee` for a key *defined* in config,
/// which tells it apart from the same key being *read* in code.
pub const DEFINITION: &'static str = "<toml-key>";

/// Where a trailing `#` comment starts (the length if none), skipping `#`
/// inside a quoted value; `in_quotes` and `quote` are the scan state at `i`.
pub open spec fn comment_cut(l: Seq<char>, i: int, in_quotes: bool, quote: char) -> int
    decreases l.len() - i,
{
    if i >= l.len() {
        l.len() as int
    } else {
        let c = l[i];
        if (c == '"' || c == '\'') && !in_quotes {
            comment_cut(l, i + 1, true, c)
        } else if in_quotes && c == quote {
            comment_cut(l, i + 1, false, quote)
        } else if c == '#' && !in_quotes {
            i
        } else {
            comment_cut(l, i + 1, in_quotes, quote)
        }
    }
}

pub proof fn lemma_comment_cut_bounds(l: Seq<char>, i: int, q: bool, c: char)
    requires
        0 <= i <= l.len(),
    ensures
        i <= comment_cut(l, i, q, c) <= l.len(),
    decreases l.len() - i,
{
    if i < l.len() {
        let x = l[i];
        if (x == '"' || x == '\'') && !q {
            lemma_comment_cut_bounds(l, i + 1, true, x);
        } else if q && x == c {
            lemma_comment_cut_bounds(l, i + 1, false, c);
        } else if x == '#' && !q {
        } else {
            lemma_comment_cut_bounds(l, i + 1, q, c);
        }
    }
}

/// A line without its trailing comment.
pub open spec fn strip_comment(l: Seq<char>) -> Seq<char> {
    l.subrange(0, comment_cut(l, 0, false, '"'))
}

/// Trimmed, and without one pair of matching surrounding quotes.
pub open spec fn unquote(s: Seq<char>) -> Seq<char> {
    let t = trim(s);
    if t.len() >= 2 && t[0] == '"' && t.last() == '"' {
        t.subrange(1, t.len() - 1)
    } else if t.len() >= 2 && t[0] == '\'' && t.last() == '\'' {
        t.subrange(1, t.len() - 1)
    } else {
        t
    }
}

/// `a.b . "c"` read as the key path `a.b.c`: each `.`-separated segment unquoted.
pub open spec fn key_path(s: Seq<char>) -> Seq<char>
    decreases s.len(),
{
    let d = next_char(s, 0, '.');
    if d >= s.len() {
        unquote(s)
    } else {
        proof {
            lemma_next_char_bounds(s, 0, '.');
        }
        unquote(s.subrange(0, d)) + "."@ + key_path(s.subrange(d + 1, s.len() as int))
    }
}

/// The table a `[a.b]` or `[[a.b]]` header line opens.
pub open spec fn table_header(line: Seq<char>) -> Option<Seq<char>> {
    if line.len() >= 4 && line[0] == '[' && line[1] == '[' && line[line.len() - 1] == ']' && line[line.len() - 2] == ']' {
        Some(key_path(line.subrange(2, line.len() - 2)))
    } else if line.len() >= 2 && line[0] == '[' && line[line.len() - 1] == ']' {
        Some(key_path(line.subrange(1, line.len() - 1)))
    } else {
        None
    }
}

pub open spec fn has_ws(s: Seq<char>) -> bool {
    exists|i: int| 0 <= i < s.len() && is_ws(#[trigger] s[i])
}

/// What one line does: open a table (new table, no key), define a key (same
/// table, the key's full path), or nothing. A key with whitespace in it is a
/// continuation line of a multi-line value.
pub open spec fn line_key(raw: Seq<char>, table: Seq<char>) -> (Seq<char>, Option<Seq<char>>) {
    let line = trim(strip_comment(raw));
    if line.len() == 0 {
        (table, None)
    } else {
        match table_header(line) {
            Some(h) => (h, None),
            None => {
                let e = next_char(line, 0, '=');
                if e >= line.len() {
                    (table, None)
                } else {
                    let key = unquote(line.subrange(0, e));
                    if key.len() == 0 || has_ws(key) {
                        (table, None)
                    } else if table.len() == 0 {
                        (table, Some(key))
                    } else {
                        (table, Some(table + "."@ + key))
                    }
                }
            },
        }
    }
}

/// `str::lines` from `p`: the line ends at the next `\n` (a `\r` before it dropped).
pub open spec fn line_at(s: Seq<char>, p: int) -> Seq<char> {
    let k = next_char(s, p, '\n');
    if k < s.len() {
        let l = s.subrange(p, k);
        if l.len() > 0 && l.last() == '\r' { l.drop_last() } else { l }
    } else {
        s.subrange(p, s.len() as int)
    }
}

/// The keys defined from position `p` on, each with its 1-based line, given
/// the current table and that `p` starts line `line_no`.
pub open spec fn keys_from(s: Seq<char>, p: int, line_no: int, table: Seq<char>) -> Seq<(Seq<char>, int)>
    decreases s.len() - p,
{
    if p < 0 || p >= s.len() {
        seq![]
    } else {
        let k = next_char(s, p, '\n');
        let (t2, key) = line_key(line_at(s, p), table);
        let rest = if k < s.len() {
            proof {
                lemma_next_char_bounds(s, p, '\n');
            }
            keys_from(s, k + 1, line_no + 1, t2)
        } else {
            seq![]
        };
        match key {
            Some(v) => seq![(v, line_no)] + rest,
            None => rest,
        }
    }
}

/// The keys a TOML text defines, in order, each with its 1-based line.
pub open spec fn toml_keys(s: Seq<char>) -> Seq<(Seq<char>, int)> {
    keys_from(s, 0, 1, seq![])
}

fn comment_cut_exec(l: &[char]) -> (r: usize)
    ensures
        r == comment_cut(l@, 0, false, '"'),
        r <= l@.len(),
{
    let mut in_quotes = false;
    let mut quote = '"';
    let mut i: usize = 0;
    while i < l.len()
        invariant
            0 <= i <= l@.len(),
            comment_cut(l@, i as int, in_quotes, quote) == comment_cut(l@, 0, false, '"'),
        decreases l@.len() - i,
    {
        let c = l[i];
        if (c == '"' || c == '\'') && !in_quotes {
            in_quotes = true;
            quote = c;
        } else if in_quotes && c == quote {
            in_quotes = false;
        } else if c == '#' && !in_quotes {
            return i;
        }
        i = i + 1;
    }
    i
}

fn unquote_exec(s: &[char]) -> (r: Vec<char>)
    ensures
        r@ == unquote(s@),
{
    let (a, b) = trim_bounds(s);
    let t = slice_chars(s, a, b);
    let n = t.len();
    if n >= 2 && t[0] == '"' && t[n - 1] == '"' {
        slice_chars(t.as_slice(), 1, n - 1)
    } else if n >= 2 && t[0] == '\'' && t[n - 1] == '\'' {
        slice_chars(t.as_slice(), 1, n - 1)
    } else {
        t
    }
}

fn key_path_exec(s: &[char]) -> (r: Vec<char>)
    ensures
        r@ == key_path(s@),
{
    let mut out: Vec<char> = Vec::new();
    let mut p: usize = 0;
    assert(s@.subrange(0, s@.len() as int) =~= s@);
    assert(out@ + key_path(s@) =~= key_path(s@));
    loop
        invariant
            p <= s@.len(),
            out@ + key_path(s@.subrange(p as int, s@.len() as int)) == key_path(s@),
        ensures
            out@ == key_path(s@),
        decreases s@.len() - p,
    {
        let ghost rest = s@.subrange(p as int, s@.len() as int);
        let d = next_char_exec(s, p, '.');
        proof {
            lemma_next_char_bounds(s@, p as int, '.');
            lemma_next_char_shift(s@, p as int, '.');
        }
        if d >= s.len() {
            let u = unquote_exec(slice_chars(s, p, s.len()).as_slice());
            let mut j: usize = 0;
            let ghost before = out@;
            while j < u.len()
                invariant
                    0 <= j <= u@.len(),
                    out@ == before + u@.take(j as int),
                decreases u@.len() - j,
            {
                out.push(u[j]);
                j = j + 1;
                assert(out@ =~= before + u@.take(j as int));
            }
            assert(u@.take(u@.len() as int) =~= u@);
            return out;
        }
        let u = unquote_exec(slice_chars(s, p, d).as_slice());
        let ghost before = out@;
        let mut j: usize = 0;
        while j < u.len()
            invariant
                0 <= j <= u@.len(),
                out@ == before + u@.take(j as int),
            decreases u@.len() - j,
        {
            out.push(u[j]);
            j = j + 1;
            assert(out@ =~= before + u@.take(j as int));
        }
        out.push('.');
        proof {
            reveal_strlit(".");
            assert(u@.take(u@.len() as int) =~= u@);
            assert(rest.subrange(0, d - p) =~= s@.subrange(p as int, d as int));
            assert(rest.subrange(d - p + 1, rest.len() as int) =~= s@.subrange(d + 1, s@.len() as int));
            assert(out@ =~= before + u@ + "."@);
        }
        p = d + 1;
    }
}

fn table_header_exec(l: &[char]) -> (r: Option<Vec<char>>)
    ensures
        r matches Some(v) ==> table_header(l@) == Some(v@),
        r is None ==> table_header(l@) is None,
{
    let n = l.len();
    if n >= 4 && l[0] == '[' && l[1] == '[' && l[n - 1] == ']' && l[n - 2] == ']' {
        Some(key_path_exec(slice_chars(l, 2, n - 2).as_slice()))
    } else if n >= 2 && l[0] == '[' && l[n - 1] == ']' {
        Some(key_path_exec(slice_chars(l, 1, n - 1).as_slice()))
    } else {
        None
    }
}

fn has_ws_exec(s: &[char]) -> (r: bool)
    ensures
        r == has_ws(s@),
{
    let mut i: usize = 0;
    while i < s.len()
        invariant
            0 <= i <= s@.len(),
            forall|j: int| 0 <= j < i ==> !is_ws(#[trigger] s@[j]),
        decreases s@.len() - i,
    {
        if is_space(s[i]) {
            return true;
        }
        i = i + 1;
    }
    false
}

/// What one line does; see [`line_key`].
fn line_key_exec(raw: &[char], table: &Vec<char>) -> (r: (Vec<char>, Option<Vec<char>>))
    ensures
        r.0@ == line_key(raw@, table@).0,
        match line_key(raw@, table@).1 {
            Some(k) => r.1 matches Some(v) && v@ == k,
            None => r.1 is None,
        },
{
    let cut = comment_cut_exec(raw);
    proof {
        lemma_comment_cut_bounds(raw@, 0, false, '"');
    }
    let stripped = slice_chars(raw, 0, cut);
    let (a, b) = trim_bounds(stripped.as_slice());
    let line = slice_chars(stripped.as_slice(), a, b);
    if line.len() == 0 {
        return (table.clone(), None);
    }
    match table_header_exec(line.as_slice()) {
        Some(h) => { return (h, None); },
        None => {},
    }
    let e = next_char_exec(line.as_slice(), 0, '=');
    if e >= line.len() {
        return (table.clone(), None);
    }
    let key = unquote_exec(slice_chars(line.as_slice(), 0, e).as_slice());
    if key.len() == 0 || has_ws_exec(key.as_slice()) {
        return (table.clone(), None);
    }
    if table.len() == 0 {
        (table.clone(), Some(key))
    } else {
        let mut full = table.clone();
        full.push('.');
        let ghost before = full@;
        let mut j: usize = 0;
        while j < key.len()
            invariant
                0 <= j <= key@.len(),
                full@ == before + key@.take(j as int),
            decreases key@.len() - j,
        {
            full.push(key[j]);
            j = j + 1;
            assert(full@ =~= before + key@.take(j as int));
        }
        proof {
            reveal_strlit(".");
            assert(key@.take(key@.len() as int) =~= key@);
            assert(before =~= table@ + "."@);
        }
        (table.clone(), Some(full))
    }
}

/// Index the keys a TOML file defines, each under its table, with the line
/// that defines it. A config file defines no symbols, and always "parses".
pub fn parse(source: &str) -> (p: ParsedFile)
    ensures
        p.wf(),
        p.parse_ok,
        p.symbols@.len() == 0,
        p.imports@.len() == 0,
        p.refs@.len() == 0,
        p.scopes@.len() == 0,
        p.bindings@.len() == 0,
        p.string_literals@.len() == toml_keys(source@).len(),
        forall|i: int| 0 <= i < p.string_literals@.len() ==> {
            let l = #[trigger] p.string_literals@[i];
            &&& l.value@ == toml_keys(source@)[i].0
            &&& l.line == Some(sat_i64(toml_keys(source@)[i].1))
            &&& (l.callee matches Some(c) && c@ == DEFINITION@)
        },
{
    let mut out = ParsedFile::empty(true);
    let s = chars_of(source);
    let n = s.len();
    let mut table: Vec<char> = Vec::new();
    let mut p: usize = 0;
    let mut line_idx: usize = 0;
    let ghost all = toml_keys(source@);
    while p < n
        invariant
            n == s@.len(),
            s@ == source@,
            0 <= p <= n,
            line_idx <= p,
            all == toml_keys(source@),
            out.wf(),
            out.parse_ok,
            out.symbols@.len() == 0,
            out.imports@.len() == 0,
            out.refs@.len() == 0,
            out.scopes@.len() == 0,
            out.bindings@.len() == 0,
            ({
                let done = out.string_literals@.map_values(|l: NewStringLiteral| (l.value@, l.line));
                let todo = keys_from(s@, p as int, line_idx + 1, table@);
                &&& done.len() + todo.len() == all.len()
                &&& forall|i: int| 0 <= i < done.len() ==> #[trigger] done[i] == (all[i].0, Some(sat_i64(all[i].1)))
                &&& forall|i: int| 0 <= i < todo.len() ==> #[trigger] todo[i] == all[done.len() + i]
            }),
            forall|i: int| 0 <= i < out.string_literals@.len() ==>
                ((#[trigger] out.string_literals@[i]).callee matches Some(c) && c@ == DEFINITION@),
        decreases n - p,
    {
        let k = next_char_exec(s.as_slice(), p, '\n');
        let raw = if k < n {
            let l = slice_chars(s.as_slice(), p, k);
            if l.len() > 0 && l[l.len() - 1] == '\r' {
                slice_chars(l.as_slice(), 0, l.len() - 1)
            } else {
                l
            }
        } else {
            slice_chars(s.as_slice(), p, n)
        };
        proof {
            let l = s@.subrange(p as int, k as int);
            if l.len() > 0 && l.last() == '\r' {
                assert(l.subrange(0, l.len() - 1) =~= l.drop_last());
            }
            assert(raw@ == line_at(s@, p as int));
        }
        let ghost done0 = out.string_literals@.map_values(|l: NewStringLiteral| (l.value@, l.line));
        let ghost todo0 = keys_from(s@, p as int, line_idx + 1, table@);
        let (t2, key) = line_key_exec(raw.as_slice(), &table);
        let ghost rest = if k < n { keys_from(s@, k + 1, line_idx + 2, t2@) } else { seq![] };
        match key {
            Some(v) => {
                let lit = NewStringLiteral {
                    value: string_of(v.as_slice()),
                    callee: Some(DEFINITION.to_string()),
                    line: Some(to_i64(line_idx + 1)),
                };
                out.string_literals.push(lit);
                proof {
                    assert(todo0 =~= seq![(v@, line_idx + 1)] + rest);
                    let done = out.string_literals@.map_values(|l: NewStringLiteral| (l.value@, l.line));
                    assert(done =~= done0.push((v@, Some(sat_i64(line_idx + 1)))));
                    assert(todo0[0] == all[done0.len() as int]);
                    assert forall|i: int| 0 <= i < rest.len() implies #[trigger] rest[i] == all[done.len() + i] by {
                        assert(rest[i] == todo0[i + 1]);
                    }
                    assert forall|i: int| 0 <= i < done.len() implies #[trigger] done[i] == (all[i].0, Some(sat_i64(all[i].1))) by {
                        if i < done0.len() {
                            assert(done[i] == done0[i]);
                        }
                    }
                }
            },
            None => {
                proof {
                    assert(todo0 =~= rest);
                    let done = out.string_literals@.map_values(|l: NewStringLiteral| (l.value@, l.line));
                    assert(done =~= done0);
                    assert forall|i: int| 0 <= i < rest.len() implies #[trigger] rest[i] == all[done.len() + i] by {
                        assert(rest[i] == todo0[i]);
                    }
                }
            },
        }
        table = t2;
        if k >= n {
            proof {
                let done = out.string_literals@.map_values(|l: NewStringLiteral| (l.value@, l.line));
                assert(keys_from(s@, n as int, line_idx + 1, table@) =~= seq![]);
            }
            p = n;
        } else {
            p = k + 1;
            line_idx = line_idx + 1;
        }
    }
    proof {
        let done = out.string_literals@.map_values(|l: NewStringLiteral| (l.value@, l.line));
        assert forall|i: int| 0 <= i < out.string_literals@.len() implies {
            let l = #[trigger] out.string_literals@[i];
            &&& l.value@ == all[i].0
            &&& l.line == Some(sat_i64(all[i].1))
        } by {
            assert(done[i] == (out.string_literals@[i].value@, out.string_literals@[i].line));
        }
    }
    out
}

} // verus!
