//! `search`: exact symbols, string literals passed to calls, near-miss names,
//! and a plain-text fallback, rendered as Markdown tables.

use vstd::prelude::*;
use crate::analysis::grows;
use crate::commands::digest::extractor::{extract_signature, sig_window_ok, signature_text};
use crate::commands::digest::markdown::{push_chars, push_decimal, push_str};
use crate::text::{
    ascii_lower, chars_of, contains, contains_exec, decimal, decimal_string, lines_exec, lower_seq, str_lines,
    string_of, trim, trim_bounds, slice_chars,
};

verus! {

#[derive(Debug)]
pub struct SearchResult {
    pub query: String,
    pub exact_symbols: Vec<SymbolSearchItem>,
    pub string_literals: Vec<StringLiteralSearchItem>,
    pub fuzzy_suggestions: Vec<FuzzySearchItem>,
    pub grep_matches: Vec<GrepSearchItem>,
}

#[derive(Debug)]
pub struct SymbolSearchItem {
    pub name: String,
    pub kind: String,
    pub path: String,
    pub line: Option<i64>,
    pub is_exported: bool,
    pub signature: String,
}

#[derive(Debug)]
pub struct StringLiteralSearchItem {
    pub value: String,
    pub callee: Option<String>,
    pub path: String,
    pub line: Option<i64>,
}

#[derive(Debug)]
pub struct FuzzySearchItem {
    pub name: String,
    pub kind: String,
    pub path: String,
    pub line: Option<i64>,
    pub distance: usize,
}

#[derive(Debug)]
pub struct GrepSearchItem {
    pub path: String,
    pub line: usize,
    pub snippet: String,
}

// ------------------------------------------------------------ the stages

/// String literals are searched when asked for, or when no symbol matched.
pub fn wants_string_literals(strings: bool, n_exact: usize) -> (r: bool)
    ensures
        r == (strings || n_exact == 0),
{
    strings || n_exact == 0
}

/// Near-miss names are suggested when no symbol matched, unless turned off.
pub fn wants_fuzzy(n_exact: usize, no_fuzzy: bool) -> (r: bool)
    ensures
        r == (n_exact == 0 && !no_fuzzy),
{
    n_exact == 0 && !no_fuzzy
}

/// The text fallback runs when neither symbols nor literals matched, unless
/// turned off.
pub fn wants_grep(n_exact: usize, n_literals: usize, no_grep: bool) -> (r: bool)
    ensures
        r == (n_exact == 0 && n_literals == 0 && !no_grep),
{
    n_exact == 0 && n_literals == 0 && !no_grep
}

/// A hit's signature: the stored one, else the declaration read from the
/// file's lines, else the bare name.
pub fn search_signature(stored: Option<String>, lines: &[String], start_line: Option<i64>, end_line: Option<i64>, name: &str) -> (r: String)
    requires
        stored is None ==> sig_window_ok(lines@.len() as int, start_line, end_line),
    ensures
        stored matches Some(s) ==> r@ == s@,
        stored is None ==> {
            let sig = signature_text(lines@, start_line, end_line);
            r@ == (if sig.len() == 0 { name@ } else { sig })
        },
{
    match stored {
        Some(s) => s,
        None => {
            let sig = extract_signature(lines, start_line, end_line);
            if sig.as_str().is_empty() { name.to_string() } else { sig }
        },
    }
}

// ------------------------------------------------------------ text fallback

/// One text hit: the file, the 1-based line number and the trimmed line.
pub open spec fn hit(path: Seq<char>, line: int, text: Seq<char>) -> (Seq<char>, int, Seq<char>) {
    (path, line, trim(text))
}

/// The lines of one file that contain `q` (ASCII case aside), in order.
pub open spec fn file_hits(path: Seq<char>, lines: Seq<Seq<char>>, q: Seq<char>) -> Seq<(Seq<char>, int, Seq<char>)>
    decreases lines.len(),
{
    if lines.len() == 0 {
        seq![]
    } else {
        let rest = file_hits(path, lines.drop_last(), q);
        if contains(lower_seq(lines.last()), q) {
            rest.push(hit(path, lines.len() as int, lines.last()))
        } else {
            rest
        }
    }
}

/// The hits of each file in turn.
pub open spec fn all_hits(files: Seq<(String, String)>, q: Seq<char>) -> Seq<(Seq<char>, int, Seq<char>)>
    decreases files.len(),
{
    if files.len() == 0 {
        seq![]
    } else {
        all_hits(files.drop_last(), q) + file_hits(files.last().0@, str_lines(files.last().1@), q)
    }
}

pub open spec fn item_view(g: GrepSearchItem) -> (Seq<char>, int, Seq<char>) {
    (g.path@, g.line as int, g.snippet@)
}

pub open spec fn hit_views(v: Seq<GrepSearchItem>) -> Seq<(Seq<char>, int, Seq<char>)> {
    v.map_values(|g: GrepSearchItem| item_view(g))
}

/// The hits kept: the search stops once it holds `limit` of them (and always
/// after the first when `limit` is 0).
pub open spec fn kept(n: int, limit: int) -> int {
    let cap = if limit < 1 { 1 } else { limit };
    if n < cap { n } else { cap }
}

proof fn lemma_file_hits_grow(path: Seq<char>, lines: Seq<Seq<char>>, k: int, q: Seq<char>)
    requires
        0 <= k <= lines.len(),
    ensures
        grows(file_hits(path, lines.take(k), q), file_hits(path, lines, q)),
    decreases lines.len() - k,
{
    if k == lines.len() {
        assert(lines.take(k) =~= lines);
    } else {
        lemma_file_hits_grow(path, lines.drop_last(), k, q);
        assert(lines.drop_last().take(k) =~= lines.take(k));
    }
}

proof fn lemma_all_hits_grow(files: Seq<(String, String)>, f: int, q: Seq<char>)
    requires
        0 <= f <= files.len(),
    ensures
        grows(all_hits(files.take(f), q), all_hits(files, q)),
    decreases files.len() - f,
{
    if f == files.len() {
        assert(files.take(f) =~= files);
    } else {
        lemma_all_hits_grow(files.drop_last(), f, q);
        assert(files.drop_last().take(f) =~= files.take(f));
    }
}

/// Full-text fallback over `(path, content)` pairs: lines that contain the
/// query, ASCII case aside, each with its line number and trimmed text.
pub fn grep_files(files: &Vec<(String, String)>, query: &str, limit: usize) -> (r: Vec<GrepSearchItem>)
    ensures
        hit_views(r@)
            == all_hits(files@, lower_seq(query@)).take(kept(all_hits(files@, lower_seq(query@)).len() as int, limit as int)),
{
    let q = ascii_lower(query);
    let qc = chars_of(q.as_str());
    let ghost qs = lower_seq(query@);
    let mut out: Vec<GrepSearchItem> = Vec::new();
    let mut f: usize = 0;
    while f < files.len()
        invariant
            0 <= f <= files@.len(),
            qc@ == qs,
            qs == lower_seq(query@),
            hit_views(out@) == all_hits(files@.take(f as int), qs),
            out@.len() == 0 || out@.len() < limit,
        decreases files@.len() - f,
    {
        let path = &files[f].0;
        let lines = lines_exec(files[f].1.as_str());
        let ghost lv = lines@.map_values(|l: Vec<char>| l@);
        let ghost head = hit_views(out@);
        assert(files@.take(f + 1).drop_last() =~= files@.take(f as int));
        assert(files@.take(f + 1).last() == files@[f as int]);
        assert(lv.take(0) =~= seq![]);
        let mut i: usize = 0;
        while i < lines.len()
            invariant
                0 <= i <= lines@.len(),
                lv == lines@.map_values(|l: Vec<char>| l@),
                lv == str_lines(files@[f as int].1@),
                qc@ == qs,
                qs == lower_seq(query@),
            qs == lower_seq(query@),
                hit_views(out@) == head + file_hits(path@, lv.take(i as int), qs),
                head == all_hits(files@.take(f as int), qs),
                all_hits(files@.take(f + 1), qs) == head + file_hits(path@, lv, qs),
                out@.len() == 0 || out@.len() < limit,
                0 <= f < files@.len(),
            decreases lines@.len() - i,
        {
            let line_chars = lines[i].as_slice();
            let low = ascii_lower(string_of(line_chars).as_str());
            let lc = chars_of(low.as_str());
            proof {
                assert(lv.take(i + 1).drop_last() =~= lv.take(i as int));
                assert(lv.take(i + 1).last() == lv[i as int]);
            }
            let ghost before = hit_views(out@);
            let ghost prev_len = out@.len();
            assert(lines@[i as int]@ == lv[i as int]);
            if contains_exec(lc.as_slice(), qc.as_slice()) {
                let (b, e) = trim_bounds(line_chars);
                let snippet = string_of(slice_chars(line_chars, b, e).as_slice());
                let item = GrepSearchItem { path: path.clone(), line: i + 1, snippet };
                assert(item_view(item) == hit(path@, (i + 1) as int, lv[i as int]));
                out.push(item);
                assert(hit_views(out@) =~= before.push(item_view(item)));
                assert(file_hits(path@, lv.take(i + 1), qs) == file_hits(path@, lv.take(i as int), qs).push(hit(path@, (i + 1) as int, lv[i as int])));
                assert(hit_views(out@) =~= head + file_hits(path@, lv.take(i + 1), qs));
                if out.len() >= limit {
                    proof {
                        let ov = hit_views(out@);
                        let all = all_hits(files@, qs);
                        lemma_file_hits_grow(path@, lv, i + 1, qs);
                        lemma_all_hits_grow(files@, f + 1, qs);
                        assert(grows(ov, all_hits(files@.take(f + 1), qs)));
                        assert(grows(ov, all));
                        assert(ov =~= all.take(ov.len() as int));
                        assert(out@.len() == prev_len + 1);
                        assert(kept(all.len() as int, limit as int) == ov.len());
                    }
                    return out;
                }
            } else {
                assert(hit_views(out@) =~= head + file_hits(path@, lv.take(i + 1), qs));
            }
            i = i + 1;
        }
        assert(lv.take(lines@.len() as int) =~= lv);
        f = f + 1;
    }
    assert(files@.take(files@.len() as int) =~= files@);
    out
}

// ------------------------------------------------------------ rendering

/// A signed line number as `format!` writes it.
pub open spec fn signed_decimal(i: int) -> Seq<char> {
    if i < 0 { "-"@ + decimal((-i) as nat) } else { decimal(i as nat) }
}

/// `path:L12`, or the bare path when the line is unknown.
pub open spec fn location(path: Seq<char>, line: Option<i64>) -> Seq<char> {
    match line {
        Some(l) => path + ":L"@ + signed_decimal(l as int),
        None => path,
    }
}

/// `s` with each `|` escaped as `\|`, so it stays inside its table cell.
pub open spec fn escape_pipes(s: Seq<char>) -> Seq<char>
    decreases s.len(),
{
    if s.len() == 0 {
        seq![]
    } else {
        escape_pipes(s.drop_last()) + (if s.last() == '|' { "\\|"@ } else { seq![s.last()] })
    }
}

pub open spec fn symbol_row(s: SymbolSearchItem) -> Seq<char> {
    "| **`"@ + s.name@ + "`** | `"@ + s.kind@ + "` | `"@ + location(s.path@, s.line) + "` | "@
        + (if s.is_exported { "public"@ } else { "private"@ }) + " | `"@ + escape_pipes(s.signature@) + "` |\n"@
}

pub open spec fn symbol_rows(v: Seq<SymbolSearchItem>) -> Seq<char>
    decreases v.len(),
{
    if v.len() == 0 { seq![] } else { symbol_rows(v.drop_last()) + symbol_row(v.last()) }
}

pub open spec fn literal_row(l: StringLiteralSearchItem) -> Seq<char> {
    "| \"`"@ + l.value@ + "`\" | `"@ + (match l.callee { Some(c) => c@, None => "-"@ }) + "` | `"@
        + location(l.path@, l.line) + "` |\n"@
}

pub open spec fn literal_rows(v: Seq<StringLiteralSearchItem>) -> Seq<char>
    decreases v.len(),
{
    if v.len() == 0 { seq![] } else { literal_rows(v.drop_last()) + literal_row(v.last()) }
}

pub open spec fn fuzzy_name(s: FuzzySearchItem) -> Seq<char> {
    "`"@ + s.name@ + "` ("@ + s.kind@ + ")"@
}

/// The suggestions' names, joined with `, `.
pub open spec fn fuzzy_names(v: Seq<FuzzySearchItem>) -> Seq<char>
    decreases v.len(),
{
    if v.len() == 0 {
        seq![]
    } else if v.len() == 1 {
        fuzzy_name(v[0])
    } else {
        fuzzy_names(v.drop_last()) + ", "@ + fuzzy_name(v.last())
    }
}

pub open spec fn fuzzy_row(s: FuzzySearchItem) -> Seq<char> {
    "| **`"@ + s.name@ + "`** | `"@ + s.kind@ + "` | `"@ + location(s.path@, s.line) + "` | "@
        + decimal(s.distance as nat) + " |\n"@
}

pub open spec fn fuzzy_rows(v: Seq<FuzzySearchItem>) -> Seq<char>
    decreases v.len(),
{
    if v.len() == 0 { seq![] } else { fuzzy_rows(v.drop_last()) + fuzzy_row(v.last()) }
}

pub open spec fn grep_row(m: GrepSearchItem) -> Seq<char> {
    "- `"@ + m.path@ + ":"@ + decimal(m.line as nat) + "`: `"@ + m.snippet@ + "`\n"@
}

pub open spec fn grep_rows(v: Seq<GrepSearchItem>) -> Seq<char>
    decreases v.len(),
{
    if v.len() == 0 { seq![] } else { grep_rows(v.drop_last()) + grep_row(v.last()) }
}

pub open spec fn symbols_section(res: SearchResult) -> Seq<char> {
    if res.exact_symbols@.len() == 0 {
        seq![]
    } else {
        "Found "@ + decimal(res.exact_symbols@.len()) + " symbol(s) matching `"@ + res.query@ + "`:\n\n"@
            + "| Symbol | Kind | Location | Visibility | Signature |\n"@ + "| :--- | :--- | :--- | :--- | :--- |\n"@
            + symbol_rows(res.exact_symbols@) + "\n"@
    }
}

pub open spec fn literals_section(res: SearchResult) -> Seq<char> {
    if res.string_literals@.len() == 0 {
        seq![]
    } else {
        "Found "@ + decimal(res.string_literals@.len()) + " string literal argument(s) matching `"@ + res.query@
            + "`:\n\n"@ + "| String Literal | Callee / Pattern | Location |\n"@ + "| :--- | :--- | :--- |\n"@
            + literal_rows(res.string_literals@) + "\n"@
    }
}

pub open spec fn fuzzy_section(v: Seq<FuzzySearchItem>) -> Seq<char> {
    if v.len() == 0 {
        seq![]
    } else {
        "Did you mean: "@ + fuzzy_names(v) + "?\n\n"@ + "| Suggested Symbol | Kind | Location | Edit Distance |\n"@
            + "| :--- | :--- | :--- | :--- |\n"@ + fuzzy_rows(v) + "\n"@
    }
}

pub open spec fn grep_section(v: Seq<GrepSearchItem>) -> Seq<char> {
    if v.len() == 0 {
        seq![]
    } else {
        "Hybrid search fallback: found "@ + decimal(v.len()) + " line(s) via full-text grep:\n\n"@ + grep_rows(v)
            + "\n"@
    }
}

/// When nothing matched exactly: say so, then the suggestions and text hits.
pub open spec fn fallback_section(res: SearchResult) -> Seq<char> {
    if res.exact_symbols@.len() == 0 && res.string_literals@.len() == 0 {
        "No exact matches found for `"@ + res.query@ + "`.\n\n"@ + fuzzy_section(res.fuzzy_suggestions@)
            + grep_section(res.grep_matches@)
    } else {
        seq![]
    }
}

/// The whole Markdown answer.
pub open spec fn search_md(res: SearchResult) -> Seq<char> {
    symbols_section(res) + literals_section(res) + fallback_section(res)
}

fn push_signed(out: &mut Vec<char>, i: i64)
    ensures
        final(out)@ == old(out)@ + signed_decimal(i as int),
{
    if i < 0 {
        push_str(out, "-");
        let m: u64 = if i == i64::MIN { 9223372036854775808u64 } else { (0 - i) as u64 };
        push_decimal(out, m);
        assert(out@ =~= old(out)@ + signed_decimal(i as int));
    } else {
        push_decimal(out, i as u64);
    }
}

fn push_location(out: &mut Vec<char>, path: &str, line: Option<i64>)
    ensures
        final(out)@ == old(out)@ + location(path@, line),
{
    push_str(out, path);
    match line {
        Some(l) => {
            push_str(out, ":L");
            push_signed(out, l);
        },
        None => {},
    }
    assert(out@ =~= old(out)@ + location(path@, line));
}

fn push_escaped(out: &mut Vec<char>, s: &str)
    ensures
        final(out)@ == old(out)@ + escape_pipes(s@),
{
    let c = chars_of(s);
    let mut j: usize = 0;
    assert(s@.take(0) =~= seq![]);
    while j < c.len()
        invariant
            0 <= j <= c@.len(),
            c@ == s@,
            out@ == old(out)@ + escape_pipes(s@.take(j as int)),
        decreases c@.len() - j,
    {
        if c[j] == '|' {
            push_str(out, "\\|");
        } else {
            out.push(c[j]);
        }
        proof {
            assert(s@.take(j + 1).drop_last() =~= s@.take(j as int));
            assert(s@.take(j + 1).last() == s@[j as int]);
        }
        j = j + 1;
        assert(out@ =~= old(out)@ + escape_pipes(s@.take(j as int)));
    }
    assert(s@.take(s@.len() as int) =~= s@);
}

fn push_symbol_rows(out: &mut Vec<char>, v: &Vec<SymbolSearchItem>)
    ensures
        final(out)@ == old(out)@ + symbol_rows(v@),
{
    let mut i: usize = 0;
    assert(v@.take(0) =~= seq![]);
    while i < v.len()
        invariant
            0 <= i <= v@.len(),
            out@ == old(out)@ + symbol_rows(v@.take(i as int)),
        decreases v@.len() - i,
    {
        let s = &v[i];
        let ghost before = out@;
        push_str(out, "| **`");
        push_str(out, s.name.as_str());
        push_str(out, "`** | `");
        push_str(out, s.kind.as_str());
        push_str(out, "` | `");
        push_location(out, s.path.as_str(), s.line);
        push_str(out, "` | ");
        push_str(out, if s.is_exported { "public" } else { "private" });
        push_str(out, " | `");
        push_escaped(out, s.signature.as_str());
        push_str(out, "` |\n");
        proof {
            assert(out@ =~= before + symbol_row(*s));
            assert(v@.take(i + 1).drop_last() =~= v@.take(i as int));
            assert(v@.take(i + 1).last() == v@[i as int]);
        }
        i = i + 1;
        assert(out@ =~= old(out)@ + symbol_rows(v@.take(i as int)));
    }
    assert(v@.take(v@.len() as int) =~= v@);
}

fn push_literal_rows(out: &mut Vec<char>, v: &Vec<StringLiteralSearchItem>)
    ensures
        final(out)@ == old(out)@ + literal_rows(v@),
{
    let mut i: usize = 0;
    assert(v@.take(0) =~= seq![]);
    while i < v.len()
        invariant
            0 <= i <= v@.len(),
            out@ == old(out)@ + literal_rows(v@.take(i as int)),
        decreases v@.len() - i,
    {
        let l = &v[i];
        let ghost before = out@;
        push_str(out, "| \"`");
        push_str(out, l.value.as_str());
        push_str(out, "`\" | `");
        match &l.callee {
            Some(c) => push_str(out, c.as_str()),
            None => push_str(out, "-"),
        }
        push_str(out, "` | `");
        push_location(out, l.path.as_str(), l.line);
        push_str(out, "` |\n");
        proof {
            assert(out@ =~= before + literal_row(*l));
            assert(v@.take(i + 1).drop_last() =~= v@.take(i as int));
            assert(v@.take(i + 1).last() == v@[i as int]);
        }
        i = i + 1;
        assert(out@ =~= old(out)@ + literal_rows(v@.take(i as int)));
    }
    assert(v@.take(v@.len() as int) =~= v@);
}

fn push_fuzzy(out: &mut Vec<char>, v: &Vec<FuzzySearchItem>)
    ensures
        final(out)@ == old(out)@ + fuzzy_section(v@),
{
    if v.len() == 0 {
        assert(old(out)@ + fuzzy_section(v@) =~= old(out)@);
        return;
    }
    push_str(out, "Did you mean: ");
    let ghost names_head = out@;
    let mut i: usize = 0;
    while i < v.len()
        invariant
            0 <= i <= v@.len(),
            out@ == names_head + fuzzy_names(v@.take(i as int)),
        decreases v@.len() - i,
    {
        let s = &v[i];
        if i > 0 {
            push_str(out, ", ");
        }
        push_str(out, "`");
        push_str(out, s.name.as_str());
        push_str(out, "` (");
        push_str(out, s.kind.as_str());
        push_str(out, ")");
        proof {
            assert(v@.take(i + 1).drop_last() =~= v@.take(i as int));
            assert(v@.take(i + 1).last() == v@[i as int]);
            if i == 0 {
                assert(v@.take(1)[0] == v@[0]);
            }
        }
        i = i + 1;
        assert(out@ =~= names_head + fuzzy_names(v@.take(i as int)));
    }
    assert(v@.take(v@.len() as int) =~= v@);
    push_str(out, "?\n\n");
    push_str(out, "| Suggested Symbol | Kind | Location | Edit Distance |\n");
    push_str(out, "| :--- | :--- | :--- | :--- |\n");
    let ghost rows_head = out@;
    let mut k: usize = 0;
    assert(v@.take(0) =~= seq![]);
    while k < v.len()
        invariant
            0 <= k <= v@.len(),
            out@ == rows_head + fuzzy_rows(v@.take(k as int)),
        decreases v@.len() - k,
    {
        let s = &v[k];
        let ghost before = out@;
        push_str(out, "| **`");
        push_str(out, s.name.as_str());
        push_str(out, "`** | `");
        push_str(out, s.kind.as_str());
        push_str(out, "` | `");
        push_location(out, s.path.as_str(), s.line);
        push_str(out, "` | ");
        push_decimal(out, s.distance as u64);
        push_str(out, " |\n");
        proof {
            assert(out@ =~= before + fuzzy_row(*s));
            assert(v@.take(k + 1).drop_last() =~= v@.take(k as int));
            assert(v@.take(k + 1).last() == v@[k as int]);
        }
        k = k + 1;
        assert(out@ =~= rows_head + fuzzy_rows(v@.take(k as int)));
    }
    push_str(out, "\n");
    assert(out@ =~= old(out)@ + fuzzy_section(v@));
}

fn push_grep(out: &mut Vec<char>, v: &Vec<GrepSearchItem>)
    ensures
        final(out)@ == old(out)@ + grep_section(v@),
{
    if v.len() == 0 {
        assert(old(out)@ + grep_section(v@) =~= old(out)@);
        return;
    }
    push_str(out, "Hybrid search fallback: found ");
    push_decimal(out, v.len() as u64);
    push_str(out, " line(s) via full-text grep:\n\n");
    let ghost rows_head = out@;
    let mut k: usize = 0;
    assert(v@.take(0) =~= seq![]);
    while k < v.len()
        invariant
            0 <= k <= v@.len(),
            out@ == rows_head + grep_rows(v@.take(k as int)),
        decreases v@.len() - k,
    {
        let m = &v[k];
        let ghost before = out@;
        push_str(out, "- `");
        push_str(out, m.path.as_str());
        push_str(out, ":");
        push_decimal(out, m.line as u64);
        push_str(out, "`: `");
        push_str(out, m.snippet.as_str());
        push_str(out, "`\n");
        proof {
            assert(out@ =~= before + grep_row(*m));
            assert(v@.take(k + 1).drop_last() =~= v@.take(k as int));
            assert(v@.take(k + 1).last() == v@[k as int]);
        }
        k = k + 1;
        assert(out@ =~= rows_head + grep_rows(v@.take(k as int)));
    }
    assert(v@.take(v@.len() as int) =~= v@);
    push_str(out, "\n");
    assert(out@ =~= old(out)@ + grep_section(v@));
}

/// Render a search result as Markdown.
pub fn render_search_result(res: &SearchResult) -> (md: String)
    ensures
        md@ == search_md(*res),
{
    let mut out: Vec<char> = Vec::new();
    if res.exact_symbols.len() > 0 {
        push_str(&mut out, "Found ");
        push_decimal(&mut out, res.exact_symbols.len() as u64);
        push_str(&mut out, " symbol(s) matching `");
        push_str(&mut out, res.query.as_str());
        push_str(&mut out, "`:\n\n");
        push_str(&mut out, "| Symbol | Kind | Location | Visibility | Signature |\n");
        push_str(&mut out, "| :--- | :--- | :--- | :--- | :--- |\n");
        push_symbol_rows(&mut out, &res.exact_symbols);
        push_str(&mut out, "\n");
    }
    assert(out@ =~= symbols_section(*res));
    let ghost after_symbols = out@;
    if res.string_literals.len() > 0 {
        push_str(&mut out, "Found ");
        push_decimal(&mut out, res.string_literals.len() as u64);
        push_str(&mut out, " string literal argument(s) matching `");
        push_str(&mut out, res.query.as_str());
        push_str(&mut out, "`:\n\n");
        push_str(&mut out, "| String Literal | Callee / Pattern | Location |\n");
        push_str(&mut out, "| :--- | :--- | :--- |\n");
        push_literal_rows(&mut out, &res.string_literals);
        push_str(&mut out, "\n");
    }
    assert(out@ =~= after_symbols + literals_section(*res));
    let ghost after_literals = out@;
    if res.exact_symbols.len() == 0 && res.string_literals.len() == 0 {
        push_str(&mut out, "No exact matches found for `");
        push_str(&mut out, res.query.as_str());
        push_str(&mut out, "`.\n\n");
        push_fuzzy(&mut out, &res.fuzzy_suggestions);
        push_grep(&mut out, &res.grep_matches);
    }
    assert(out@ =~= after_literals + fallback_section(*res));
    string_of(out.as_slice())
}

} // verus!
