//! Building a digest from the cache: per file, the listed types (one per
//! name, later declarations replacing earlier ones, in name order) with
//! their methods, and the functions; then the files grouped by directory.

use vstd::prelude::*;
use crate::cache::models::SymbolRow;
use crate::commands::digest::extractor::{
    check_body_has_diagram, extract_docs_and_diagram, extract_signature, signature_text,
    spec_body_has_diagram, spec_docs_and_diagram, views, sig_window_ok, docs_window_ok, body_window_ok,
};
use crate::commands::digest::models::{DigestReport, FileDigest, HubItem, ModuleDigest, SymbolItem, TypeDigest};
use crate::commands::setup_integrations::{shell_path, spec_shell_path};
use crate::commands::explain::names;
use crate::commands::impact::traversal::opt_view;
use crate::rank::{lemma_lex_asym, lemma_lex_irrefl, lemma_lex_total, lemma_lex_trans};
use crate::text::{chars_of, concat, lex_lt, lower_seq, lex_lt_exec, rfind, starts_with, starts_with_exec, str_eq};

verus! {

/// Kinds a digest lists as types.
pub open spec fn is_type_kind(k: Seq<char>) -> bool {
    k == "struct"@ || k == "enum"@ || k == "class"@ || k == "interface"@ || k == "trait"@ || k == "type"@
}

/// Kinds the symbol totals count (the ones the code report counts too).
pub open spec fn is_counted_kind(k: Seq<char>) -> bool {
    is_type_kind(k) || k == "method"@ || k == "function"@
}

/// A symbol the digest lists: every one with `--all`, else the exported.
pub open spec fn listed(s: SymbolRow, all: bool) -> bool {
    all || s.is_exported
}

/// What a digest knows of a file: its lines, language, and how many doc
/// lines it quotes.
pub struct Source<'a> {
    pub lines: &'a Vec<String>,
    pub language: &'a str,
    pub doc_lines: usize,
}

/// A symbol's signature, or `fallback` when its lines give none.
pub open spec fn sig_or(lines: Seq<String>, s: SymbolRow, fallback: Seq<char>) -> Seq<char> {
    let sig = signature_text(lines, s.start_line, s.end_line);
    if sig.len() == 0 { fallback } else { sig }
}

pub open spec fn docs_of(lines: Seq<String>, lang: Seq<char>, max: nat, s: SymbolRow) -> (Option<Seq<char>>, bool) {
    spec_docs_and_diagram(views(lines), s.start_line, s.end_line, lang, max)
}

/// A listed function or method as plain values: name, kind, signature,
/// line, exported, doc, diagram.
#[verifier::opaque]
pub open spec fn item_of(lines: Seq<String>, lang: Seq<char>, max: nat, s: SymbolRow)
    -> (Seq<char>, Seq<char>, Seq<char>, Option<i64>, bool, Option<Seq<char>>, bool)
{
    let d = docs_of(lines, lang, max, s);
    (s.name@, s.kind@, sig_or(lines, s, "fn "@ + s.name@), s.start_line, s.is_exported, d.0, d.1)
}

pub open spec fn item_view(i: SymbolItem) -> (Seq<char>, Seq<char>, Seq<char>, Option<i64>, bool, Option<Seq<char>>, bool) {
    (i.name@, i.kind@, i.signature@, i.line, i.is_exported, opt_view(i.doc), i.has_diagram)
}

pub open spec fn item_views(v: Seq<SymbolItem>) -> Seq<(Seq<char>, Seq<char>, Seq<char>, Option<i64>, bool, Option<Seq<char>>, bool)> {
    v.map_values(|i: SymbolItem| item_view(i))
}

/// A listed type as plain values, without its methods: name, kind,
/// signature, doc, diagram anywhere, diagram in its body.
#[verifier::opaque]
pub open spec fn head_of(lines: Seq<String>, lang: Seq<char>, max: nat, s: SymbolRow)
    -> (Seq<char>, Seq<char>, Seq<char>, Option<Seq<char>>, bool, bool)
{
    let d = docs_of(lines, lang, max, s);
    let f = spec_body_has_diagram(views(lines), s.start_line, s.end_line);
    (s.name@, s.kind@, sig_or(lines, s, s.kind@ + " "@ + s.name@), d.0, d.1 || f, f)
}

pub open spec fn head_view(t: TypeDigest) -> (Seq<char>, Seq<char>, Seq<char>, Option<Seq<char>>, bool, bool) {
    (t.name@, t.kind@, t.signature@, opt_view(t.doc), t.has_diagram, t.has_diagram_in_fields)
}

/// What reading one symbol's lines needs: the window arithmetic of each
/// reader that runs on it stays in range (its signature always, its
/// docstring for Python, its body for a type).
pub open spec fn symbol_window_ok(lines: Seq<String>, language: Seq<char>, s: SymbolRow) -> bool {
    &&& sig_window_ok(lines.len() as int, s.start_line, s.end_line)
    &&& lower_seq(language) == "python"@ ==> docs_window_ok(lines.len() as int, s.start_line, s.end_line)
    &&& is_type_kind(s.kind@) ==> body_window_ok(lines.len() as int, s.start_line, s.end_line)
}

/// What every listed symbol of a file that the digest shows needs.
pub open spec fn windows_ok(lines: Seq<String>, language: Seq<char>, syms: Seq<SymbolRow>, all: bool) -> bool {
    forall|i: int| 0 <= i < syms.len() && listed(#[trigger] syms[i], all) && is_counted_kind(syms[i].kind@)
        ==> symbol_window_ok(lines, language, syms[i])
}

fn sig_or_exec(src: &Source, s: &SymbolRow, fallback: String) -> (r: String)
    requires
        sig_window_ok(src.lines@.len() as int, s.start_line, s.end_line),
    ensures
        r@ == sig_or(src.lines@, *s, fallback@),
{
    let sig = extract_signature(src.lines.as_slice(), s.start_line, s.end_line);
    if sig.as_str().is_empty() { fallback } else { sig }
}

fn item_for(src: &Source, s: &SymbolRow) -> (r: SymbolItem)
    requires
        symbol_window_ok(src.lines@, src.language@, *s),
    ensures
        item_view(r) == item_of(src.lines@, src.language@, src.doc_lines as nat, *s),
{
    let signature = sig_or_exec(src, s, concat("fn ", s.name.as_str()));
    let (doc, has_diagram) = extract_docs_and_diagram(src.lines.as_slice(), s.start_line, s.end_line, src.language, src.doc_lines);
    proof {
        reveal(item_of);
    }
    SymbolItem {
        name: s.name.clone(),
        kind: s.kind.clone(),
        signature,
        line: s.start_line,
        is_exported: s.is_exported,
        doc,
        has_diagram,
    }
}

fn type_for(src: &Source, s: &SymbolRow) -> (r: TypeDigest)
    requires
        symbol_window_ok(src.lines@, src.language@, *s),
        is_type_kind(s.kind@),
    ensures
        head_view(r) == head_of(src.lines@, src.language@, src.doc_lines as nat, *s),
        r.name@ == s.name@,
        r.methods@.len() == 0,
{
    let k = concat(s.kind.as_str(), " ");
    let signature = sig_or_exec(src, s, concat(k.as_str(), s.name.as_str()));
    let (doc, has_diagram) = extract_docs_and_diagram(src.lines.as_slice(), s.start_line, s.end_line, src.language, src.doc_lines);
    let in_fields = check_body_has_diagram(src.lines.as_slice(), s.start_line, s.end_line);
    proof {
        reveal(head_of);
    }
    TypeDigest {
        name: s.name.clone(),
        kind: s.kind.clone(),
        signature,
        doc,
        has_diagram: has_diagram || in_fields,
        has_diagram_in_fields: in_fields,
        methods: Vec::new(),
    }
}

fn is_type_kind_exec(k: &str) -> (r: bool)
    ensures
        r == is_type_kind(k@),
{
    str_eq(k, "struct") || str_eq(k, "enum") || str_eq(k, "class") || str_eq(k, "interface")
        || str_eq(k, "trait") || str_eq(k, "type")
}

/// The last listed type declaration named `n` among `syms`.
pub open spec fn last_type_named(syms: Seq<SymbolRow>, all: bool, n: Seq<char>) -> Option<SymbolRow>
    decreases syms.len(),
{
    if syms.len() == 0 {
        None
    } else if is_type_kind(syms.last().kind@) && listed(syms.last(), all) && syms.last().name@ == n {
        Some(syms.last())
    } else {
        last_type_named(syms.drop_last(), all, n)
    }
}

pub open spec fn names_sorted(ts: Seq<TypeDigest>) -> bool {
    forall|i: int, j: int| 0 <= i < j < ts.len() ==> lex_lt(#[trigger] ts[i].name@, #[trigger] ts[j].name@)
}

/// `t` is the last listed declaration of its name among `syms`.
#[verifier::opaque]
pub open spec fn describes(t: TypeDigest, syms: Seq<SymbolRow>, all: bool, lines: Seq<String>, lang: Seq<char>, max: nat) -> bool {
    match last_type_named(syms, all, t.name@) {
        Some(s) => head_view(t) == head_of(lines, lang, max, s),
        None => false,
    }
}

/// `ts` holds, in name order, one type for each name the listed type
/// declarations of `syms` use: the last declaration of that name.
pub open spec fn types_table(ts: Seq<TypeDigest>, syms: Seq<SymbolRow>, all: bool, lines: Seq<String>, lang: Seq<char>, max: nat) -> bool {
    &&& names_sorted(ts)
    &&& forall|k: int| 0 <= k < ts.len() ==> describes(#[trigger] ts[k], syms, all, lines, lang, max)
    &&& forall|n: Seq<char>| (#[trigger] last_type_named(syms, all, n)) is Some
        ==> exists|k: int| 0 <= k < ts.len() && ts[k].name@ == n
}

proof fn lemma_last_type_step(syms: Seq<SymbolRow>, i: int, all: bool, n: Seq<char>)
    requires
        0 <= i < syms.len(),
    ensures
        last_type_named(syms.take(i + 1), all, n) == if is_type_kind(syms[i].kind@) && listed(syms[i], all) && syms[i].name@ == n {
            Some(syms[i])
        } else {
            last_type_named(syms.take(i), all, n)
        },
{
    assert(syms.take(i + 1).drop_last() =~= syms.take(i));
    assert(syms.take(i + 1).last() == syms[i]);
}

/// Put `t` in its place by name, replacing a type of the same name.
fn put_type(ts: &mut Vec<TypeDigest>, t: TypeDigest)
    requires
        names_sorted(old(ts)@),
    ensures
        names_sorted(final(ts)@),
        exists|k: int| 0 <= k < final(ts)@.len() && final(ts)@[k] == t,
        forall|k: int| 0 <= k < final(ts)@.len() && (#[trigger] final(ts)@[k]).name@ == t.name@ ==> final(ts)@[k] == t,
        forall|k: int| 0 <= k < final(ts)@.len() && (#[trigger] final(ts)@[k]).name@ != t.name@
            ==> exists|j: int| 0 <= j < old(ts)@.len() && old(ts)@[j] == final(ts)@[k],
        forall|j: int| 0 <= j < old(ts)@.len() && (#[trigger] old(ts)@[j]).name@ != t.name@
            ==> exists|k: int| 0 <= k < final(ts)@.len() && final(ts)@[k] == old(ts)@[j],
{
    let ghost o = ts@;
    let mut p: usize = 0;
    while p < ts.len() && lex_lt_exec(ts[p].name.as_str(), t.name.as_str())
        invariant
            p <= ts@.len(),
            ts@ == o,
            forall|i: int| 0 <= i < p ==> lex_lt(#[trigger] o[i].name@, t.name@),
        decreases ts@.len() - p,
    {
        p = p + 1;
    }
    if p < ts.len() && str_eq(ts[p].name.as_str(), t.name.as_str()) {
        let ghost tv = t;
        ts.set(p, t);
        assert(ts@ == o.update(p as int, tv));
        assert forall|i: int, j: int| 0 <= i < j < ts@.len() implies lex_lt(#[trigger] ts@[i].name@, #[trigger] ts@[j].name@) by {
            assert(o[p as int].name@ == tv.name@);
        }
        assert forall|k: int| 0 <= k < ts@.len() && (#[trigger] ts@[k]).name@ == tv.name@ implies ts@[k] == tv by {
            if k != p {
                if k < p {
                    lemma_lex_irrefl(tv.name@);
                    assert(lex_lt(o[k].name@, o[p as int].name@));
                } else {
                    assert(lex_lt(o[p as int].name@, o[k].name@));
                    lemma_lex_irrefl(tv.name@);
                }
            }
        }
        assert forall|k: int| 0 <= k < ts@.len() && (#[trigger] ts@[k]).name@ != tv.name@
            implies exists|j: int| 0 <= j < o.len() && o[j] == ts@[k] by {
            assert(o[k] == ts@[k]);
        }
        assert forall|j: int| 0 <= j < o.len() && (#[trigger] o[j]).name@ != tv.name@
            implies exists|k: int| 0 <= k < ts@.len() && ts@[k] == o[j] by {
            assert(ts@[j] == o[j]);
        }
        assert(ts@[p as int] == tv);
    } else {
        let ghost tv = t;
        proof {
            if p < o.len() {
                lemma_lex_total(o[p as int].name@, tv.name@);
            }
        }
        ts.insert(p, t);
        assert(ts@ == o.insert(p as int, tv));
        assert forall|i: int, j: int| 0 <= i < j < ts@.len() implies lex_lt(#[trigger] ts@[i].name@, #[trigger] ts@[j].name@) by {
            if i < p && j == p {
            } else if i < p && j > p {
                assert(lex_lt(o[i].name@, tv.name@));
                assert(lex_lt(tv.name@, o[p as int].name@));
                lemma_lex_trans(o[i].name@, tv.name@, o[p as int].name@);
                if j - 1 > p {
                    lemma_lex_trans(o[i].name@, o[p as int].name@, o[j - 1].name@);
                }
            } else if i == p && j > p {
                assert(lex_lt(tv.name@, o[p as int].name@));
                if j - 1 > p {
                    lemma_lex_trans(tv.name@, o[p as int].name@, o[j - 1].name@);
                }
            }
        }
        assert forall|k: int| 0 <= k < ts@.len() && (#[trigger] ts@[k]).name@ == tv.name@ implies ts@[k] == tv by {
            if k < p {
                lemma_lex_irrefl(tv.name@);
            } else if k > p {
                assert(lex_lt(tv.name@, o[p as int].name@));
                if k - 1 > p {
                    lemma_lex_trans(tv.name@, o[p as int].name@, o[k - 1].name@);
                }
                lemma_lex_irrefl(tv.name@);
            }
        }
        assert forall|k: int| 0 <= k < ts@.len() && (#[trigger] ts@[k]).name@ != tv.name@
            implies exists|j: int| 0 <= j < o.len() && o[j] == ts@[k] by {
            if k < p {
                assert(o[k] == ts@[k]);
            } else {
                assert(o[k - 1] == ts@[k]);
            }
        }
        assert forall|j: int| 0 <= j < o.len() && (#[trigger] o[j]).name@ != tv.name@
            implies exists|k: int| 0 <= k < ts@.len() && ts@[k] == o[j] by {
            if j < p {
                assert(ts@[j] == o[j]);
            } else {
                assert(ts@[j + 1] == o[j]);
            }
        }
        assert(ts@[p as int] == tv);
    }
}

/// The listed functions of a file, in order.
pub open spec fn functions_of(syms: Seq<SymbolRow>, all: bool) -> Seq<SymbolRow> {
    syms.filter(|s: SymbolRow| listed(s, all) && s.kind@ == "function"@)
}

/// How many symbols of a counted kind `syms` holds.
pub open spec fn counted(syms: Seq<SymbolRow>) -> nat {
    syms.filter(|s: SymbolRow| is_counted_kind(s.kind@)).len()
}

/// How many exported symbols of a counted kind `syms` holds.
pub open spec fn counted_public(syms: Seq<SymbolRow>) -> nat {
    syms.filter(|s: SymbolRow| is_counted_kind(s.kind@) && s.is_exported).len()
}

pub open spec fn items_of(lines: Seq<String>, lang: Seq<char>, max: nat, syms: Seq<SymbolRow>)
    -> Seq<(Seq<char>, Seq<char>, Seq<char>, Option<i64>, bool, Option<Seq<char>>, bool)>
{
    syms.map_values(|s: SymbolRow| item_of(lines, lang, max, s))
}

pub open spec fn no_methods_yet(ts: Seq<TypeDigest>) -> bool {
    forall|k: int| 0 <= k < ts.len() ==> (#[trigger] ts[k]).methods@.len() == 0
}

/// The table stays right for `syms.take(i + 1)` when the declaration at `i`
/// is no listed type.
proof fn lemma_table_skip(ts: Seq<TypeDigest>, syms: Seq<SymbolRow>, i: int, all: bool, lines: Seq<String>, lang: Seq<char>, max: nat)
    requires
        0 <= i < syms.len(),
        types_table(ts, syms.take(i), all, lines, lang, max),
        !(is_type_kind(syms[i].kind@) && listed(syms[i], all)),
    ensures
        types_table(ts, syms.take(i + 1), all, lines, lang, max),
{
    reveal(describes);
    assert forall|k: int| 0 <= k < ts.len() implies describes(#[trigger] ts[k], syms.take(i + 1), all, lines, lang, max) by {
        lemma_last_type_step(syms, i, all, ts[k].name@);
        assert(describes(ts[k], syms.take(i), all, lines, lang, max));
    }
    assert forall|n: Seq<char>| (#[trigger] last_type_named(syms.take(i + 1), all, n)) is Some
        implies exists|k: int| 0 <= k < ts.len() && ts[k].name@ == n by {
        lemma_last_type_step(syms, i, all, n);
    }
}

proof fn lemma_put_keeps(o: Seq<TypeDigest>, x: TypeDigest, t: TypeDigest, syms: Seq<SymbolRow>, i: int, all: bool, lines: Seq<String>, lang: Seq<char>, max: nat)
    requires
        0 <= i < syms.len(),
        is_type_kind(syms[i].kind@) && listed(syms[i], all),
        t.name@ == syms[i].name@,
        head_view(t) == head_of(lines, lang, max, syms[i]),
        x == t || (exists|j: int| 0 <= j < o.len() && o[j] == x && x.name@ != t.name@),
        forall|k: int| 0 <= k < o.len() ==> describes(#[trigger] o[k], syms.take(i), all, lines, lang, max),
    ensures
        describes(x, syms.take(i + 1), all, lines, lang, max),
{
    reveal(describes);
    lemma_last_type_step(syms, i, all, x.name@);
    if x != t {
        let j = choose|j: int| 0 <= j < o.len() && o[j] == x && x.name@ != t.name@;
        assert(describes(o[j], syms.take(i), all, lines, lang, max));
    }
}

proof fn lemma_put_finds(o: Seq<TypeDigest>, ts: Seq<TypeDigest>, t: TypeDigest, syms: Seq<SymbolRow>, i: int, all: bool, n: Seq<char>)
    requires
        0 <= i < syms.len(),
        is_type_kind(syms[i].kind@) && listed(syms[i], all),
        t.name@ == syms[i].name@,
        last_type_named(syms.take(i + 1), all, n) is Some,
        forall|m: Seq<char>| (#[trigger] last_type_named(syms.take(i), all, m)) is Some
            ==> exists|k: int| 0 <= k < o.len() && o[k].name@ == m,
        exists|k: int| 0 <= k < ts.len() && ts[k] == t,
        forall|j: int| 0 <= j < o.len() && (#[trigger] o[j]).name@ != t.name@
            ==> exists|k: int| 0 <= k < ts.len() && ts[k] == o[j],
    ensures
        exists|k: int| 0 <= k < ts.len() && ts[k].name@ == n,
{
    lemma_last_type_step(syms, i, all, n);
    if n != t.name@ {
        assert(last_type_named(syms.take(i), all, n) is Some);
        let j = choose|j: int| 0 <= j < o.len() && o[j].name@ == n;
        let k = choose|k: int| 0 <= k < ts.len() && ts[k] == o[j];
        assert(ts[k].name@ == n);
    } else {
        let k = choose|k: int| 0 <= k < ts.len() && ts[k] == t;
        assert(ts[k].name@ == n);
    }
}

/// The table stays right for `syms.take(i + 1)` once the listed type
/// declared at `i` is put in it.
#[verifier::rlimit(40)]
proof fn lemma_table_put(o: Seq<TypeDigest>, ts: Seq<TypeDigest>, t: TypeDigest, syms: Seq<SymbolRow>, i: int, all: bool, lines: Seq<String>, lang: Seq<char>, max: nat)
    requires
        0 <= i < syms.len(),
        types_table(o, syms.take(i), all, lines, lang, max),
        is_type_kind(syms[i].kind@) && listed(syms[i], all),
        t.name@ == syms[i].name@,
        head_view(t) == head_of(lines, lang, max, syms[i]),
        names_sorted(ts),
        exists|k: int| 0 <= k < ts.len() && ts[k] == t,
        forall|k: int| 0 <= k < ts.len() && (#[trigger] ts[k]).name@ == t.name@ ==> ts[k] == t,
        forall|k: int| 0 <= k < ts.len() && (#[trigger] ts[k]).name@ != t.name@
            ==> exists|j: int| 0 <= j < o.len() && o[j] == ts[k],
        forall|j: int| 0 <= j < o.len() && (#[trigger] o[j]).name@ != t.name@
            ==> exists|k: int| 0 <= k < ts.len() && ts[k] == o[j],
    ensures
        types_table(ts, syms.take(i + 1), all, lines, lang, max),
{
    assert forall|k: int| 0 <= k < ts.len() implies describes(#[trigger] ts[k], syms.take(i + 1), all, lines, lang, max) by {
        if ts[k].name@ != t.name@ {
            let j = choose|j: int| 0 <= j < o.len() && o[j] == ts[k];
            assert(o[j] == ts[k] && ts[k].name@ != t.name@);
        }
        lemma_put_keeps(o, ts[k], t, syms, i, all, lines, lang, max);
    }
    assert forall|n: Seq<char>| (#[trigger] last_type_named(syms.take(i + 1), all, n)) is Some
        implies exists|k: int| 0 <= k < ts.len() && ts[k].name@ == n by {
        lemma_put_finds(o, ts, t, syms, i, all, n);
    }
}

/// The types (without methods yet) and functions a file lists, and how
/// many of its symbols count, all and exported.
fn types_and_functions(src: &Source, symbols: &Vec<SymbolRow>, all: bool) -> (r: (Vec<TypeDigest>, Vec<SymbolItem>, usize, usize))
    requires
        windows_ok(src.lines@, src.language@, symbols@, all),
    ensures
        types_table(r.0@, symbols@, all, src.lines@, src.language@, src.doc_lines as nat),
        no_methods_yet(r.0@),
        item_views(r.1@) == items_of(src.lines@, src.language@, src.doc_lines as nat, functions_of(symbols@, all)),
        r.2 == counted(symbols@),
        r.3 == counted_public(symbols@),
{
    broadcast use Seq::lemma_filter_push, Seq::lemma_filter_len;
    let ghost lines = src.lines@;
    let ghost lang = src.language@;
    let ghost max = src.doc_lines as nat;
    let ghost pf = |s: SymbolRow| listed(s, all) && s.kind@ == "function"@;
    let ghost pc = |s: SymbolRow| is_counted_kind(s.kind@);
    let ghost pp = |s: SymbolRow| is_counted_kind(s.kind@) && s.is_exported;
    let ghost mi = |s: SymbolRow| item_of(lines, lang, max, s);
    let mut ts: Vec<TypeDigest> = Vec::new();
    let mut fs: Vec<SymbolItem> = Vec::new();
    let mut total: usize = 0;
    let mut public: usize = 0;
    let mut i: usize = 0;
    proof {
        reveal(Seq::filter);
        assert(symbols@.take(0) =~= Seq::<SymbolRow>::empty());
        assert(Seq::<SymbolRow>::empty().filter(pf) =~= Seq::<SymbolRow>::empty());
        assert(Seq::<SymbolRow>::empty().filter(pc) =~= Seq::<SymbolRow>::empty());
        assert(Seq::<SymbolRow>::empty().filter(pp) =~= Seq::<SymbolRow>::empty());
        assert(item_views(fs@) =~= items_of(lines, lang, max, functions_of(symbols@.take(0), all)));
    }
    while i < symbols.len()
        invariant
            0 <= i <= symbols@.len(),
            windows_ok(src.lines@, src.language@, symbols@, all),
            lines == src.lines@ && lang == src.language@ && max == src.doc_lines as nat,
            pf == (|s: SymbolRow| listed(s, all) && s.kind@ == "function"@),
            pc == (|s: SymbolRow| is_counted_kind(s.kind@)),
            pp == (|s: SymbolRow| is_counted_kind(s.kind@) && s.is_exported),
            mi == (|s: SymbolRow| item_of(lines, lang, max, s)),
            types_table(ts@, symbols@.take(i as int), all, lines, lang, max),
            no_methods_yet(ts@),
            item_views(fs@) == functions_of(symbols@.take(i as int), all).map_values(mi),
            total == symbols@.take(i as int).filter(pc).len(),
            public == symbols@.take(i as int).filter(pp).len(),
            total <= i && public <= i,
        decreases symbols@.len() - i,
    {
        let s = &symbols[i];
        let ghost before = symbols@.take(i as int);
        proof {
            assert(symbols@.take(i + 1) =~= before.push(*s));
            before.lemma_filter_push(*s, pf);
            before.lemma_filter_push(*s, pc);
            before.lemma_filter_push(*s, pp);
        }
        let k = s.kind.as_str();
        let ty = is_type_kind_exec(k);
        let counts = ty || str_eq(k, "method") || str_eq(k, "function");
        if counts {
            total = total + 1;
            if s.is_exported {
                public = public + 1;
            }
        }
        let show = all || s.is_exported;
        if show && ty {
            assert(listed(symbols@[i as int], all));
            let t = type_for(src, s);
            let ghost o = ts@;
            put_type(&mut ts, t);
            proof {
                lemma_table_put(o, ts@, t, symbols@, i as int, all, lines, lang, max);
                assert forall|k: int| 0 <= k < ts@.len() implies (#[trigger] ts@[k]).methods@.len() == 0 by {
                    if ts@[k].name@ != t.name@ {
                        let j = choose|j: int| 0 <= j < o.len() && o[j] == ts@[k];
                        assert(o[j].methods@.len() == 0);
                    }
                }
            }
        } else {
            proof {
                lemma_table_skip(ts@, symbols@, i as int, all, lines, lang, max);
            }
        }
        if show && str_eq(k, "function") {
            assert(listed(symbols@[i as int], all));
            let item = item_for(src, s);
            let ghost fo = fs@;
            fs.push(item);
            proof {
                assert(item_views(fs@) =~= item_views(fo).push(item_view(item)));
                assert(functions_of(before, all).push(*s).map_values(mi) =~= functions_of(before, all).map_values(mi).push(mi(*s)));
            }
        }
        i = i + 1;
    }
    proof {
        assert(symbols@.take(symbols@.len() as int) =~= symbols@);
    }
    (ts, fs, total, public)
}

/// The listed methods of a file, in order.
pub open spec fn listed_methods(syms: Seq<SymbolRow>, all: bool) -> Seq<SymbolRow> {
    syms.filter(|s: SymbolRow| listed(s, all) && s.kind@ == "method"@)
}

/// The type a method names is listed in `syms`.
pub open spec fn has_listed_type(syms: Seq<SymbolRow>, all: bool, t: Option<String>) -> bool {
    match t {
        Some(x) => last_type_named(syms, all, x@) is Some,
        None => false,
    }
}

/// Among `ms`, the methods of the type named `n`.
pub open spec fn methods_named(ms: Seq<SymbolRow>, n: Seq<char>) -> Seq<SymbolRow> {
    ms.filter(|s: SymbolRow| names(s.owner_type, n))
}

/// Among `ms`, the methods whose type `syms` does not list: they are shown
/// with the functions.
pub open spec fn loose(ms: Seq<SymbolRow>, syms: Seq<SymbolRow>, all: bool) -> Seq<SymbolRow> {
    ms.filter(|s: SymbolRow| !has_listed_type(syms, all, s.owner_type))
}

pub open spec fn same_head(a: TypeDigest, b: TypeDigest) -> bool {
    a.name@ == b.name@ && head_view(a) == head_view(b)
}

proof fn lemma_same_head_describes(a: TypeDigest, b: TypeDigest, syms: Seq<SymbolRow>, all: bool, lines: Seq<String>, lang: Seq<char>, max: nat)
    requires
        same_head(a, b),
        describes(b, syms, all, lines, lang, max),
    ensures
        describes(a, syms, all, lines, lang, max),
{
    reveal(describes);
}

proof fn lemma_described_is_listed(t: TypeDigest, syms: Seq<SymbolRow>, all: bool, lines: Seq<String>, lang: Seq<char>, max: nat)
    requires
        describes(t, syms, all, lines, lang, max),
    ensures
        last_type_named(syms, all, t.name@) is Some,
{
    reveal(describes);
}

fn find_type(ts: &Vec<TypeDigest>, name: &str) -> (r: Option<usize>)
    ensures
        r matches Some(k) ==> k < ts@.len() && ts@[k as int].name@ == name@,
        r is None ==> forall|k: int| 0 <= k < ts@.len() ==> (#[trigger] ts@[k]).name@ != name@,
{
    let mut i: usize = 0;
    while i < ts.len()
        invariant
            0 <= i <= ts@.len(),
            forall|k: int| 0 <= k < i ==> (#[trigger] ts@[k]).name@ != name@,
        decreases ts@.len() - i,
    {
        if str_eq(ts[i].name.as_str(), name) {
            return Some(i);
        }
        i = i + 1;
    }
    None
}

/// Hand each listed method to the type it names, or to the functions when
/// that type is not listed.
#[verifier::rlimit(40)]
fn attach_methods(src: &Source, symbols: &Vec<SymbolRow>, all: bool, ts: &mut Vec<TypeDigest>, fs: &mut Vec<SymbolItem>)
    requires
        windows_ok(src.lines@, src.language@, symbols@, all),
        types_table(old(ts)@, symbols@, all, src.lines@, src.language@, src.doc_lines as nat),
        no_methods_yet(old(ts)@),
    ensures
        types_table(final(ts)@, symbols@, all, src.lines@, src.language@, src.doc_lines as nat),
        forall|k: int| 0 <= k < final(ts)@.len() ==> item_views((#[trigger] final(ts)@[k]).methods@)
            == items_of(src.lines@, src.language@, src.doc_lines as nat, methods_named(listed_methods(symbols@, all), final(ts)@[k].name@)),
        item_views(final(fs)@) == item_views(old(fs)@)
            + items_of(src.lines@, src.language@, src.doc_lines as nat, loose(listed_methods(symbols@, all), symbols@, all)),
{
    broadcast use Seq::lemma_filter_push;
    let ghost lines = src.lines@;
    let ghost lang = src.language@;
    let ghost max = src.doc_lines as nat;
    let ghost pm = |s: SymbolRow| listed(s, all) && s.kind@ == "method"@;
    let ghost pl = |s: SymbolRow| !has_listed_type(symbols@, all, s.owner_type);
    let ghost mi = |s: SymbolRow| item_of(lines, lang, max, s);
    let ghost f0 = item_views(fs@);
    let mut i: usize = 0;
    proof {
        reveal(Seq::filter);
        assert(symbols@.take(0) =~= Seq::<SymbolRow>::empty());
        assert(Seq::<SymbolRow>::empty().filter(pm) =~= Seq::<SymbolRow>::empty());
        assert(Seq::<SymbolRow>::empty().filter(pl) =~= Seq::<SymbolRow>::empty());
        assert forall|k: int| 0 <= k < ts@.len() implies item_views((#[trigger] ts@[k]).methods@)
            == methods_named(symbols@.take(0).filter(pm), ts@[k].name@).map_values(mi) by {
            assert(methods_named(Seq::<SymbolRow>::empty(), ts@[k].name@) =~= Seq::<SymbolRow>::empty());
            assert(item_views(ts@[k].methods@) =~= Seq::empty());
        }
        assert(f0 =~= f0 + Seq::<SymbolRow>::empty().map_values(mi));
    }
    while i < symbols.len()
        invariant
            0 <= i <= symbols@.len(),
            windows_ok(src.lines@, src.language@, symbols@, all),
            lines == src.lines@ && lang == src.language@ && max == src.doc_lines as nat,
            pm == (|s: SymbolRow| listed(s, all) && s.kind@ == "method"@),
            pl == (|s: SymbolRow| !has_listed_type(symbols@, all, s.owner_type)),
            mi == (|s: SymbolRow| item_of(lines, lang, max, s)),
            types_table(ts@, symbols@, all, lines, lang, max),
            forall|k: int| 0 <= k < ts@.len() ==> item_views((#[trigger] ts@[k]).methods@)
                == methods_named(symbols@.take(i as int).filter(pm), ts@[k].name@).map_values(mi),
            item_views(fs@) == f0 + symbols@.take(i as int).filter(pm).filter(pl).map_values(mi),
        decreases symbols@.len() - i,
    {
        let s = &symbols[i];
        let ghost before = symbols@.take(i as int);
        let ghost ms = before.filter(pm);
        proof {
            assert(symbols@.take(i + 1) =~= before.push(*s));
            before.lemma_filter_push(*s, pm);
        }
        if (all || s.is_exported) && str_eq(s.kind.as_str(), "method") {
            assert(listed(symbols@[i as int], all));
            let item = item_for(src, s);
            proof {
                assert(before.push(*s).filter(pm) == ms.push(*s));
                ms.lemma_filter_push(*s, pl);
            }
            let found = match &s.owner_type {
                Some(t) => find_type(ts, t.as_str()),
                None => None,
            };
            match found {
                Some(k) => {
                    let ghost o = ts@;
                    let ghost n = o[k as int].name@;
                    proof {
                        assert(describes(o[k as int], symbols@, all, lines, lang, max));
                        lemma_described_is_listed(o[k as int], symbols@, all, lines, lang, max);
                        assert(has_listed_type(symbols@, all, s.owner_type));
                    }
                    let mut t = ts.remove(k);
                    let ghost tm = t.methods@;
                    t.methods.push(item);
                    ts.insert(k, t);
                    proof {
                        assert(ts@ =~= o.update(k as int, t));
                        assert(same_head(t, o[k as int]));
                        assert forall|j: int| 0 <= j < ts@.len() implies item_views((#[trigger] ts@[j]).methods@)
                            == methods_named(ms.push(*s), ts@[j].name@).map_values(mi) by {
                            ms.lemma_filter_push(*s, |x: SymbolRow| names(x.owner_type, ts@[j].name@));
                            if j == k {
                                assert(item_views(t.methods@) =~= item_views(tm).push(item_view(item)));
                                assert(methods_named(ms, n).push(*s).map_values(mi) =~= methods_named(ms, n).map_values(mi).push(mi(*s)));
                            } else {
                                if j < k {
                                    assert(lex_lt(o[j].name@, n));
                                } else {
                                    assert(lex_lt(n, o[j].name@));
                                }
                                lemma_lex_irrefl(n);
                                assert(ts@[j] == o[j]);
                            }
                        }
                        assert(ms.push(*s).filter(pl) == ms.filter(pl));
                        assert forall|j: int| 0 <= j < ts@.len() implies describes(#[trigger] ts@[j], symbols@, all, lines, lang, max) by {
                            assert(same_head(ts@[j], o[j]));
                            assert(describes(o[j], symbols@, all, lines, lang, max));
                            lemma_same_head_describes(ts@[j], o[j], symbols@, all, lines, lang, max);
                        }
                        assert forall|m: Seq<char>| (#[trigger] last_type_named(symbols@, all, m)) is Some
                            implies exists|j: int| 0 <= j < ts@.len() && ts@[j].name@ == m by {
                            let j = choose|j: int| 0 <= j < o.len() && o[j].name@ == m;
                            assert(ts@[j].name@ == m);
                        }
                        assert forall|a: int, b: int| 0 <= a < b < ts@.len() implies lex_lt(#[trigger] ts@[a].name@, #[trigger] ts@[b].name@) by {
                            assert(lex_lt(o[a].name@, o[b].name@));
                        }
                    }
                },
                None => {
                    proof {
                        if has_listed_type(symbols@, all, s.owner_type) {
                            let x = s.owner_type.unwrap();
                            assert(last_type_named(symbols@, all, x@) is Some);
                            let j = choose|j: int| 0 <= j < ts@.len() && ts@[j].name@ == x@;
                            assert(ts@[j].name@ != x@);
                        }
                        assert(!has_listed_type(symbols@, all, s.owner_type));
                    }
                    let ghost fo = item_views(fs@);
                    fs.push(item);
                    proof {
                        assert(item_views(fs@) =~= fo.push(item_view(item)));
                        assert(ms.push(*s).filter(pl) == ms.filter(pl).push(*s));
                        assert(ms.filter(pl).push(*s).map_values(mi) =~= ms.filter(pl).map_values(mi).push(mi(*s)));
                        assert forall|j: int| 0 <= j < ts@.len() implies item_views((#[trigger] ts@[j]).methods@)
                            == methods_named(ms.push(*s), ts@[j].name@).map_values(mi) by {
                            ms.lemma_filter_push(*s, |x: SymbolRow| names(x.owner_type, ts@[j].name@));
                        }
                    }
                },
            }
        } else {
            proof {
                assert(before.push(*s).filter(pm) == ms);
            }
        }
        i = i + 1;
    }
    proof {
        assert(symbols@.take(symbols@.len() as int) =~= symbols@);
    }
}

/// A file's digest (its path with `/` separators), and how many of its
/// symbols count, all and exported. Types come one per name, the last
/// listed declaration of that name, in name order, each with the listed
/// methods that name it; functions are the listed functions, then the
/// listed methods whose type is not listed.
pub fn file_digest(path: &str, language: &str, lines: &Vec<String>, symbols: &Vec<SymbolRow>, all: bool, doc_lines: usize)
    -> (r: (FileDigest, usize, usize))
    requires
        windows_ok(lines@, language@, symbols@, all),
    ensures
        r.0.path@ == spec_shell_path(path@),
        r.0.language@ == language@,
        types_table(r.0.types@, symbols@, all, lines@, language@, doc_lines as nat),
        forall|k: int| 0 <= k < r.0.types@.len() ==> item_views((#[trigger] r.0.types@[k]).methods@)
            == items_of(lines@, language@, doc_lines as nat, methods_named(listed_methods(symbols@, all), r.0.types@[k].name@)),
        item_views(r.0.functions@) == items_of(lines@, language@, doc_lines as nat, functions_of(symbols@, all))
            + items_of(lines@, language@, doc_lines as nat, loose(listed_methods(symbols@, all), symbols@, all)),
        r.1 == counted(symbols@),
        r.2 == counted_public(symbols@),
{
    let src = Source { lines, language, doc_lines };
    let (mut types, mut functions, total, public) = types_and_functions(&src, symbols, all);
    attach_methods(&src, symbols, all, &mut types, &mut functions);
    let digest = FileDigest {
        path: shell_path(path),
        language: language.to_string(),
        types,
        functions,
    };
    (digest, total, public)
}

/// A file is in a digest of `sub_prefix` (its path read with `/`
/// separators starts with it), or every file is when the prefix is empty.
pub open spec fn spec_in_digest(path: Seq<char>, sub_prefix: Seq<char>) -> bool {
    sub_prefix.len() == 0 || starts_with(spec_shell_path(path), sub_prefix)
}

/// See [`spec_in_digest`].
pub fn in_digest(path: &str, sub_prefix: &str) -> (r: bool)
    ensures
        r == spec_in_digest(path@, sub_prefix@),
{
    if sub_prefix.is_empty() {
        return true;
    }
    let p = shell_path(path);
    let a = chars_of(p.as_str());
    let b = chars_of(sub_prefix);
    starts_with_exec(a.as_slice(), b.as_slice())
}

/// How often `l` occurs in `ls`.
pub open spec fn occurrences(ls: Seq<Seq<char>>, l: Seq<char>) -> nat {
    ls.filter(|x: Seq<char>| x == l).len()
}

/// `l` has an entry in `counts`.
pub open spec fn counted_in(counts: Seq<(String, usize)>, l: Seq<char>) -> bool {
    exists|k: int| 0 <= k < counts.len() && counts[k].0@ == l
}

pub open spec fn string_views(v: Seq<String>) -> Seq<Seq<char>> {
    v.map_values(|s: String| s@)
}

/// The languages of the digested files, each once, with how many files
/// have it.
pub fn language_counts(languages: &Vec<String>) -> (r: Vec<(String, usize)>)
    ensures
        forall|a: int, b: int| 0 <= a < b < r@.len() ==> (#[trigger] r@[a]).0@ != (#[trigger] r@[b]).0@,
        forall|k: int| 0 <= k < r@.len() ==> (#[trigger] r@[k]).1 == occurrences(string_views(languages@), r@[k].0@),
        forall|j: int| 0 <= j < languages@.len() ==> counted_in(r@, (#[trigger] languages@[j])@),
        forall|k: int| 0 <= k < r@.len() ==> (#[trigger] r@[k]).1 > 0,
{
    broadcast use Seq::lemma_filter_push, Seq::lemma_filter_len;
    let ghost lv = string_views(languages@);
    let mut out: Vec<(String, usize)> = Vec::new();
    let mut i: usize = 0;
    while i < languages.len()
        invariant
            0 <= i <= languages@.len(),
            lv == string_views(languages@),
            forall|a: int, b: int| 0 <= a < b < out@.len() ==> (#[trigger] out@[a]).0@ != (#[trigger] out@[b]).0@,
            forall|k: int| 0 <= k < out@.len() ==> (#[trigger] out@[k]).1 == occurrences(lv.take(i as int), out@[k].0@),
            forall|j: int| 0 <= j < i ==> counted_in(out@, (#[trigger] languages@[j])@),
            forall|l: Seq<char>| #[trigger] occurrences(lv.take(i as int), l) > 0 ==> exists|k: int| 0 <= k < out@.len() && (#[trigger] out@[k]).0@ == l,
            forall|k: int| 0 <= k < out@.len() ==> (#[trigger] out@[k]).1 > 0,
        decreases languages@.len() - i,
    {
        let l = &languages[i];
        let ghost before = lv.take(i as int);
        proof {
            assert(lv.take(i + 1) =~= before.push(l@));
            assert forall|x: Seq<char>| #[trigger] occurrences(lv.take(i + 1), x)
                == occurrences(before, x) + (if x == l@ { 1int } else { 0int }) by {
                before.lemma_filter_push(l@, |y: Seq<char>| y == x);
            }
            before.lemma_filter_len(|y: Seq<char>| y == l@);
        }
        let mut k: usize = 0;
        let mut found = false;
        while k < out.len()
            invariant_except_break
                forall|j: int| 0 <= j < k ==> (#[trigger] out@[j]).0@ != l@,
                !found,
            invariant
                0 <= k <= out@.len(),
            ensures
                found ==> k < out@.len() && out@[k as int].0@ == l@,
                !found ==> forall|j: int| 0 <= j < out@.len() ==> (#[trigger] out@[j]).0@ != l@,
            decreases out@.len() - k,
        {
            if str_eq(out[k].0.as_str(), l.as_str()) {
                found = true;
                break;
            }
            k = k + 1;
        }
        if found {
            let ghost o = out@;
            let (name, c) = out.remove(k);
            assert(c == occurrences(before, l@));
            assert(c <= i);
            out.insert(k, (name, c + 1));
            assert(out@ =~= o.update(k as int, (name, (c + 1) as usize)));
            assert forall|x: int| 0 <= x < out@.len() implies (#[trigger] out@[x]).1 == occurrences(lv.take(i + 1), out@[x].0@) by {
                assert(occurrences(lv.take(i + 1), out@[x].0@) == occurrences(before, out@[x].0@) + (if out@[x].0@ == l@ { 1int } else { 0int }));
            }
            assert forall|j: int| 0 <= j < i + 1 implies counted_in(out@, (#[trigger] languages@[j])@) by {
                if j < i {
                    assert(counted_in(o, languages@[j]@));
                    let x = choose|x: int| 0 <= x < o.len() && o[x].0@ == languages@[j]@;
                    assert(out@[x].0@ == languages@[j]@);
                } else {
                    assert(out@[k as int].0@ == languages@[j]@);
                }
            }
            assert forall|y: Seq<char>| #[trigger] occurrences(lv.take(i + 1), y) > 0 implies exists|x: int| 0 <= x < out@.len() && (#[trigger] out@[x]).0@ == y by {
                assert(occurrences(lv.take(i + 1), y) == occurrences(before, y) + (if y == l@ { 1int } else { 0int }));
                if y == l@ {
                    assert(out@[k as int].0@ == y);
                } else {
                    let x = choose|x: int| 0 <= x < o.len() && (#[trigger] o[x]).0@ == y;
                    assert(out@[x].0@ == y);
                }
            }
        } else {
            let ghost o = out@;
            proof {
                assert(occurrences(before, l@) == 0) by {
                    if occurrences(before, l@) > 0 {
                        let x = choose|x: int| 0 <= x < o.len() && (#[trigger] o[x]).0@ == l@;
                    }
                }
            }
            out.push((l.clone(), 1));
            assert forall|x: int| 0 <= x < out@.len() implies (#[trigger] out@[x]).1 == occurrences(lv.take(i + 1), out@[x].0@) by {
                assert(occurrences(lv.take(i + 1), out@[x].0@) == occurrences(before, out@[x].0@) + (if out@[x].0@ == l@ { 1int } else { 0int }));
            }
            assert forall|j: int| 0 <= j < i + 1 implies counted_in(out@, (#[trigger] languages@[j])@) by {
                if j < i {
                    assert(counted_in(o, languages@[j]@));
                    let x = choose|x: int| 0 <= x < o.len() && o[x].0@ == languages@[j]@;
                    assert(out@[x].0@ == languages@[j]@);
                } else {
                    assert(out@[o.len() as int].0@ == languages@[j]@);
                }
            }
            assert forall|y: Seq<char>| #[trigger] occurrences(lv.take(i + 1), y) > 0 implies exists|x: int| 0 <= x < out@.len() && (#[trigger] out@[x]).0@ == y by {
                assert(occurrences(lv.take(i + 1), y) == occurrences(before, y) + (if y == l@ { 1int } else { 0int }));
                if y == l@ {
                    assert(out@[o.len() as int].0@ == y);
                } else {
                    let x = choose|x: int| 0 <= x < o.len() && (#[trigger] o[x]).0@ == y;
                    assert(out@[x].0@ == y);
                }
            }
        }
        i = i + 1;
    }
    assert(lv.take(languages@.len() as int) =~= lv);
    out
}

/// The directory a file is grouped under: its parent with `/`
/// separators, or `.` for a file at the root or a path without parent.
pub open spec fn spec_module_key(parent: Option<Seq<char>>) -> Seq<char> {
    match parent {
        Some(p) => if p.len() == 0 { "."@ } else { spec_shell_path(p) },
        None => "."@,
    }
}

/// See [`spec_module_key`].
pub fn module_key(parent: Option<&str>) -> (r: String)
    ensures
        r@ == spec_module_key(match parent { Some(p) => Some(p@), None => None }),
{
    match parent {
        Some(p) => {
            if p.is_empty() {
                ".".to_string()
            } else {
                shell_path(p)
            }
        },
        None => ".".to_string(),
    }
}

/// `parent`, when there is one, is the start of `path`.
pub open spec fn leads(parent: Option<Seq<char>>, path: Seq<char>) -> bool {
    match parent {
        Some(p) => p.len() <= path.len() && path.take(p.len() as int) == p,
        None => true,
    }
}

/// A relative path of plain `/`-separated names: not empty, no leading or
/// trailing `/`, no empty or `.` component, no backslash or `:` (which some
/// platforms read as separators or prefixes).
pub open spec fn plain_relative(p: Seq<char>) -> bool {
    &&& p.len() > 0
    &&& p[0] != '/'
    &&& p.last() != '/'
    &&& forall|i: int| 0 <= i < p.len() ==> #[trigger] p[i] != '\\' && p[i] != ':'
    &&& forall|i: int| 0 <= i < p.len() - 1 && #[trigger] p[i] == '/' ==> p[i + 1] != '/'
    &&& forall|i: int| 0 <= i < p.len() && #[trigger] p[i] == '.' && (i == 0 || p[i - 1] == '/')
        ==> i + 1 < p.len() && p[i + 1] != '/'
}

/// The text before the last `/` (empty when there is none).
pub open spec fn before_last_slash(p: Seq<char>) -> Seq<char> {
    match rfind(p, "/"@) {
        Some(k) => p.take(k),
        None => Seq::empty(),
    }
}

/// `std::path::Path::parent` of `path`, as text (`Path::new` and `to_str`
/// only convert between `&str` and `&Path`). Its documentation says it
/// returns the path without its final component (`Some("")` for a single
/// relative component) and `None` for the empty string. So it is a leading
/// part of `path`, and for a plain relative path the text before the last
/// `/`. How other paths are cut depends on the platform and is left unsaid.
#[verifier::external_body]
fn path_parent(path: &str) -> (r: Option<String>)
    ensures
        leads(opt_view(r), path@),
        path@.len() == 0 ==> r is None,
        plain_relative(path@) ==> opt_view(r) == Some(before_last_slash(path@)),
{
    std::path::Path::new(path).parent().and_then(|p| p.to_str()).map(|p| p.to_string())
}

/// The directory a file at `path` is grouped under, from its parent.
pub fn module_dir(path: &str) -> (r: String)
    ensures
        exists|p: Option<Seq<char>>| leads(p, path@) && r@ == spec_module_key(p),
        path@.len() == 0 ==> r@ == "."@,
        plain_relative(path@) ==> r@ == spec_module_key(Some(before_last_slash(path@))),
{
    let parent = path_parent(path);
    let r = match &parent {
        Some(p) => module_key(Some(p.as_str())),
        None => module_key(None),
    };
    assert(leads(opt_view(parent), path@) && r@ == spec_module_key(opt_view(parent)));
    r
}

pub open spec fn dirs_sorted(ms: Seq<ModuleDigest>) -> bool {
    forall|i: int, j: int| 0 <= i < j < ms.len() ==> lex_lt(#[trigger] ms[i].directory@, #[trigger] ms[j].directory@)
}

pub open spec fn in_dir(d: Seq<char>) -> spec_fn((String, FileDigest)) -> bool {
    |e: (String, FileDigest)| e.0@ == d
}

/// The entries under directory `d`, in order.
pub open spec fn entries_in(entries: Seq<(String, FileDigest)>, d: Seq<char>) -> Seq<(String, FileDigest)> {
    entries.filter(in_dir(d))
}

/// The files of `entries` under directory `d`, in order.
pub open spec fn files_in(entries: Seq<(String, FileDigest)>, d: Seq<char>) -> Seq<FileDigest> {
    entries_in(entries, d).map_values(|e: (String, FileDigest)| e.1)
}

/// `d` has a module in `ms`.
pub open spec fn has_module(ms: Seq<ModuleDigest>, d: Seq<char>) -> bool {
    exists|k: int| 0 <= k < ms.len() && ms[k].directory@ == d
}

/// `ms` are the files of `entries` grouped by directory: directories in
/// order, each with its files in the order of `entries`, none empty, none
/// missing.
pub open spec fn grouped(ms: Seq<ModuleDigest>, entries: Seq<(String, FileDigest)>) -> bool {
    &&& dirs_sorted(ms)
    &&& forall|k: int| 0 <= k < ms.len() ==> (#[trigger] ms[k]).files@ == files_in(entries, ms[k].directory@)
    &&& forall|k: int| 0 <= k < ms.len() ==> (#[trigger] ms[k]).files@.len() > 0
    &&& forall|j: int| 0 <= j < entries.len() ==> has_module(ms, (#[trigger] entries[j]).0@)
}

fn find_module(ms: &Vec<ModuleDigest>, d: &str) -> (r: (bool, usize))
    requires
        dirs_sorted(ms@),
    ensures
        r.1 <= ms@.len(),
        forall|k: int| 0 <= k < r.1 ==> lex_lt(#[trigger] ms@[k].directory@, d@),
        r.0 ==> r.1 < ms@.len() && ms@[r.1 as int].directory@ == d@,
        !r.0 ==> (r.1 < ms@.len() ==> lex_lt(d@, ms@[r.1 as int].directory@)),
{
    let mut p: usize = 0;
    while p < ms.len() && lex_lt_exec(ms[p].directory.as_str(), d)
        invariant
            p <= ms@.len(),
            forall|k: int| 0 <= k < p ==> lex_lt(#[trigger] ms@[k].directory@, d@),
        decreases ms@.len() - p,
    {
        p = p + 1;
    }
    if p < ms.len() && str_eq(ms[p].directory.as_str(), d) {
        (true, p)
    } else {
        proof {
            if p < ms@.len() {
                lemma_lex_total(ms@[p as int].directory@, d@);
            }
        }
        (false, p)
    }
}

/// The files grouped by directory, directories in order, the files of one
/// directory in the order given.
#[verifier::rlimit(40)]
pub fn group_modules(entries: Vec<(String, FileDigest)>) -> (r: Vec<ModuleDigest>)
    ensures
        grouped(r@, entries@),
{
    broadcast use Seq::lemma_filter_push;
    let ghost all = entries@;
    assert(all.len() == entries.len());
    let ghost sec = |e: (String, FileDigest)| e.1;
    let mut rest = entries;
    let mut ms: Vec<ModuleDigest> = Vec::new();
    let mut i: usize = 0;
    proof {
        reveal(Seq::filter);
        assert(all.take(0) =~= Seq::<(String, FileDigest)>::empty());
        assert(rest@ =~= all.skip(0));
    }
    while rest.len() > 0
        invariant
            i <= all.len(),
            all.len() <= usize::MAX,
            rest@ == all.skip(i as int),
            sec == (|e: (String, FileDigest)| e.1),
            dirs_sorted(ms@),
            forall|k: int| 0 <= k < ms@.len() ==> (#[trigger] ms@[k]).files@
                == all.take(i as int).filter(in_dir(ms@[k].directory@)).map_values(sec),
            forall|k: int| 0 <= k < ms@.len() ==> (#[trigger] ms@[k]).files@.len() > 0,
            forall|j: int| 0 <= j < i ==> has_module(ms@, (#[trigger] all[j]).0@),
            forall|d: Seq<char>| !has_module(ms@, d) ==> #[trigger] entries_in(all.take(i as int), d).len() == 0,
        decreases rest@.len(),
    {
        let e = rest.remove(0);
        let ghost before = all.take(i as int);
        proof {
            assert(all.skip(i as int)[0] == e);
            assert(all[i as int] == e);
            assert(all.take(i + 1) =~= before.push(e));
            assert(rest@ =~= all.skip(i + 1));
        }
        let (d, f) = e;
        let (found, k) = find_module(&ms, d.as_str());
        let ghost o = ms@;
        if found {
            let mut m = ms.remove(k);
            let ghost mf = m.files@;
            m.files.push(f);
            ms.insert(k, m);
            proof {
                assert(ms@ =~= o.update(k as int, m));
                assert forall|a: int, b: int| 0 <= a < b < ms@.len() implies lex_lt(#[trigger] ms@[a].directory@, #[trigger] ms@[b].directory@) by {
                    assert(lex_lt(o[a].directory@, o[b].directory@));
                }
                assert forall|x: int| 0 <= x < ms@.len() implies (#[trigger] ms@[x]).files@
                    == all.take(i + 1).filter(in_dir(ms@[x].directory@)).map_values(sec) by {
                    let dx = ms@[x].directory@;
                    before.lemma_filter_push(e, in_dir(dx));
                    if x == k {
                        let fb = before.filter(in_dir(dx));
                        assert(fb.push(e).map_values(sec) =~= fb.map_values(sec).push(f));
                        assert(m.files@ =~= mf.push(f));
                    } else {
                        if x < k {
                            assert(lex_lt(o[x].directory@, d@));
                        } else {
                            assert(lex_lt(d@, o[x].directory@));
                        }
                        lemma_lex_irrefl(d@);
                        assert(ms@[x] == o[x]);
                    }
                }
                assert forall|j: int| 0 <= j < i + 1 implies has_module(ms@, (#[trigger] all[j]).0@) by {
                    if j < i {
                        assert(has_module(o, all[j].0@));
                        let x = choose|x: int| 0 <= x < o.len() && o[x].directory@ == all[j].0@;
                        assert(ms@[x].directory@ == all[j].0@);
                    } else {
                        assert(ms@[k as int].directory@ == all[j].0@);
                    }
                }
                assert forall|dd: Seq<char>| !has_module(ms@, dd) implies #[trigger] entries_in(all.take(i + 1), dd).len() == 0 by {
                    before.lemma_filter_push(e, in_dir(dd));
                    assert(!has_module(o, dd) ==> entries_in(before, dd).len() == 0);
                    if has_module(o, dd) {
                        let x = choose|x: int| 0 <= x < o.len() && o[x].directory@ == dd;
                        assert(ms@[x].directory@ == dd);
                    }
                    assert(ms@[k as int].directory@ == d@);
                }
            }
        } else {
            let ghost dv = d@;
            let m = ModuleDigest { directory: d, files: vec![f] };
            ms.insert(k, m);
            proof {
                assert(ms@ =~= o.insert(k as int, m));
                assert(!has_module(o, dv)) by {
                    if has_module(o, dv) {
                        let x = choose|x: int| 0 <= x < o.len() && o[x].directory@ == dv;
                        lemma_lex_irrefl(dv);
                        if x < k {
                        } else if x > k {
                            lemma_lex_trans(dv, o[k as int].directory@, o[x].directory@);
                        }
                    }
                }
                assert forall|a: int, b: int| 0 <= a < b < ms@.len() implies lex_lt(#[trigger] ms@[a].directory@, #[trigger] ms@[b].directory@) by {
                    if a < k && b == k {
                    } else if a < k && b > k {
                        if k < o.len() {
                            lemma_lex_trans(o[a].directory@, dv, o[k as int].directory@);
                            if b - 1 > k {
                                lemma_lex_trans(o[a].directory@, o[k as int].directory@, o[b - 1].directory@);
                            }
                        }
                    } else if a == k && b > k {
                        if b - 1 > k {
                            lemma_lex_trans(dv, o[k as int].directory@, o[b - 1].directory@);
                        }
                    }
                }
                assert forall|x: int| 0 <= x < ms@.len() implies (#[trigger] ms@[x]).files@
                    == all.take(i + 1).filter(in_dir(ms@[x].directory@)).map_values(sec) by {
                    let dx = ms@[x].directory@;
                    before.lemma_filter_push(e, in_dir(dx));
                    if x == k {
                        assert(entries_in(before, dv).len() == 0);
                        let fb = before.filter(in_dir(dv));
                        assert(fb =~= Seq::<(String, FileDigest)>::empty());
                        assert(fb.push(e).map_values(sec) =~= seq![f]);
                        assert(ms@[x].files@ =~= seq![f]);
                    } else {
                        let ox = if x < k { x } else { x - 1 };
                        assert(ms@[x] == o[ox]);
                        assert(o[ox].directory@ != dv);
                    }
                }
                assert forall|x: int| 0 <= x < ms@.len() implies (#[trigger] ms@[x]).files@.len() > 0 by {
                    if x < k {
                        assert(ms@[x] == o[x]);
                    } else if x > k {
                        assert(ms@[x] == o[x - 1]);
                    }
                }
                assert forall|j: int| 0 <= j < i + 1 implies has_module(ms@, (#[trigger] all[j]).0@) by {
                    if j < i {
                        assert(has_module(o, all[j].0@));
                        let x = choose|x: int| 0 <= x < o.len() && o[x].directory@ == all[j].0@;
                        if x < k {
                            assert(ms@[x].directory@ == all[j].0@);
                        } else {
                            assert(ms@[x + 1].directory@ == all[j].0@);
                        }
                    } else {
                        assert(ms@[k as int].directory@ == all[j].0@);
                    }
                }
                assert forall|dd: Seq<char>| !has_module(ms@, dd) implies #[trigger] entries_in(all.take(i + 1), dd).len() == 0 by {
                    before.lemma_filter_push(e, in_dir(dd));
                    assert(!has_module(o, dd) ==> entries_in(before, dd).len() == 0);
                    if has_module(o, dd) {
                        let x = choose|x: int| 0 <= x < o.len() && o[x].directory@ == dd;
                        if x < k {
                            assert(ms@[x].directory@ == dd);
                        } else {
                            assert(ms@[x + 1].directory@ == dd);
                        }
                    }
                    assert(ms@[k as int].directory@ == dv);
                }
            }
        }
        i = i + 1;
    }
    proof {
        assert(all.take(i as int) =~= all);
    }
    ms
}

/// The sum of the first (`which` false) or second counts.
pub open spec fn sum_counts(v: Seq<(usize, usize)>, second: bool) -> nat
    decreases v.len(),
{
    if v.len() == 0 {
        0
    } else {
        sum_counts(v.drop_last(), second) + (if second { v.last().1 } else { v.last().0 }) as nat
    }
}

/// A digest of the files given: their count, the symbol totals summed from
/// each file's counts (all, exported), and the files grouped by directory.
pub fn digest_report(
    project: String,
    languages: Vec<(String, usize)>,
    hubs: Vec<HubItem>,
    entries: Vec<(String, FileDigest)>,
    counts: &Vec<(usize, usize)>,
) -> (r: DigestReport)
    requires
        counts@.len() == entries@.len(),
        sum_counts(counts@, false) <= usize::MAX,
        sum_counts(counts@, true) <= usize::MAX,
    ensures
        r.project@ == project@,
        r.total_files == entries@.len(),
        r.total_symbols == sum_counts(counts@, false),
        r.public_symbols == sum_counts(counts@, true),
        r.languages@ == languages@,
        r.hubs@ == hubs@,
        grouped(r.modules@, entries@),
{
    let mut total: usize = 0;
    let mut public: usize = 0;
    let mut i: usize = 0;
    assert(counts@.take(0) =~= Seq::<(usize, usize)>::empty());
    while i < counts.len()
        invariant
            0 <= i <= counts@.len(),
            total == sum_counts(counts@.take(i as int), false),
            public == sum_counts(counts@.take(i as int), true),
            sum_counts(counts@, false) <= usize::MAX,
            sum_counts(counts@, true) <= usize::MAX,
        decreases counts@.len() - i,
    {
        proof {
            assert(counts@.take(i + 1).drop_last() =~= counts@.take(i as int));
            lemma_sum_prefix(counts@, i + 1, false);
            lemma_sum_prefix(counts@, i + 1, true);
        }
        total = total + counts[i].0;
        public = public + counts[i].1;
        i = i + 1;
    }
    assert(counts@.take(counts@.len() as int) =~= counts@);
    let total_files = entries.len();
    DigestReport {
        project,
        total_files,
        total_symbols: total,
        public_symbols: public,
        languages,
        hubs,
        modules: group_modules(entries),
    }
}

proof fn lemma_sum_prefix(v: Seq<(usize, usize)>, n: int, second: bool)
    requires
        0 <= n <= v.len(),
    ensures
        sum_counts(v.take(n), second) <= sum_counts(v, second),
    decreases v.len() - n,
{
    if n < v.len() {
        lemma_sum_prefix(v, n + 1, second);
        assert(v.take(n + 1).drop_last() =~= v.take(n));
    } else {
        assert(v.take(n) =~= v);
    }
}

} // verus!
