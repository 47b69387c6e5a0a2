//! Explain: one symbol's declaration, docs and members, beside one hop of
//! its callers and callees.

pub mod models;
pub mod render;

use vstd::prelude::*;
use crate::cache::models::{FileRow, SymbolRow};
use crate::commands::digest::extractor::{
    docs_window_ok, extract_docs_and_diagram, extract_signature, sig_window_ok, signature_text, spec_docs_and_diagram,
    views,
};
use crate::commands::explain::models::{member_view, member_views, ExplainReport, MemberInfo};
use crate::commands::impact::models::ImpactReport;
use crate::commands::impact::traversal::opt_view;
use crate::text::{chars_of, lower_seq, occurs_at, parse_i64, parse_i64_spec, rfind, rfind_exec, slice_chars, starts_with, starts_with_exec, str_eq};

verus! {

/// Doc lines an explain report quotes.
pub const DOC_LINES: usize = 5;

/// A member's view, the type the member listing is stated over.
pub type MemberView = (Seq<char>, Seq<char>, Option<i64>, bool);

/// `t` names the type `name`.
pub open spec fn names(t: Option<String>, name: Seq<char>) -> bool {
    match t {
        Some(x) => x@ == name,
        None => false,
    }
}

/// `s` belongs to `owner`: nested in it, or a method of the type it
/// declares, in the same file.
pub open spec fn is_member(s: SymbolRow, owner: SymbolRow) -> bool {
    s.parent_symbol_id == Some(owner.id)
        || (s.kind@ == "method"@ && s.file_id == owner.file_id && names(s.owner_type, owner.name@))
}

pub open spec fn row_view(s: SymbolRow) -> MemberView {
    (s.name@, s.kind@, s.start_line, s.is_exported)
}

/// The members of `owner` among `all`, in the order of `all`.
pub open spec fn members_found(all: Seq<SymbolRow>, owner: SymbolRow) -> Seq<MemberView> {
    all.filter(|s: SymbolRow| is_member(s, owner)).map_values(|s: SymbolRow| row_view(s))
}

/// Lines in the order the listing uses: none first, then by number.
pub open spec fn line_le(a: Option<i64>, b: Option<i64>) -> bool {
    match (a, b) {
        (None, _) => true,
        (Some(_), None) => false,
        (Some(x), Some(y)) => x <= y,
    }
}

pub open spec fn at_line(k: Option<i64>) -> spec_fn(MemberView) -> bool {
    |m: MemberView| m.2 == k
}

pub open spec fn sorted_by_line(s: Seq<MemberView>) -> bool {
    forall|i: int, j: int| 0 <= i < j < s.len() ==> line_le(#[trigger] s[i].2, #[trigger] s[j].2)
}

/// `a` and `b` hold the same members on each line, in the same order:
/// with `a` sorted by line, `a` is `b` sorted stably.
pub open spec fn same_per_line(a: Seq<MemberView>, b: Seq<MemberView>) -> bool {
    forall|k: Option<i64>| #[trigger] a.filter(at_line(k)) == b.filter(at_line(k))
}

fn line_le_exec(a: Option<i64>, b: Option<i64>) -> (r: bool)
    ensures
        r == line_le(a, b),
{
    match (a, b) {
        (None, _) => true,
        (Some(_), None) => false,
        (Some(x), Some(y)) => x <= y,
    }
}

fn is_member_exec(s: &SymbolRow, owner: &SymbolRow) -> (r: bool)
    ensures
        r == is_member(*s, *owner),
{
    if s.parent_symbol_id == Some(owner.id) {
        return true;
    }
    if !str_eq(s.kind.as_str(), "method") || s.file_id != owner.file_id {
        return false;
    }
    match &s.owner_type {
        Some(t) => str_eq(t.as_str(), owner.name.as_str()),
        None => false,
    }
}

proof fn lemma_filter_none(s: Seq<MemberView>, k: Option<i64>)
    requires
        forall|i: int| 0 <= i < s.len() ==> (#[trigger] s[i]).2 != k,
    ensures
        s.filter(at_line(k)) =~= Seq::<MemberView>::empty(),
    decreases s.len(),
{
    broadcast use Seq::lemma_filter_push;
    if s.len() > 0 {
        lemma_filter_none(s.drop_last(), k);
        assert(s.drop_last().push(s.last()) =~= s);
    } else {
        assert(s =~= Seq::<MemberView>::empty().drop_last().push(s.last()).take(0));
        reveal(Seq::filter);
    }
}

proof fn lemma_single_filter(x: MemberView, k: Option<i64>)
    ensures
        seq![x].filter(at_line(k)) =~= (if x.2 == k { seq![x] } else { Seq::<MemberView>::empty() }),
{
    broadcast use Seq::lemma_filter_push;
    assert(Seq::<MemberView>::empty().push(x) =~= seq![x]);
    reveal(Seq::filter);
}

/// Put `m` after every member whose line is not after its own.
fn insert_by_line(out: &mut Vec<MemberInfo>, m: MemberInfo)
    requires
        sorted_by_line(member_views(old(out)@)),
    ensures
        sorted_by_line(member_views(final(out)@)),
        forall|k: Option<i64>| #[trigger] member_views(final(out)@).filter(at_line(k))
            == member_views(old(out)@).push(member_view(m)).filter(at_line(k)),
        final(out)@.len() == old(out)@.len() + 1,
{
    let ghost o = member_views(out@);
    let mut p: usize = 0;
    while p < out.len() && line_le_exec(out[p].line, m.line)
        invariant
            p <= out@.len(),
            o == member_views(out@),
            forall|i: int| 0 <= i < p ==> line_le(#[trigger] out@[i].line, m.line),
        decreases out@.len() - p,
    {
        p = p + 1;
    }
    let ghost v = member_view(m);
    out.insert(p, m);
    let ghost n = member_views(out@);
    assert(n =~= o.take(p as int) + seq![v] + o.skip(p as int));
    assert(o =~= o.take(p as int) + o.skip(p as int));
    assert(o.push(v) =~= o + seq![v]);
    assert forall|i: int, j: int| 0 <= i < j < n.len() implies line_le(#[trigger] n[i].2, #[trigger] n[j].2) by {
        if p < o.len() {
            assert(!line_le(o[p as int].2, v.2));
        }
        if i < p && j > p {
            assert(line_le(o[i].2, v.2));
            assert(line_le(o[i].2, o[j - 1].2));
        }
        if i == p && j > p {
            assert(line_le(o[p as int].2, o[j - 1].2));
        }
    }
    assert forall|k: Option<i64>| #[trigger] n.filter(at_line(k)) == o.push(v).filter(at_line(k)) by {
        broadcast use Seq::filter_distributes_over_add;
        lemma_single_filter(v, k);
        let t = o.take(p as int);
        let d = o.skip(p as int);
        if v.2 == k {
            assert forall|i: int| 0 <= i < d.len() implies (#[trigger] d[i]).2 != k by {
                assert(d[i] == o[p + i]);
                assert(!line_le(o[p as int].2, v.2));
                assert(line_le(o[p as int].2, o[p + i].2));
            }
            lemma_filter_none(d, k);
            assert((t + seq![v]).filter(at_line(k)) == t.filter(at_line(k)) + seq![v]);
            assert(n.filter(at_line(k)) =~= t.filter(at_line(k)) + seq![v]);
            assert(o.filter(at_line(k)) =~= t.filter(at_line(k)));
            assert(o.push(v).filter(at_line(k)) =~= (o + seq![v]).filter(at_line(k)));
            assert((o + seq![v]).filter(at_line(k)) == o.filter(at_line(k)) + seq![v].filter(at_line(k)));
        } else {
            assert((t + seq![v]).filter(at_line(k)) =~= t.filter(at_line(k)));
            assert(n.filter(at_line(k)) =~= t.filter(at_line(k)) + d.filter(at_line(k)));
            assert(o.filter(at_line(k)) == t.filter(at_line(k)) + d.filter(at_line(k)));
            assert((o + seq![v]).filter(at_line(k)) == o.filter(at_line(k)) + seq![v].filter(at_line(k)));
            assert(o.push(v).filter(at_line(k)) =~= (o + seq![v]).filter(at_line(k)));
        }
    }
}

/// The members of `owner` among `all_symbols`, ordered by line (no line
/// first), members on one line kept in the order of `all_symbols`.
pub fn members_of(all_symbols: &Vec<SymbolRow>, owner: &SymbolRow) -> (r: Vec<MemberInfo>)
    ensures
        sorted_by_line(member_views(r@)),
        same_per_line(member_views(r@), members_found(all_symbols@, *owner)),
        r@.len() == members_found(all_symbols@, *owner).len(),
{
    broadcast use Seq::lemma_filter_push;
    let mut out: Vec<MemberInfo> = Vec::new();
    let mut i: usize = 0;
    let ghost pm = |s: SymbolRow| is_member(s, *owner);
    let ghost mv = |s: SymbolRow| row_view(s);
    assert(all_symbols@.take(0) =~= Seq::<SymbolRow>::empty());
    proof {
        reveal(Seq::filter);
        assert(Seq::<SymbolRow>::empty().filter(pm) =~= Seq::<SymbolRow>::empty());
        assert(member_views(out@) =~= Seq::<MemberView>::empty());
    }
    while i < all_symbols.len()
        invariant
            0 <= i <= all_symbols@.len(),
            pm == (|s: SymbolRow| is_member(s, *owner)),
            mv == (|s: SymbolRow| row_view(s)),
            sorted_by_line(member_views(out@)),
            forall|k: Option<i64>| #[trigger] member_views(out@).filter(at_line(k))
                == all_symbols@.take(i as int).filter(pm).map_values(mv).filter(at_line(k)),
            out@.len() == all_symbols@.take(i as int).filter(pm).len(),
        decreases all_symbols@.len() - i,
    {
        let s = &all_symbols[i];
        let ghost before = all_symbols@.take(i as int);
        assert(all_symbols@.take(i + 1) =~= before.push(*s));
        proof {
            before.lemma_filter_push(*s, pm);
        }
        if is_member_exec(s, owner) {
            let m = MemberInfo {
                name: s.name.clone(),
                kind: s.kind.clone(),
                line: s.start_line,
                is_exported: s.is_exported,
            };
            assert(member_view(m) == row_view(*s));
            let ghost ov = member_views(out@);
            insert_by_line(&mut out, m);
            assert(before.push(*s).filter(pm) == before.filter(pm).push(*s));
            let ghost fm = before.filter(pm).map_values(mv);
            assert(before.filter(pm).push(*s).map_values(mv) =~= fm.push(row_view(*s)));
            assert forall|k: Option<i64>| #[trigger] member_views(out@).filter(at_line(k))
                == fm.push(row_view(*s)).filter(at_line(k)) by {
                ov.lemma_filter_push(row_view(*s), at_line(k));
                fm.lemma_filter_push(row_view(*s), at_line(k));
            }
        } else {
            assert(before.push(*s).filter(pm) == before.filter(pm));
        }
        i = i + 1;
    }
    assert(all_symbols@.take(all_symbols@.len() as int) =~= all_symbols@);
    out
}

/// The line a symbol node's id names (`sym:...@<line>`), when the node is a
/// symbol with a file: `None` for file nodes, a missing path, or an id
/// whose text after its last `@` is no number.
pub open spec fn spec_symbol_line(r: ImpactReport) -> Option<i64> {
    if !starts_with(r.target_id@, "sym:"@) || r.target_path is None {
        None
    } else {
        match rfind(r.target_id@, "@"@) {
            Some(k) => parse_i64_spec(r.target_id@.skip(k + 1)),
            None => None,
        }
    }
}

/// See [`spec_symbol_line`].
pub fn symbol_line(report: &ImpactReport) -> (r: Option<i64>)
    ensures
        r == spec_symbol_line(*report),
{
    let id = chars_of(report.target_id.as_str());
    let tag = chars_of("sym:");
    proof {
        reveal_strlit("sym:");
    }
    if !starts_with_exec(id.as_slice(), tag.as_slice()) || report.target_path.is_none() {
        return None;
    }
    let at = chars_of("@");
    proof {
        reveal_strlit("@");
    }
    match rfind_exec(id.as_slice(), at.as_slice()) {
        Some(k) => {
            proof {
                reveal_strlit("@");
                assert(at@.len() == 1);
                assert(occurs_at(id@, at@, k as int));
                assert(k + 1 <= id@.len());
            }
            assert(k < id.len());
            let tail = slice_chars(id.as_slice(), k + 1, id.len());
            assert(tail@ =~= report.target_id@.skip(k + 1));
            parse_i64(tail.as_slice())
        },
        None => None,
    }
}

/// The first of `candidates` named `name` that starts on `line`.
pub open spec fn is_pick(c: Seq<SymbolRow>, name: Seq<char>, line: i64, k: int) -> bool {
    &&& 0 <= k < c.len()
    &&& c[k].name@ == name && c[k].start_line == Some(line)
    &&& forall|j: int| 0 <= j < k ==> !(#[trigger] c[j].name@ == name && c[j].start_line == Some(line))
}

/// The symbol a node stands for among the symbols on its line: the first
/// with the node's name that starts there.
pub fn pick_symbol(candidates: &Vec<SymbolRow>, name: &str, line: i64) -> (r: Option<usize>)
    ensures
        r matches Some(k) ==> is_pick(candidates@, name@, line, k as int),
        r is None ==> forall|j: int| 0 <= j < candidates@.len()
            ==> !(#[trigger] candidates@[j].name@ == name@ && candidates@[j].start_line == Some(line)),
{
    let mut i: usize = 0;
    while i < candidates.len()
        invariant
            0 <= i <= candidates@.len(),
            forall|j: int| 0 <= j < i ==> !(#[trigger] candidates@[j].name@ == name@ && candidates@[j].start_line == Some(line)),
        decreases candidates@.len() - i,
    {
        if str_eq(candidates[i].name.as_str(), name) && candidates[i].start_line == Some(line) {
            return Some(i);
        }
        i = i + 1;
    }
    None
}

/// What a report's lines about a located symbol need: a window whose
/// arithmetic stays in range.
pub open spec fn located_ok(lines: Seq<String>, located: Option<(FileRow, SymbolRow)>) -> bool {
    match located {
        Some((f, s)) => sig_window_ok(lines.len() as int, s.start_line, s.end_line)
            && (lower_seq(f.language@) == "python"@ ==> docs_window_ok(lines.len() as int, s.start_line, s.end_line)),
        None => true,
    }
}

/// The signature a report shows: `None` when the lines give none.
pub open spec fn shown_signature(lines: Seq<String>, s: SymbolRow) -> Option<Seq<char>> {
    let sig = signature_text(lines, s.start_line, s.end_line);
    if sig.len() == 0 { None } else { Some(sig) }
}

/// An explain report from one-hop relations and, when the node is a symbol
/// the cache still has, its file, its row, the file's lines and every
/// symbol (for its members).
pub fn explain_report(
    relations: ImpactReport,
    located: Option<(FileRow, SymbolRow)>,
    lines: &Vec<String>,
    all_symbols: &Vec<SymbolRow>,
) -> (r: ExplainReport)
    requires
        located_ok(lines@, located),
    ensures
        r.symbol@ == relations.target_symbol@,
        r.id@ == relations.target_id@,
        r.kind@ == relations.target_kind@,
        opt_view(r.path) == opt_view(relations.target_path),
        opt_view(r.community) == opt_view(relations.target_community),
        r.relations == relations,
        match located {
            None => {
                &&& r.language is None && r.start_line is None && r.end_line is None
                &&& r.is_exported
                &&& r.signature is None && r.doc is None
                &&& r.members@.len() == 0
            },
            Some((f, s)) => {
                &&& opt_view(r.language) == Some(f.language@)
                &&& r.start_line == s.start_line && r.end_line == s.end_line
                &&& r.is_exported == s.is_exported
                &&& opt_view(r.signature) == shown_signature(lines@, s)
                &&& opt_view(r.doc) == spec_docs_and_diagram(views(lines@), s.start_line, s.end_line, f.language@, DOC_LINES as nat).0
                &&& sorted_by_line(member_views(r.members@))
                &&& same_per_line(member_views(r.members@), members_found(all_symbols@, s))
                &&& r.members@.len() == members_found(all_symbols@, s).len()
            },
        },
{
    let symbol = relations.target_symbol.clone();
    let id = relations.target_id.clone();
    let kind = relations.target_kind.clone();
    let path = match &relations.target_path {
        Some(p) => Some(p.clone()),
        None => None,
    };
    let community = match &relations.target_community {
        Some(c) => Some(c.clone()),
        None => None,
    };
    match &located {
        None => ExplainReport {
            symbol,
            id,
            kind,
            path,
            language: None,
            start_line: None,
            end_line: None,
            is_exported: true,
            community,
            signature: None,
            doc: None,
            members: Vec::new(),
            relations,
        },
        Some((file, sym)) => {
            let sig = extract_signature(lines.as_slice(), sym.start_line, sym.end_line);
            let signature = if sig.as_str().is_empty() { None } else { Some(sig) };
            let (doc, _) = extract_docs_and_diagram(lines.as_slice(), sym.start_line, sym.end_line, file.language.as_str(), DOC_LINES);
            let members = members_of(all_symbols, sym);
            ExplainReport {
                symbol,
                id,
                kind,
                path,
                language: Some(file.language.clone()),
                start_line: sym.start_line,
                end_line: sym.end_line,
                is_exported: sym.is_exported,
                community,
                signature,
                doc,
                members,
                relations,
            }
        },
    }
}

} // verus!
