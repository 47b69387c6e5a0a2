//! Explain reports as text: a header, the docs and members, then who calls
//! the symbol and what it calls, each as a tree.

use vstd::prelude::*;
use crate::commands::digest::markdown::{push_decimal, push_str};
use crate::commands::explain::models::{ExplainReport, MemberInfo};
use crate::commands::impact::models::ImpactItem;
use crate::commands::impact::render::{forest_text, push_signed, write_forest, RULE_HEAVY, RULE_LIGHT};
use crate::commands::impact::traversal::set_of;
use crate::commands::search::signed_decimal;
use crate::text::{decimal, lines_exec, str_eq, str_lines, string_of};

verus! {

/// `  path:start-end`, `  path:start` or `  path` on a line of its own, when
/// the report has a path.
pub open spec fn location_line(r: ExplainReport) -> Seq<char> {
    match r.path {
        Some(p) => match (r.start_line, r.end_line) {
            (Some(s), Some(e)) => if s != e {
                "  "@ + p@ + ":"@ + signed_decimal(s as int) + "-"@ + signed_decimal(e as int) + "\n"@
            } else {
                "  "@ + p@ + ":"@ + signed_decimal(s as int) + "\n"@
            },
            (Some(s), None) => "  "@ + p@ + ":"@ + signed_decimal(s as int) + "\n"@,
            (None, _) => "  "@ + p@ + "\n"@,
        },
        None => seq![],
    }
}

pub open spec fn header_text(r: ExplainReport) -> Seq<char> {
    RULE_HEAVY@ + "\n"@ + "  EXPLAIN: "@ + r.symbol@ + "  ["@ + r.kind@ + "]\n"@ + location_line(r)
        + RULE_LIGHT@ + "\n"@
}

/// `label` and the value on a line of their own, when there is a value.
pub open spec fn field_line(label: Seq<char>, v: Option<String>) -> Seq<char> {
    match v {
        Some(x) => label + x@ + "\n"@,
        None => seq![],
    }
}

pub open spec fn facts_text(r: ExplainReport) -> Seq<char> {
    "  Visibility     : "@ + (if r.is_exported { "public"@ } else { "private"@ }) + "\n"@
        + field_line("  Community      : "@, r.community) + field_line("  Language       : "@, r.language)
        + field_line("  Signature      : "@, r.signature)
}

pub open spec fn counts_text(r: ExplainReport) -> Seq<char> {
    "  Direct callers : "@ + decimal(r.relations.direct_callers_count as nat) + "      Direct callees : "@
        + decimal(r.relations.direct_callees_count as nat) + "\n"@
        + (if r.relations.risky_affected_count > 0 {
            "  Risk flags     : "@ + decimal(r.relations.risky_affected_count as nat)
                + " item(s) touch public API, low-confidence edges, or cross module boundaries\n"@
        } else {
            seq![]
        })
        + RULE_HEAVY@ + "\n"@ + "\n"@
}

/// Each line indented by two spaces.
pub open spec fn indented(ls: Seq<Seq<char>>) -> Seq<char>
    decreases ls.len(),
{
    if ls.len() == 0 { seq![] } else { indented(ls.drop_last()) + "  "@ + ls.last() + "\n"@ }
}

pub open spec fn docs_text(doc: Option<String>) -> Seq<char> {
    match doc {
        Some(d) => "DOCS\n"@ + indented(str_lines(d@)) + "\n"@,
        None => seq![],
    }
}

pub open spec fn member_line(m: MemberInfo) -> Seq<char> {
    "  "@ + (if m.is_exported { "pub "@ } else { "    "@ }) + m.name@ + "  ["@ + m.kind@ + "]"@
        + (match m.line { Some(l) => "  line "@ + signed_decimal(l as int), None => seq![] }) + "\n"@
}

pub open spec fn member_lines(ms: Seq<MemberInfo>) -> Seq<char>
    decreases ms.len(),
{
    if ms.len() == 0 { seq![] } else { member_lines(ms.drop_last()) + member_line(ms.last()) }
}

pub open spec fn members_text(ms: Seq<MemberInfo>) -> Seq<char> {
    if ms.len() == 0 {
        seq![]
    } else {
        "MEMBERS ("@ + decimal(ms.len()) + ")\n"@ + member_lines(ms) + "\n"@
    }
}

/// Every edge in `items` is a call.
pub open spec fn all_calls(items: Seq<ImpactItem>) -> bool {
    forall|i: int| 0 <= i < items.len() ==> (#[trigger] items[i]).edge_kind@ == "calls"@
}

/// `calls_title` while every edge is a call, `mixed_title` as soon as
/// another relation (a type reference, an import) shows up.
pub open spec fn spec_section_title(arrow: Seq<char>, items: Seq<ImpactItem>, calls_title: Seq<char>, mixed_title: Seq<char>) -> Seq<char> {
    arrow + " "@ + (if all_calls(items) { calls_title } else { mixed_title })
}

pub open spec fn section_text(title: Seq<char>, empty: Seq<char>, items: Seq<ImpactItem>) -> Seq<char> {
    title + "\n"@ + (if items.len() == 0 { "  "@ + empty + "\n"@ } else { forest_text(items, "  "@, Set::empty()).0 })
        + "\n"@
}

pub open spec fn callers_text(r: ExplainReport) -> Seq<char> {
    section_text(
        spec_section_title("▲"@, r.relations.callers@, "CALLED BY"@, "USED BY"@),
        "(no incoming callers or references found)"@,
        r.relations.callers@,
    )
}

pub open spec fn callees_text(r: ExplainReport) -> Seq<char> {
    section_text(
        spec_section_title("▼"@, r.relations.callees@, "CALLS"@, "USES"@),
        "(no outgoing calls or references found)"@,
        r.relations.callees@,
    )
}

/// One report as text.
pub open spec fn report_text(r: ExplainReport) -> Seq<char> {
    header_text(r) + facts_text(r) + counts_text(r) + docs_text(r.doc) + members_text(r.members@)
        + callers_text(r) + callees_text(r)
}

pub open spec fn reports_text(v: Seq<ExplainReport>) -> Seq<char>
    decreases v.len(),
{
    if v.len() == 0 { seq![] } else { reports_text(v.drop_last()) + report_text(v.last()) }
}

fn push_location_line(out: &mut Vec<char>, r: &ExplainReport)
    ensures
        final(out)@ == old(out)@ + location_line(*r),
{
    match &r.path {
        Some(p) => {
            push_str(out, "  ");
            push_str(out, p.as_str());
            match (r.start_line, r.end_line) {
                (Some(s), Some(e)) => {
                    push_str(out, ":");
                    push_signed(out, s);
                    if s != e {
                        push_str(out, "-");
                        push_signed(out, e);
                    }
                },
                (Some(s), None) => {
                    push_str(out, ":");
                    push_signed(out, s);
                },
                (None, _) => {},
            }
            push_str(out, "\n");
        },
        None => {},
    }
    assert(out@ =~= old(out)@ + location_line(*r));
}

fn push_header(out: &mut Vec<char>, r: &ExplainReport)
    ensures
        final(out)@ == old(out)@ + header_text(*r),
{
    push_str(out, RULE_HEAVY);
    push_str(out, "\n");
    push_str(out, "  EXPLAIN: ");
    push_str(out, r.symbol.as_str());
    push_str(out, "  [");
    push_str(out, r.kind.as_str());
    push_str(out, "]\n");
    push_location_line(out, r);
    push_str(out, RULE_LIGHT);
    push_str(out, "\n");
    assert(out@ =~= old(out)@ + header_text(*r));
}

fn push_field(out: &mut Vec<char>, label: &str, v: &Option<String>)
    ensures
        final(out)@ == old(out)@ + field_line(label@, *v),
{
    match v {
        Some(x) => {
            push_str(out, label);
            push_str(out, x.as_str());
            push_str(out, "\n");
        },
        None => {},
    }
    assert(out@ =~= old(out)@ + field_line(label@, *v));
}

fn push_facts(out: &mut Vec<char>, r: &ExplainReport)
    ensures
        final(out)@ == old(out)@ + facts_text(*r),
{
    push_str(out, "  Visibility     : ");
    push_str(out, if r.is_exported { "public" } else { "private" });
    push_str(out, "\n");
    push_field(out, "  Community      : ", &r.community);
    push_field(out, "  Language       : ", &r.language);
    push_field(out, "  Signature      : ", &r.signature);
    assert(out@ =~= old(out)@ + facts_text(*r));
}

fn push_counts(out: &mut Vec<char>, r: &ExplainReport)
    ensures
        final(out)@ == old(out)@ + counts_text(*r),
{
    push_str(out, "  Direct callers : ");
    push_decimal(out, r.relations.direct_callers_count as u64);
    push_str(out, "      Direct callees : ");
    push_decimal(out, r.relations.direct_callees_count as u64);
    push_str(out, "\n");
    let ghost a = out@;
    if r.relations.risky_affected_count > 0 {
        push_str(out, "  Risk flags     : ");
        push_decimal(out, r.relations.risky_affected_count as u64);
        push_str(out, " item(s) touch public API, low-confidence edges, or cross module boundaries\n");
    }
    push_str(out, RULE_HEAVY);
    push_str(out, "\n");
    push_str(out, "\n");
    assert(out@ =~= old(out)@ + counts_text(*r));
}

fn push_docs(out: &mut Vec<char>, doc: &Option<String>)
    ensures
        final(out)@ == old(out)@ + docs_text(*doc),
{
    match doc {
        Some(d) => {
            push_str(out, "DOCS\n");
            let ls = lines_exec(d.as_str());
            let ghost lv = ls@.map_values(|l: Vec<char>| l@);
            let ghost start = out@;
            let mut i: usize = 0;
            assert(lv.take(0) =~= Seq::<Seq<char>>::empty());
            while i < ls.len()
                invariant
                    0 <= i <= ls@.len(),
                    lv == ls@.map_values(|l: Vec<char>| l@),
                    out@ == start + indented(lv.take(i as int)),
                decreases ls@.len() - i,
            {
                push_str(out, "  ");
                crate::commands::digest::markdown::push_chars(out, ls[i].as_slice());
                push_str(out, "\n");
                assert(lv.take(i + 1).drop_last() =~= lv.take(i as int));
                i = i + 1;
            }
            assert(lv.take(ls@.len() as int) =~= lv);
            push_str(out, "\n");
        },
        None => {},
    }
    assert(out@ =~= old(out)@ + docs_text(*doc));
}

fn push_member(out: &mut Vec<char>, m: &MemberInfo)
    ensures
        final(out)@ == old(out)@ + member_line(*m),
{
    push_str(out, "  ");
    push_str(out, if m.is_exported { "pub " } else { "    " });
    push_str(out, m.name.as_str());
    push_str(out, "  [");
    push_str(out, m.kind.as_str());
    push_str(out, "]");
    match m.line {
        Some(l) => {
            push_str(out, "  line ");
            push_signed(out, l);
        },
        None => {},
    }
    push_str(out, "\n");
    assert(out@ =~= old(out)@ + member_line(*m));
}

fn push_members(out: &mut Vec<char>, ms: &Vec<MemberInfo>)
    ensures
        final(out)@ == old(out)@ + members_text(ms@),
{
    if ms.len() == 0 {
        assert(old(out)@ + members_text(ms@) =~= old(out)@);
        return;
    }
    push_str(out, "MEMBERS (");
    push_decimal(out, ms.len() as u64);
    push_str(out, ")\n");
    let ghost start = out@;
    let mut i: usize = 0;
    assert(ms@.take(0) =~= Seq::<MemberInfo>::empty());
    while i < ms.len()
        invariant
            0 <= i <= ms@.len(),
            out@ == start + member_lines(ms@.take(i as int)),
        decreases ms@.len() - i,
    {
        push_member(out, &ms[i]);
        assert(ms@.take(i + 1).drop_last() =~= ms@.take(i as int));
        i = i + 1;
    }
    assert(ms@.take(ms@.len() as int) =~= ms@);
    push_str(out, "\n");
    assert(out@ =~= old(out)@ + members_text(ms@));
}

/// See [`spec_section_title`].
pub fn section_title(arrow: &str, items: &Vec<ImpactItem>, calls_title: &str, mixed_title: &str) -> (r: String)
    ensures
        r@ == spec_section_title(arrow@, items@, calls_title@, mixed_title@),
{
    let mut all = true;
    let mut i: usize = 0;
    while i < items.len()
        invariant
            0 <= i <= items@.len(),
            all == (forall|j: int| 0 <= j < i ==> (#[trigger] items@[j]).edge_kind@ == "calls"@),
        decreases items@.len() - i,
    {
        if !str_eq(items[i].edge_kind.as_str(), "calls") {
            all = false;
        }
        i = i + 1;
    }
    let mut out: Vec<char> = Vec::new();
    push_str(&mut out, arrow);
    push_str(&mut out, " ");
    push_str(&mut out, if all { calls_title } else { mixed_title });
    assert(out@ =~= spec_section_title(arrow@, items@, calls_title@, mixed_title@));
    string_of(out.as_slice())
}

fn write_section(out: &mut Vec<char>, title: &str, empty: &str, items: &Vec<ImpactItem>)
    ensures
        final(out)@ == old(out)@ + section_text(title@, empty@, items@),
{
    push_str(out, title);
    push_str(out, "\n");
    if items.len() == 0 {
        push_str(out, "  ");
        push_str(out, empty);
        push_str(out, "\n");
    } else {
        let mut visited: Vec<String> = Vec::new();
        assert(set_of(visited@) =~= Set::<Seq<char>>::empty());
        write_forest(out, items, "  ", &mut visited);
    }
    push_str(out, "\n");
    assert(out@ =~= old(out)@ + section_text(title@, empty@, items@));
}

fn write_relations(out: &mut Vec<char>, r: &ExplainReport)
    ensures
        final(out)@ == old(out)@ + callers_text(*r) + callees_text(*r),
{
    let up = section_title("▲", &r.relations.callers, "CALLED BY", "USED BY");
    write_section(out, up.as_str(), "(no incoming callers or references found)", &r.relations.callers);
    let down = section_title("▼", &r.relations.callees, "CALLS", "USES");
    write_section(out, down.as_str(), "(no outgoing calls or references found)", &r.relations.callees);
    assert(out@ =~= old(out)@ + callers_text(*r) + callees_text(*r));
}

/// Write one report.
pub fn write_report(out: &mut Vec<char>, r: &ExplainReport)
    ensures
        final(out)@ == old(out)@ + report_text(*r),
{
    push_header(out, r);
    push_facts(out, r);
    push_counts(out, r);
    push_docs(out, &r.doc);
    push_members(out, &r.members);
    write_relations(out, r);
    assert(out@ =~= old(out)@ + report_text(*r));
}

/// Every report as text, one after the other.
pub fn render_ascii(reports: &Vec<ExplainReport>) -> (s: String)
    ensures
        s@ == reports_text(reports@),
{
    let mut out: Vec<char> = Vec::new();
    let mut i: usize = 0;
    assert(reports@.take(0) =~= Seq::<ExplainReport>::empty());
    while i < reports.len()
        invariant
            0 <= i <= reports@.len(),
            out@ == reports_text(reports@.take(i as int)),
        decreases reports@.len() - i,
    {
        write_report(&mut out, &reports[i]);
        proof {
            assert(reports@.take(i + 1).drop_last() =~= reports@.take(i as int));
            assert(reports@.take(i + 1).last() == reports@[i as int]);
        }
        i = i + 1;
    }
    assert(reports@.take(reports@.len() as int) =~= reports@);
    string_of(out.as_slice())
}

} // verus!
