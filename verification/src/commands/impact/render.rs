//! Impact reports as text: a header of counts, then the callers and callees
//! as trees, each node once (later sightings say so instead of repeating).

use vstd::prelude::*;
use crate::commands::digest::markdown::{push_decimal, push_str};
use crate::commands::impact::models::{ImpactItem, ImpactReport};
use crate::commands::impact::traversal::{distinct, insert_str, set_of};
use crate::commands::search::signed_decimal;
use crate::text::{ascii_lower, decimal, lower_seq, str_eq, string_of};

verus! {

pub const RULE_HEAVY: &'static str = "══════════════════════════════════════════════════════════════════";
pub const RULE_LIGHT: &'static str = "──────────────────────────────────────────────────────────────────";

/// Where an item is defined and, when the relation's line lives in another
/// file (a callee is called from its caller's file), where that line is.
pub open spec fn spec_item_location(it: ImpactItem) -> Seq<char> {
    match (it.path, it.line, it.site_path) {
        (Some(p), Some(l), Some(site)) => if site@ != p@ {
            "  "@ + p@ + "  (called at "@ + site@ + ":"@ + signed_decimal(l as int) + ")"@
        } else {
            "  "@ + p@ + ":"@ + signed_decimal(l as int)
        },
        (Some(p), Some(l), None) => "  "@ + p@ + ":"@ + signed_decimal(l as int),
        (Some(p), None, _) => "  "@ + p@,
        _ => seq![],
    }
}

pub(crate) fn push_signed(out: &mut Vec<char>, i: i64)
    ensures
        final(out)@ == old(out)@ + signed_decimal(i as int),
{
    if i < 0 {
        push_str(out, "-");
        let m: u64 = if i == i64::MIN { 9223372036854775808u64 } else { (0 - i) as u64 };
        push_decimal(out, m);
        assert(out@ =~= old(out)@ + signed_decimal(i as int));
    } else {
        push_decimal(out, i as u64);
    }
}

fn push_location(out: &mut Vec<char>, it: &ImpactItem)
    ensures
        final(out)@ == old(out)@ + spec_item_location(*it),
{
    match (&it.path, it.line, &it.site_path) {
        (Some(p), Some(l), Some(site)) => {
            if !str_eq(site.as_str(), p.as_str()) {
                push_str(out, "  ");
                push_str(out, p.as_str());
                push_str(out, "  (called at ");
                push_str(out, site.as_str());
                push_str(out, ":");
                push_signed(out, l);
                push_str(out, ")");
            } else {
                push_str(out, "  ");
                push_str(out, p.as_str());
                push_str(out, ":");
                push_signed(out, l);
            }
        },
        (Some(p), Some(l), None) => {
            push_str(out, "  ");
            push_str(out, p.as_str());
            push_str(out, ":");
            push_signed(out, l);
        },
        (Some(p), None, _) => {
            push_str(out, "  ");
            push_str(out, p.as_str());
        },
        _ => {},
    }
    assert(out@ =~= old(out)@ + spec_item_location(*it));
}

/// The location text of an item.
pub fn item_location(it: &ImpactItem) -> (r: String)
    ensures
        r@ == spec_item_location(*it),
{
    let mut out: Vec<char> = Vec::new();
    push_location(&mut out, it);
    assert(out@ =~= spec_item_location(*it));
    string_of(out.as_slice())
}

/// A confidence in thousandths as a fraction with two decimals, rounded half up.
pub open spec fn two_decimals(milli: u32) -> Seq<char> {
    let h = (milli as int + 5) / 10;
    let frac = h % 100;
    decimal((h / 100) as nat) + "."@ + (if frac < 10 { "0"@ } else { seq![] }) + decimal(frac as nat)
}

fn push_two_decimals(out: &mut Vec<char>, milli: u32)
    ensures
        final(out)@ == old(out)@ + two_decimals(milli),
{
    let h: u64 = (milli as u64 + 5) / 10;
    let frac = h % 100;
    push_decimal(out, h / 100);
    push_str(out, ".");
    if frac < 10 {
        push_str(out, "0");
    }
    push_decimal(out, frac);
    assert(out@ =~= old(out)@ + two_decimals(milli));
}

pub open spec fn cross_badge(it: ImpactItem) -> Seq<char> {
    match it.community {
        Some(l) => "⚠ cross-module ("@ + l@ + ")"@,
        None => "⚠ cross-module"@,
    }
}

/// `text` after a space when `on`, else nothing.
pub open spec fn badge(on: bool, text: Seq<char>) -> Seq<char> {
    if on { " "@ + text } else { seq![] }
}

/// The risk badges of an item, each after a space, and one more space in
/// front (nothing without badges).
pub open spec fn badge_text(it: ImpactItem) -> Seq<char> {
    if !(it.is_exported || it.low_confidence || it.crosses_module) {
        seq![]
    } else {
        " "@ + badge(it.is_exported, "⚠ public"@) + badge(it.low_confidence, "⚠ low-conf"@)
            + badge(it.crosses_module, cross_badge(it))
    }
}

/// The line that shows an item under `prefix`.
#[verifier::opaque]
pub open spec fn item_line(it: ImpactItem, prefix: Seq<char>, is_last: bool) -> Seq<char> {
    prefix + (if is_last { "└── "@ } else { "├── "@ }) + (if it.callers@.len() == 0 { "◆"@ } else { "○"@ }) + " "@
        + it.label@ + "  ["@ + it.edge_kind@ + " → "@ + it.kind@ + "]"@ + spec_item_location(it) + "  (conf "@
        + two_decimals(it.confidence_milli) + ")"@ + badge_text(it) + "\n"@
}

pub open spec fn child_prefix(prefix: Seq<char>, is_last: bool) -> Seq<char> {
    prefix + (if is_last { "    "@ } else { "│   "@ })
}

pub open spec fn snippet_line(it: ImpactItem, prefix: Seq<char>, is_last: bool) -> Seq<char> {
    match it.snippet {
        Some(s) => child_prefix(prefix, is_last) + "│ "@ + s@ + "\n"@,
        None => seq![],
    }
}

/// An item and, the first time its id comes up, the items under it; the
/// ids shown so far go from `seen` to the second result.
pub open spec fn tree_text(it: ImpactItem, prefix: Seq<char>, is_last: bool, seen: Set<Seq<char>>) -> (Seq<char>, Set<Seq<char>>)
    decreases it,
{
    let head = item_line(it, prefix, is_last) + snippet_line(it, prefix, is_last);
    if seen.contains(it.id@) {
        (head + child_prefix(prefix, is_last) + "└── (already traced above)\n"@, seen)
    } else {
        proof {
            assert(decreases_to!(it => it.callers));
        }
        let kids = forest_text(it.callers@, child_prefix(prefix, is_last), seen.insert(it.id@));
        (head + kids.0, kids.1)
    }
}

/// Sibling items under one prefix, the last drawn as such.
pub open spec fn forest_text(items: Seq<ImpactItem>, prefix: Seq<char>, seen: Set<Seq<char>>) -> (Seq<char>, Set<Seq<char>>)
    decreases items,
{
    if items.len() == 0 {
        (seq![], seen)
    } else {
        proof {
            assert(decreases_to!(items => items[0]));
        }
        let first = tree_text(items[0], prefix, items.len() == 1, seen);
        let rest = forest_text(items.drop_first(), prefix, first.1);
        (first.0 + rest.0, rest.1)
    }
}

fn push_badge(out: &mut Vec<char>, on: bool, text: &str)
    ensures
        final(out)@ == old(out)@ + badge(on, text@),
{
    if on {
        push_str(out, " ");
        push_str(out, text);
    }
    assert(out@ =~= old(out)@ + badge(on, text@));
}

fn cross_badge_exec(it: &ImpactItem) -> (r: String)
    ensures
        r@ == cross_badge(*it),
{
    match &it.community {
        Some(l) => {
            let a = crate::text::concat("⚠ cross-module (", l.as_str());
            crate::text::concat(a.as_str(), ")")
        },
        None => "⚠ cross-module".to_string(),
    }
}

fn push_badges(out: &mut Vec<char>, it: &ImpactItem)
    ensures
        final(out)@ == old(out)@ + badge_text(*it),
{
    if !(it.is_exported || it.low_confidence || it.crosses_module) {
        assert(old(out)@ + badge_text(*it) =~= old(out)@);
        return;
    }
    push_str(out, " ");
    push_badge(out, it.is_exported, "⚠ public");
    push_badge(out, it.low_confidence, "⚠ low-conf");
    let cb = cross_badge_exec(it);
    push_badge(out, it.crosses_module, cb.as_str());
    assert(out@ =~= old(out)@ + badge_text(*it));
}

proof fn lemma_forest_step(rest: Seq<ImpactItem>, prefix: Seq<char>, seen: Set<Seq<char>>)
    requires
        rest.len() > 0,
    ensures
        ({
            let t = tree_text(rest[0], prefix, rest.len() == 1, seen);
            let g = forest_text(rest.drop_first(), prefix, t.1);
            forest_text(rest, prefix, seen) == (t.0 + g.0, g.1)
        }),
{
}

fn push_item_line(out: &mut Vec<char>, it: &ImpactItem, prefix: &str, is_last: bool)
    ensures
        final(out)@ == old(out)@ + item_line(*it, prefix@, is_last),
{
    push_str(out, prefix);
    push_str(out, if is_last { "└── " } else { "├── " });
    push_str(out, if it.callers.len() == 0 { "◆" } else { "○" });
    push_str(out, " ");
    push_str(out, it.label.as_str());
    push_str(out, "  [");
    push_str(out, it.edge_kind.as_str());
    push_str(out, " → ");
    push_str(out, it.kind.as_str());
    push_str(out, "]");
    push_location(out, it);
    push_str(out, "  (conf ");
    push_two_decimals(out, it.confidence_milli);
    push_str(out, ")");
    push_badges(out, it);
    push_str(out, "\n");
    reveal(item_line);
    assert(out@ =~= old(out)@ + item_line(*it, prefix@, is_last));
}

proof fn lemma_tree_step(it: ImpactItem, prefix: Seq<char>, is_last: bool, seen: Set<Seq<char>>)
    ensures
        ({
            let head = item_line(it, prefix, is_last) + snippet_line(it, prefix, is_last);
            let cp = child_prefix(prefix, is_last);
            let kids = forest_text(it.callers@, cp, seen.insert(it.id@));
            tree_text(it, prefix, is_last, seen) == if seen.contains(it.id@) {
                (head + cp + "└── (already traced above)\n"@, seen)
            } else {
                (head + kids.0, kids.1)
            }
        }),
{
}

/// Write one item, and the items under it unless its id was shown already.
pub fn write_tree(out: &mut Vec<char>, item: &ImpactItem, prefix: &str, is_last: bool, visited: &mut Vec<String>)
    requires
        distinct(old(visited)@),
    ensures
        distinct(final(visited)@),
        final(out)@ == old(out)@ + tree_text(*item, prefix@, is_last, set_of(old(visited)@)).0,
        set_of(final(visited)@) == tree_text(*item, prefix@, is_last, set_of(old(visited)@)).1,
    decreases item,
{
    let ghost v0 = set_of(visited@);
    push_item_line(out, item, prefix, is_last);
    let mut cp: Vec<char> = crate::text::chars_of(prefix);
    push_str(&mut cp, if is_last { "    " } else { "│   " });
    let child = string_of(cp.as_slice());
    assert(child@ == child_prefix(prefix@, is_last));
    match &item.snippet {
        Some(s) => {
            push_str(out, child.as_str());
            push_str(out, "│ ");
            push_str(out, s.as_str());
            push_str(out, "\n");
        },
        None => {},
    }
    let ghost hd = item_line(*item, prefix@, is_last) + snippet_line(*item, prefix@, is_last);
    let ghost head = out@;
    assert(head =~= old(out)@ + hd);
    proof {
        lemma_tree_step(*item, prefix@, is_last, v0);
    }
    let added = insert_str(visited, item.id.as_str());
    if !added {
        push_str(out, child.as_str());
        push_str(out, "└── (already traced above)\n");
        assert(set_of(visited@) =~= v0);
        assert(out@ =~= old(out)@ + (hd + child@ + "└── (already traced above)\n"@));
        return;
    }
    proof {
        assert(decreases_to!(item => item.callers));
    }
    write_forest(out, &item.callers, child.as_str(), visited);
    assert(out@ =~= old(out)@ + (hd + forest_text(item.callers@, child@, v0.insert(item.id@)).0));
}

/// Write sibling items under one prefix, the last drawn as such.
pub fn write_forest(out: &mut Vec<char>, kids: &Vec<ImpactItem>, prefix: &str, visited: &mut Vec<String>)
    requires
        distinct(old(visited)@),
    ensures
        distinct(final(visited)@),
        final(out)@ == old(out)@ + forest_text(kids@, prefix@, set_of(old(visited)@)).0,
        set_of(final(visited)@) == forest_text(kids@, prefix@, set_of(old(visited)@)).1,
    decreases kids,
{
    let ghost all = forest_text(kids@, prefix@, set_of(visited@));
    let mut i: usize = 0;
    assert(kids@.subrange(0, kids@.len() as int) =~= kids@);
    while i < kids.len()
        invariant
            0 <= i <= kids@.len(),
            distinct(visited@),
            ({
                let rest = forest_text(kids@.subrange(i as int, kids@.len() as int), prefix@, set_of(visited@));
                &&& out@ + rest.0 == old(out)@ + all.0
                &&& rest.1 == all.1
            }),
        decreases kids@.len() - i,
    {
        let ghost rest = kids@.subrange(i as int, kids@.len() as int);
        assert(rest[0] == kids@[i as int]);
        assert(rest.drop_first() =~= kids@.subrange(i + 1, kids@.len() as int));
        let ghost before = out@;
        let ghost si = set_of(visited@);
        proof {
            assert(decreases_to!(kids => kids@));
            assert(decreases_to!(kids@ => kids@[i as int]));
        }
        write_tree(out, &kids[i], prefix, i + 1 == kids.len(), visited);
        proof {
            lemma_forest_step(rest, prefix@, si);
            assert((i + 1 == kids@.len()) == (rest.len() == 1));
        }
        i = i + 1;
    }
    assert(kids@.subrange(kids@.len() as int, kids@.len() as int) =~= Seq::<ImpactItem>::empty());
}

/// Which sections a `--direction` shows: callers for `both`, empty,
/// `reverse`, `upstream`, `callers`; callees for `both`, empty, `forward`,
/// `downstream`, `callees` (any case).
pub open spec fn shows(direction: Seq<char>) -> (bool, bool) {
    let d = lower_seq(direction);
    let both = d == "both"@ || d.len() == 0;
    (
        both || d == "reverse"@ || d == "upstream"@ || d == "callers"@,
        both || d == "forward"@ || d == "downstream"@ || d == "callees"@,
    )
}

pub open spec fn header_top(r: ImpactReport) -> Seq<char> {
    RULE_HEAVY@ + "\n"@ + "  IMPACT ANALYSIS: "@ + r.target_symbol@ + "  ["@ + r.target_kind@ + "]\n"@
        + (match r.target_path { Some(p) => "  "@ + p@ + "\n"@, None => seq![] })
        + RULE_LIGHT@ + "\n"@
}

pub open spec fn header_counts(r: ImpactReport) -> Seq<char> {
    "  Direct callers : "@ + decimal(r.direct_callers_count as nat) + "      Direct callees : "@
        + decimal(r.direct_callees_count as nat) + "\n"@
        + "  Total affected : "@ + decimal(r.total_affected_count as nat) + " symbols across "@
        + decimal(r.total_affected_files as nat) + " file(s)\n"@
        + "  Max depth      : "@ + decimal(r.max_depth_reached as nat) + "\n"@
}

pub open spec fn header_flags(r: ImpactReport) -> Seq<char> {
    (match r.target_community { Some(l) => "  Community      : "@ + l@ + "\n"@, None => seq![] })
        + (if r.risky_affected_count > 0 {
            "  Risk flags     : "@ + decimal(r.risky_affected_count as nat)
                + " item(s) touch public API, low-confidence edges, or cross module boundaries\n"@
        } else {
            seq![]
        })
}

/// The header of a report: the target, then its counts, between rules.
pub open spec fn report_header(r: ImpactReport) -> Seq<char> {
    header_top(r) + header_counts(r) + header_flags(r) + RULE_HEAVY@ + "\n"@ + "\n"@
}

pub open spec fn section(title: Seq<char>, none: Seq<char>, items: Seq<ImpactItem>) -> Seq<char> {
    title + (if items.len() == 0 { none } else { forest_text(items, "  "@, Set::empty()).0 }) + "\n"@
}

/// One report as text.
pub open spec fn report_text(r: ImpactReport) -> Seq<char> {
    let (up, down) = shows(r.direction@);
    report_header(r)
        + (if up { section("▲ UPSTREAM CALLERS\n"@, "  (no incoming callers or references found)\n"@, r.callers@) } else { seq![] })
        + (if down { section("▼ DOWNSTREAM CALLEES\n"@, "  (no outgoing calls found)\n"@, r.callees@) } else { seq![] })
}

pub open spec fn reports_text(v: Seq<ImpactReport>) -> Seq<char>
    decreases v.len(),
{
    if v.len() == 0 { seq![] } else { reports_text(v.drop_last()) + report_text(v.last()) }
}

fn shows_exec(direction: &str) -> (r: (bool, bool))
    ensures
        r == shows(direction@),
{
    let d = ascii_lower(direction);
    let s = d.as_str();
    let both = str_eq(s, "both") || s.is_empty();
    (
        both || str_eq(s, "reverse") || str_eq(s, "upstream") || str_eq(s, "callers"),
        both || str_eq(s, "forward") || str_eq(s, "downstream") || str_eq(s, "callees"),
    )
}

fn push_header_top(out: &mut Vec<char>, r: &ImpactReport)
    ensures
        final(out)@ == old(out)@ + header_top(*r),
{
    push_str(out, RULE_HEAVY);
    push_str(out, "\n");
    push_str(out, "  IMPACT ANALYSIS: ");
    push_str(out, r.target_symbol.as_str());
    push_str(out, "  [");
    push_str(out, r.target_kind.as_str());
    push_str(out, "]\n");
    let ghost a = out@;
    match &r.target_path {
        Some(p) => {
            push_str(out, "  ");
            push_str(out, p.as_str());
            push_str(out, "\n");
        },
        None => {},
    }
    push_str(out, RULE_LIGHT);
    push_str(out, "\n");
    assert(out@ =~= old(out)@ + header_top(*r));
}

fn push_header_counts(out: &mut Vec<char>, r: &ImpactReport)
    ensures
        final(out)@ == old(out)@ + header_counts(*r),
{
    push_str(out, "  Direct callers : ");
    push_decimal(out, r.direct_callers_count as u64);
    push_str(out, "      Direct callees : ");
    push_decimal(out, r.direct_callees_count as u64);
    push_str(out, "\n");
    push_str(out, "  Total affected : ");
    push_decimal(out, r.total_affected_count as u64);
    push_str(out, " symbols across ");
    push_decimal(out, r.total_affected_files as u64);
    push_str(out, " file(s)\n");
    push_str(out, "  Max depth      : ");
    push_decimal(out, r.max_depth_reached as u64);
    push_str(out, "\n");
    assert(out@ =~= old(out)@ + header_counts(*r));
}

fn push_header_flags(out: &mut Vec<char>, r: &ImpactReport)
    ensures
        final(out)@ == old(out)@ + header_flags(*r),
{
    match &r.target_community {
        Some(l) => {
            push_str(out, "  Community      : ");
            push_str(out, l.as_str());
            push_str(out, "\n");
        },
        None => {},
    }
    let ghost d = out@;
    if r.risky_affected_count > 0 {
        push_str(out, "  Risk flags     : ");
        push_decimal(out, r.risky_affected_count as u64);
        push_str(out, " item(s) touch public API, low-confidence edges, or cross module boundaries\n");
    }
    assert(out@ =~= old(out)@ + header_flags(*r));
}

fn push_header(out: &mut Vec<char>, r: &ImpactReport)
    ensures
        final(out)@ == old(out)@ + report_header(*r),
{
    push_header_top(out, r);
    push_header_counts(out, r);
    push_header_flags(out, r);
    push_str(out, RULE_HEAVY);
    push_str(out, "\n");
    push_str(out, "\n");
    assert(out@ =~= old(out)@ + report_header(*r));
}

fn push_section(out: &mut Vec<char>, title: &str, none: &str, items: &Vec<ImpactItem>)
    ensures
        final(out)@ == old(out)@ + section(title@, none@, items@),
{
    push_str(out, title);
    if items.len() == 0 {
        push_str(out, none);
    } else {
        let mut visited: Vec<String> = Vec::new();
        assert(set_of(visited@) =~= Set::<Seq<char>>::empty());
        write_forest(out, items, "  ", &mut visited);
    }
    push_str(out, "\n");
    assert(out@ =~= old(out)@ + section(title@, none@, items@));
}

/// Write one report: its header, then the sections its direction asks for.
pub fn write_ascii_report(out: &mut Vec<char>, r: &ImpactReport)
    ensures
        final(out)@ == old(out)@ + report_text(*r),
{
    let (up, down) = shows_exec(r.direction.as_str());
    push_header(out, r);
    let ghost a = out@;
    if up {
        push_section(out, "▲ UPSTREAM CALLERS\n", "  (no incoming callers or references found)\n", &r.callers);
    }
    let ghost b = out@;
    if down {
        push_section(out, "▼ DOWNSTREAM CALLEES\n", "  (no outgoing calls found)\n", &r.callees);
    }
    assert(out@ =~= old(out)@ + report_text(*r));
}

/// Every report as text, one after the other.
pub fn render_ascii(reports: &Vec<ImpactReport>) -> (s: String)
    ensures
        s@ == reports_text(reports@),
{
    let mut out: Vec<char> = Vec::new();
    let mut i: usize = 0;
    assert(reports@.take(0) =~= Seq::<ImpactReport>::empty());
    while i < reports.len()
        invariant
            0 <= i <= reports@.len(),
            out@ == reports_text(reports@.take(i as int)),
        decreases reports@.len() - i,
    {
        write_ascii_report(&mut out, &reports[i]);
        proof {
            assert(reports@.take(i + 1).drop_last() =~= reports@.take(i as int));
            assert(reports@.take(i + 1).last() == reports@[i as int]);
        }
        i = i + 1;
    }
    assert(reports@.take(reports@.len() as int) =~= reports@);
    string_of(out.as_slice())
}

} // verus!
