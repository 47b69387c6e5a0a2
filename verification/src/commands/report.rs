//! `report`: a one-page architecture overview built from the relation graph:
//! core hubs, subsystems (communities), the bridges between them, and
//! questions worth asking next. `sync` keeps `.code-rcl/REPORT.md` fresh.

use vstd::prelude::*;
use crate::cache::{CODE_CTX_DIR, ctx_dir, join_path, path_join};
use crate::commands::digest::markdown::{
    count_ranking, hub_row, hub_rows, lang_list, push_decimal, push_hub, push_str, rank_languages,
};
use crate::commands::digest::models::HubItem;
use crate::text::{concat, decimal, starts_with, str_eq, string_of};

verus! {

pub const REPORT_FILE: &'static str = "REPORT.md";
/// At most this many subsystems are listed.
pub const MAX_SUBSYSTEMS: usize = 12;
/// At most this many bridge files are listed.
pub const MAX_BRIDGES: usize = 5;

#[derive(Debug)]
pub struct LinkInfo {
    pub subsystem: String,
    pub links: usize,
}

#[derive(Debug)]
pub struct Subsystem {
    pub id: u32,
    pub label: String,
    pub files: usize,
    pub key_files: Vec<String>,
    /// Share of this subsystem's links that stay inside it, in whole percent.
    pub cohesion_percent: u32,
    pub internal_links: usize,
    pub external_links: usize,
    pub depends_on: Vec<LinkInfo>,
}

#[derive(Debug)]
pub struct Bridge {
    pub file: String,
    pub touches: Vec<String>,
}

#[derive(Debug)]
pub struct Question {
    pub question: String,
    pub command: String,
}

#[derive(Debug)]
pub struct ReportData {
    pub project: String,
    pub total_files: usize,
    pub total_symbols: usize,
    pub public_symbols: usize,
    /// Files per language, one entry per language.
    pub languages: Vec<(String, usize)>,
    pub hubs: Vec<HubItem>,
    pub subsystems: Vec<Subsystem>,
    pub unclustered_files: usize,
    pub bridges: Vec<Bridge>,
    pub questions: Vec<Question>,
}

/// `.code-rcl/REPORT.md` under the project.
pub fn report_path(project: &str) -> (r: String)
    ensures
        r@ == path_join(path_join(project@, CODE_CTX_DIR@), REPORT_FILE@),
{
    let d = ctx_dir(project);
    join_path(d.as_str(), REPORT_FILE)
}

/// Whether a sync calls for regenerating the report: it added, changed or
/// removed files, language-server edges were added, or there is no report
/// yet. A sync that changed nothing leaves an existing report alone.
pub fn report_due(added: usize, changed: usize, removed: usize, precise_ran: bool, exists: bool) -> (r: bool)
    requires
        added + changed + removed <= usize::MAX,
    ensures
        r == (added + changed + removed > 0 || precise_ran || !exists),
{
    let touched = added + changed + removed;
    touched > 0 || precise_ran || !exists
}

/// Whether freshly rendered report content has to be written: only when the
/// file is missing or unreadable (`None`) or holds something else.
pub fn report_needs_write(existing: Option<&str>, content: &str) -> (r: bool)
    ensures
        r == !(existing matches Some(x) && x@ == content@),
{
    match existing {
        Some(x) => !str_eq(x, content),
        None => true,
    }
}

/// A file node's path: its id without the `file:` prefix.
pub open spec fn spec_path_of(id: Seq<char>) -> Seq<char> {
    if starts_with(id, "file:"@) { id.subrange(5, id.len() as int) } else { id }
}

pub fn path_of(id: &str) -> (r: String)
    ensures
        r@ == spec_path_of(id@),
{
    let c = crate::text::chars_of(id);
    let p = crate::text::chars_of("file:");
    proof {
        reveal_strlit("file:");
    }
    if crate::text::starts_with_exec(c.as_slice(), p.as_slice()) {
        string_of(crate::text::slice_chars(c.as_slice(), 5, c.len()).as_slice())
    } else {
        id.to_string()
    }
}

// ------------------------------------------------------------ questions

/// `(weight, key)` of `x` is at least that of `y` when keys count reversed:
/// heavier first, then the smaller pair.
pub open spec fn link_at_least(x: ((u32, u32), usize), y: ((u32, u32), usize)) -> bool {
    ||| x.1 > y.1
    ||| x.1 == y.1 && (x.0.0 < y.0.0 || (x.0.0 == y.0.0 && x.0.1 <= y.0.1))
}

/// The index of the most connected pair among the first `n` links: the
/// heaviest, the smallest pair among equals, the later among identical.
pub open spec fn best_link(links: Seq<((u32, u32), usize)>, n: int) -> int
    decreases n,
{
    if n <= 1 {
        0
    } else {
        let b = best_link(links, n - 1);
        if link_at_least(links[n - 1], links[b]) { n - 1 } else { b }
    }
}

/// The first key file of the listed subsystem `id`, if any.
pub open spec fn key_file_of(subsystems: Seq<Subsystem>, id: u32) -> Option<Seq<char>>
    decreases subsystems.len(),
{
    if subsystems.len() == 0 {
        None
    } else if subsystems[0].id == id {
        if subsystems[0].key_files@.len() > 0 { Some(subsystems[0].key_files@[0]@) } else { None }
    } else {
        key_file_of(subsystems.drop_first(), id)
    }
}

/// The label of community `id`, if it is known.
pub open spec fn label_of(labels: Seq<(u32, String)>, id: u32) -> Option<Seq<char>>
    decreases labels.len(),
{
    if labels.len() == 0 {
        None
    } else if labels[0].0 == id {
        Some(labels[0].1@)
    } else {
        label_of(labels.drop_first(), id)
    }
}

pub open spec fn q(question: Seq<char>, command: Seq<char>) -> (Seq<char>, Seq<char>) {
    (question, command)
}

pub open spec fn question_views(v: Seq<Question>) -> Seq<(Seq<char>, Seq<char>)> {
    v.map_values(|x: Question| (x.question@, x.command@))
}

/// The question about the most connected pair of subsystems, when both ends
/// have a key file and a label.
pub open spec fn pair_question(subsystems: Seq<Subsystem>, labels: Seq<(u32, String)>, links: Seq<((u32, u32), usize)>) -> Seq<(Seq<char>, Seq<char>)> {
    if links.len() == 0 {
        seq![]
    } else {
        let (a, b) = links[best_link(links, links.len() as int)].0;
        match (key_file_of(subsystems, a), key_file_of(subsystems, b), label_of(labels, a), label_of(labels, b)) {
            (Some(ka), Some(kb), Some(la), Some(lb)) => seq![q(
                "How is `"@ + la + "` wired to `"@ + lb + "` (the most connected pair)?"@,
                "code-rcl path "@ + ka + " "@ + kb + " --direction any"@,
            )],
            _ => seq![],
        }
    }
}

/// The questions worth asking: about the top hub, the top two hubs, the
/// widest bridge, the most connected pair, and always the uncommitted changes.
pub open spec fn spec_questions(
    hubs: Seq<HubItem>,
    subsystems: Seq<Subsystem>,
    labels: Seq<(u32, String)>,
    links: Seq<((u32, u32), usize)>,
    bridges: Seq<Bridge>,
) -> Seq<(Seq<char>, Seq<char>)> {
    (if hubs.len() >= 1 {
        seq![q("What breaks if `"@ + hubs[0].label@ + "` changes?"@, "code-rcl impact "@ + hubs[0].label@)]
    } else {
        seq![]
    }) + (if hubs.len() >= 2 {
        seq![q(
            "How do `"@ + hubs[0].label@ + "` and `"@ + hubs[1].label@ + "` connect?"@,
            "code-rcl path "@ + hubs[0].label@ + " "@ + hubs[1].label@,
        )]
    } else {
        seq![]
    }) + (if bridges.len() >= 1 {
        seq![q(
            "Why does `"@ + bridges[0].file@ + "` reach into "@ + decimal(bridges[0].touches@.len())
                + " other subsystem(s)?"@,
            "code-rcl explain "@ + bridges[0].file@,
        )]
    } else {
        seq![]
    }) + pair_question(subsystems, labels, links) + seq![q("What do my uncommitted changes affect?"@, "code-rcl impact --diff"@)]
}

fn key_file_exec(subsystems: &Vec<Subsystem>, id: u32) -> (r: Option<String>)
    ensures
        match key_file_of(subsystems@, id) {
            Some(k) => r matches Some(x) && x@ == k,
            None => r is None,
        },
{
    let mut i: usize = 0;
    assert(subsystems@.subrange(0, subsystems@.len() as int) =~= subsystems@);
    while i < subsystems.len()
        invariant
            0 <= i <= subsystems@.len(),
            key_file_of(subsystems@, id) == key_file_of(subsystems@.subrange(i as int, subsystems@.len() as int), id),
        decreases subsystems@.len() - i,
    {
        let ghost rest = subsystems@.subrange(i as int, subsystems@.len() as int);
        assert(rest[0] == subsystems@[i as int]);
        if subsystems[i].id == id {
            if subsystems[i].key_files.len() > 0 {
                return Some(subsystems[i].key_files[0].clone());
            }
            return None;
        }
        assert(rest.drop_first() =~= subsystems@.subrange(i + 1, subsystems@.len() as int));
        i = i + 1;
    }
    None
}

fn label_exec(labels: &Vec<(u32, String)>, id: u32) -> (r: Option<String>)
    ensures
        match label_of(labels@, id) {
            Some(k) => r matches Some(x) && x@ == k,
            None => r is None,
        },
{
    let mut i: usize = 0;
    assert(labels@.subrange(0, labels@.len() as int) =~= labels@);
    while i < labels.len()
        invariant
            0 <= i <= labels@.len(),
            label_of(labels@, id) == label_of(labels@.subrange(i as int, labels@.len() as int), id),
        decreases labels@.len() - i,
    {
        let ghost rest = labels@.subrange(i as int, labels@.len() as int);
        assert(rest[0] == labels@[i as int]);
        if labels[i].0 == id {
            return Some(labels[i].1.clone());
        }
        assert(rest.drop_first() =~= labels@.subrange(i + 1, labels@.len() as int));
        i = i + 1;
    }
    None
}

fn push_question(out: &mut Vec<Question>, question: String, command: String)
    ensures
        question_views(final(out)@) == question_views(old(out)@).push((question@, command@)),
{
    out.push(Question { question, command });
    assert(question_views(out@) =~= question_views(old(out)@).push((question@, command@)));
}

/// The suggested questions, from the hubs, the listed subsystems, every
/// community's label, the links between communities and the bridges.
pub fn questions_of(
    hubs: &Vec<HubItem>,
    subsystems: &Vec<Subsystem>,
    labels: &Vec<(u32, String)>,
    links: &Vec<((u32, u32), usize)>,
    bridges: &Vec<Bridge>,
) -> (r: Vec<Question>)
    ensures
        question_views(r@) == spec_questions(hubs@, subsystems@, labels@, links@, bridges@),
{
    let mut out: Vec<Question> = Vec::new();
    if hubs.len() >= 1 {
        let l = hubs[0].label.as_str();
        let q1 = concat(concat("What breaks if `", l).as_str(), "` changes?");
        push_question(&mut out, q1, concat("code-rcl impact ", l));
    }
    if hubs.len() >= 2 {
        let a = hubs[0].label.as_str();
        let b = hubs[1].label.as_str();
        let qa = concat(concat(concat(concat("How do `", a).as_str(), "` and `").as_str(), b).as_str(), "` connect?");
        let ca = concat(concat(concat("code-rcl path ", a).as_str(), " ").as_str(), b);
        push_question(&mut out, qa, ca);
    }
    if bridges.len() >= 1 {
        let f = bridges[0].file.as_str();
        let n = crate::text::decimal_string(bridges[0].touches.len() as u64);
        let qb = concat(concat(concat(concat("Why does `", f).as_str(), "` reach into ").as_str(), n.as_str()).as_str(), " other subsystem(s)?");
        push_question(&mut out, qb, concat("code-rcl explain ", f));
    }
    let ghost before_pair = question_views(out@);
    if links.len() > 0 {
        let mut best: usize = 0;
        let mut j: usize = 1;
        while j < links.len()
            invariant
                1 <= j <= links@.len(),
                best == best_link(links@, j as int),
                best < j,
            decreases links@.len() - j,
        {
            let x = links[j];
            let y = links[best];
            if x.1 > y.1 || (x.1 == y.1 && (x.0.0 < y.0.0 || (x.0.0 == y.0.0 && x.0.1 <= y.0.1))) {
                best = j;
            }
            j = j + 1;
        }
        let (a, b) = links[best].0;
        let ka = key_file_exec(subsystems, a);
        let kb = key_file_exec(subsystems, b);
        let la = label_exec(labels, a);
        let lb = label_exec(labels, b);
        match (ka, kb, la, lb) {
            (Some(ka), Some(kb), Some(la), Some(lb)) => {
                let qp = concat(concat(concat(concat("How is `", la.as_str()).as_str(), "` wired to `").as_str(), lb.as_str()).as_str(), "` (the most connected pair)?");
                let cp = concat(concat(concat(concat("code-rcl path ", ka.as_str()).as_str(), " ").as_str(), kb.as_str()).as_str(), " --direction any");
                push_question(&mut out, qp, cp);
            },
            _ => {},
        }
    }
    assert(question_views(out@) =~= before_pair + pair_question(subsystems@, labels@, links@));
    push_question(&mut out, "What do my uncommitted changes affect?".to_string(), "code-rcl impact --diff".to_string());
    assert(question_views(out@) =~= spec_questions(hubs@, subsystems@, labels@, links@, bridges@));
    out
}

// ------------------------------------------------------------ Markdown

/// Items as `` `a`, `b` ``.
pub open spec fn ticked_list(v: Seq<String>) -> Seq<char>
    decreases v.len(),
{
    if v.len() == 0 {
        seq![]
    } else if v.len() == 1 {
        "`"@ + v[0]@ + "`"@
    } else {
        ticked_list(v.drop_last()) + ", "@ + "`"@ + v.last()@ + "`"@
    }
}

pub open spec fn dep_entry(l: LinkInfo) -> Seq<char> {
    "`"@ + l.subsystem@ + "` ("@ + decimal(l.links as nat) + " links)"@
}

/// Linked subsystems as `` `a` (3 links), `b` (1 links) ``.
pub open spec fn dep_list(v: Seq<LinkInfo>) -> Seq<char>
    decreases v.len(),
{
    if v.len() == 0 {
        seq![]
    } else if v.len() == 1 {
        dep_entry(v[0])
    } else {
        dep_list(v.drop_last()) + ", "@ + dep_entry(v.last())
    }
}

pub open spec fn subsystem_head(i: int, s: Subsystem) -> Seq<char> {
    "### "@ + decimal((i + 1) as nat) + ". "@ + s.label@ + " ("@ + decimal(s.files as nat) + " files)\n\n"@
}

pub open spec fn subsystem_cohesion(s: Subsystem) -> Seq<char> {
    "- Cohesion: "@ + decimal(s.cohesion_percent as nat) + "% ("@ + decimal(s.internal_links as nat)
        + " internal links, "@ + decimal(s.external_links as nat) + " to other subsystems)\n"@
}

pub open spec fn subsystem_links(s: Subsystem) -> Seq<char> {
    if s.depends_on@.len() == 0 { seq![] } else { "- Linked to: "@ + dep_list(s.depends_on@) + "\n"@ }
}

/// One subsystem's section, numbered from 1.
pub open spec fn subsystem_md(i: int, s: Subsystem) -> Seq<char> {
    subsystem_head(i, s) + "- Key files: "@ + ticked_list(s.key_files@) + "\n"@ + subsystem_cohesion(s)
        + subsystem_links(s) + "\n"@
}

pub open spec fn subsystems_md(v: Seq<Subsystem>) -> Seq<char>
    decreases v.len(),
{
    if v.len() == 0 { seq![] } else { subsystems_md(v.drop_last()) + subsystem_md(v.len() - 1, v.last()) }
}

pub open spec fn bridge_row(b: Bridge) -> Seq<char> {
    "| `"@ + b.file@ + "` | "@ + ticked_list(b.touches@) + " |\n"@
}

pub open spec fn bridge_rows(v: Seq<Bridge>) -> Seq<char>
    decreases v.len(),
{
    if v.len() == 0 { seq![] } else { bridge_rows(v.drop_last()) + bridge_row(v.last()) }
}

pub open spec fn question_rows(v: Seq<Question>) -> Seq<char>
    decreases v.len(),
{
    if v.len() == 0 {
        seq![]
    } else {
        question_rows(v.drop_last()) + "- "@ + v.last().question@ + " `"@ + v.last().command@ + "`\n"@
    }
}

pub open spec fn report_summary(d: ReportData, order: Seq<usize>) -> Seq<char> {
    "**Summary**: "@ + decimal(d.total_files as nat) + " files | "@ + decimal(d.total_symbols as nat) + " symbols ("@
        + decimal(d.public_symbols as nat) + " public) | Languages: "@
        + (if d.languages@.len() == 0 { "none"@ } else { lang_list(d.languages@, order, order.len() as int) })
        + "\n\n"@
}

pub open spec fn report_hubs(v: Seq<HubItem>) -> Seq<char> {
    if v.len() == 0 {
        seq![]
    } else {
        "## Core hubs\n\nMost connected nodes; changes here reach the furthest.\n\n"@
            + "| Symbol | Kind | File | Degree |\n| :--- | :--- | :--- | :--- |\n"@ + hub_rows(v) + "\n"@
    }
}

pub open spec fn report_subsystems(d: ReportData) -> Seq<char> {
    "## Subsystems\n\n"@ + (if d.subsystems@.len() == 0 {
        "_No subsystems detected: files have no cross-file imports or calls yet._\n\n"@
    } else {
        "Groups of files that depend on each other far more than on the rest (detected from imports and calls).\n\n"@
            + subsystems_md(d.subsystems@)
    }) + (if d.unclustered_files > 0 {
        "_"@ + decimal(d.unclustered_files as nat) + " file(s) belong to no subsystem (no links to other files)._\n\n"@
    } else {
        seq![]
    })
}

pub open spec fn report_bridges(v: Seq<Bridge>) -> Seq<char> {
    if v.len() == 0 {
        seq![]
    } else {
        "## Bridges\n\nFiles with links into other subsystems, most far-reaching first; the seams to be careful with.\n\n"@
            + "| File | Reaches into |\n| :--- | :--- |\n"@ + bridge_rows(v) + "\n"@
    }
}

/// The whole report, with the languages listed in `order`.
pub open spec fn report_md(d: ReportData, order: Seq<usize>) -> Seq<char> {
    "# Code Report: "@ + d.project@ + "\n\n"@
        + "_Generated by code-rcl. Refresh with `code-rcl report --write`; `code-rcl sync` keeps it current._\n\n"@
        + report_summary(d, order) + report_hubs(d.hubs@) + report_subsystems(d) + report_bridges(d.bridges@)
        + "## Suggested questions\n\n"@ + question_rows(d.questions@)
}

fn push_ticked(out: &mut Vec<char>, v: &Vec<String>)
    ensures
        final(out)@ == old(out)@ + ticked_list(v@),
{
    let mut i: usize = 0;
    while i < v.len()
        invariant
            0 <= i <= v@.len(),
            out@ == old(out)@ + ticked_list(v@.take(i as int)),
        decreases v@.len() - i,
    {
        if i > 0 {
            push_str(out, ", ");
        }
        push_str(out, "`");
        push_str(out, v[i].as_str());
        push_str(out, "`");
        proof {
            assert(v@.take(i + 1).drop_last() =~= v@.take(i as int));
            assert(v@.take(i + 1).last() == v@[i as int]);
            if i == 0 {
                assert(v@.take(1)[0] == v@[0]);
            }
        }
        i = i + 1;
        assert(out@ =~= old(out)@ + ticked_list(v@.take(i as int)));
    }
    assert(v@.take(v@.len() as int) =~= v@);
}

fn push_deps(out: &mut Vec<char>, v: &Vec<LinkInfo>)
    ensures
        final(out)@ == old(out)@ + dep_list(v@),
{
    let mut i: usize = 0;
    while i < v.len()
        invariant
            0 <= i <= v@.len(),
            out@ == old(out)@ + dep_list(v@.take(i as int)),
        decreases v@.len() - i,
    {
        if i > 0 {
            push_str(out, ", ");
        }
        let ghost before = out@;
        push_str(out, "`");
        push_str(out, v[i].subsystem.as_str());
        push_str(out, "` (");
        push_decimal(out, v[i].links as u64);
        push_str(out, " links)");
        proof {
            assert(out@ =~= before + dep_entry(v@[i as int]));
            assert(v@.take(i + 1).drop_last() =~= v@.take(i as int));
            assert(v@.take(i + 1).last() == v@[i as int]);
            if i == 0 {
                assert(v@.take(1)[0] == v@[0]);
            }
        }
        i = i + 1;
        assert(out@ =~= old(out)@ + dep_list(v@.take(i as int)));
    }
    assert(v@.take(v@.len() as int) =~= v@);
}

fn push_subsystem(out: &mut Vec<char>, i: usize, s: &Subsystem)
    requires
        i < usize::MAX,
    ensures
        final(out)@ == old(out)@ + subsystem_md(i as int, *s),
{
    push_str(out, "### ");
    push_decimal(out, (i + 1) as u64);
    push_str(out, ". ");
    push_str(out, s.label.as_str());
    push_str(out, " (");
    push_decimal(out, s.files as u64);
    push_str(out, " files)\n\n");
    assert(out@ =~= old(out)@ + subsystem_head(i as int, *s));
    let ghost a = out@;
    push_str(out, "- Key files: ");
    push_ticked(out, &s.key_files);
    push_str(out, "\n");
    let ghost b = out@;
    push_str(out, "- Cohesion: ");
    push_decimal(out, s.cohesion_percent as u64);
    push_str(out, "% (");
    push_decimal(out, s.internal_links as u64);
    push_str(out, " internal links, ");
    push_decimal(out, s.external_links as u64);
    push_str(out, " to other subsystems)\n");
    assert(out@ =~= b + subsystem_cohesion(*s));
    let ghost c = out@;
    if s.depends_on.len() > 0 {
        push_str(out, "- Linked to: ");
        push_deps(out, &s.depends_on);
        push_str(out, "\n");
    }
    assert(out@ =~= c + subsystem_links(*s));
    push_str(out, "\n");
    assert(out@ =~= old(out)@ + subsystem_md(i as int, *s));
}

fn push_summary(out: &mut Vec<char>, d: &ReportData) -> (order: Ghost<Seq<usize>>)
    ensures
        count_ranking(d.languages@, order@),
        final(out)@ == old(out)@ + report_summary(*d, order@),
{
    let order = rank_languages(&d.languages);
    let ghost ov = order@;
    push_str(out, "**Summary**: ");
    push_decimal(out, d.total_files as u64);
    push_str(out, " files | ");
    push_decimal(out, d.total_symbols as u64);
    push_str(out, " symbols (");
    push_decimal(out, d.public_symbols as u64);
    push_str(out, " public) | Languages: ");
    if d.languages.len() == 0 {
        push_str(out, "none");
    } else {
        let ghost lhead = out@;
        let mut k: usize = 0;
        while k < order.len()
            invariant
                0 <= k <= order@.len(),
                order@ == ov,
                count_ranking(d.languages@, ov),
                out@ == lhead + lang_list(d.languages@, ov, k as int),
            decreases order@.len() - k,
        {
            let l = &d.languages[order[k]];
            if k > 0 {
                push_str(out, ", ");
            }
            push_str(out, l.0.as_str());
            push_str(out, " (");
            push_decimal(out, l.1 as u64);
            push_str(out, ")");
            k = k + 1;
            assert(out@ =~= lhead + lang_list(d.languages@, ov, k as int));
        }
    }
    push_str(out, "\n\n");
    assert(out@ =~= old(out)@ + report_summary(*d, ov));
    Ghost(ov)
}

fn push_report_hubs(out: &mut Vec<char>, hubs: &Vec<HubItem>)
    ensures
        final(out)@ == old(out)@ + report_hubs(hubs@),
{
    if hubs.len() == 0 {
        assert(old(out)@ + report_hubs(hubs@) =~= old(out)@);
        return;
    }
    push_str(out, "## Core hubs\n\nMost connected nodes; changes here reach the furthest.\n\n");
    push_str(out, "| Symbol | Kind | File | Degree |\n| :--- | :--- | :--- | :--- |\n");
    let ghost rows_head = out@;
    let mut i: usize = 0;
    assert(hubs@.take(0) =~= seq![]);
    while i < hubs.len()
        invariant
            0 <= i <= hubs@.len(),
            out@ == rows_head + hub_rows(hubs@.take(i as int)),
        decreases hubs@.len() - i,
    {
        push_hub(out, &hubs[i]);
        proof {
            assert(hubs@.take(i + 1).drop_last() =~= hubs@.take(i as int));
            assert(hubs@.take(i + 1).last() == hubs@[i as int]);
        }
        i = i + 1;
        assert(out@ =~= rows_head + hub_rows(hubs@.take(i as int)));
    }
    assert(hubs@.take(hubs@.len() as int) =~= hubs@);
    push_str(out, "\n");
    assert(out@ =~= old(out)@ + report_hubs(hubs@));
}

fn push_report_subsystems(out: &mut Vec<char>, d: &ReportData)
    ensures
        final(out)@ == old(out)@ + report_subsystems(*d),
{
    push_str(out, "## Subsystems\n\n");
    let ghost head = out@;
    if d.subsystems.len() == 0 {
        push_str(out, "_No subsystems detected: files have no cross-file imports or calls yet._\n\n");
    } else {
        push_str(out, "Groups of files that depend on each other far more than on the rest (detected from imports and calls).\n\n");
        let ghost sub_head = out@;
        let mut i: usize = 0;
        assert(d.subsystems@.take(0) =~= seq![]);
        while i < d.subsystems.len()
            invariant
                0 <= i <= d.subsystems@.len(),
                out@ == sub_head + subsystems_md(d.subsystems@.take(i as int)),
            decreases d.subsystems@.len() - i,
        {
            push_subsystem(out, i, &d.subsystems[i]);
            proof {
                assert(d.subsystems@.take(i + 1).drop_last() =~= d.subsystems@.take(i as int));
                assert(d.subsystems@.take(i + 1).last() == d.subsystems@[i as int]);
            }
            i = i + 1;
            assert(out@ =~= sub_head + subsystems_md(d.subsystems@.take(i as int)));
        }
        assert(d.subsystems@.take(d.subsystems@.len() as int) =~= d.subsystems@);
    }
    let ghost mid = out@;
    if d.unclustered_files > 0 {
        push_str(out, "_");
        push_decimal(out, d.unclustered_files as u64);
        push_str(out, " file(s) belong to no subsystem (no links to other files)._\n\n");
    }
    assert(out@ =~= old(out)@ + report_subsystems(*d));
}

fn push_report_bridges(out: &mut Vec<char>, bridges: &Vec<Bridge>)
    ensures
        final(out)@ == old(out)@ + report_bridges(bridges@),
{
    if bridges.len() == 0 {
        assert(old(out)@ + report_bridges(bridges@) =~= old(out)@);
        return;
    }
    push_str(out, "## Bridges\n\nFiles with links into other subsystems, most far-reaching first; the seams to be careful with.\n\n");
    push_str(out, "| File | Reaches into |\n| :--- | :--- |\n");
    let ghost rows_head = out@;
    let mut i: usize = 0;
    assert(bridges@.take(0) =~= seq![]);
    while i < bridges.len()
        invariant
            0 <= i <= bridges@.len(),
            out@ == rows_head + bridge_rows(bridges@.take(i as int)),
        decreases bridges@.len() - i,
    {
        let b = &bridges[i];
        let ghost before = out@;
        push_str(out, "| `");
        push_str(out, b.file.as_str());
        push_str(out, "` | ");
        push_ticked(out, &b.touches);
        push_str(out, " |\n");
        proof {
            assert(out@ =~= before + bridge_row(*b));
            assert(bridges@.take(i + 1).drop_last() =~= bridges@.take(i as int));
            assert(bridges@.take(i + 1).last() == bridges@[i as int]);
        }
        i = i + 1;
        assert(out@ =~= rows_head + bridge_rows(bridges@.take(i as int)));
    }
    assert(bridges@.take(bridges@.len() as int) =~= bridges@);
    push_str(out, "\n");
    assert(out@ =~= old(out)@ + report_bridges(bridges@));
}

fn push_questions(out: &mut Vec<char>, qs: &Vec<Question>)
    ensures
        final(out)@ == old(out)@ + question_rows(qs@),
{
    let mut i: usize = 0;
    assert(qs@.take(0) =~= seq![]);
    while i < qs.len()
        invariant
            0 <= i <= qs@.len(),
            out@ == old(out)@ + question_rows(qs@.take(i as int)),
        decreases qs@.len() - i,
    {
        let qn = &qs[i];
        push_str(out, "- ");
        push_str(out, qn.question.as_str());
        push_str(out, " `");
        push_str(out, qn.command.as_str());
        push_str(out, "`\n");
        proof {
            assert(qs@.take(i + 1).drop_last() =~= qs@.take(i as int));
            assert(qs@.take(i + 1).last() == qs@[i as int]);
        }
        i = i + 1;
        assert(out@ =~= old(out)@ + question_rows(qs@.take(i as int)));
    }
    assert(qs@.take(qs@.len() as int) =~= qs@);
}

/// Render a report as Markdown.
pub fn render_markdown(d: &ReportData) -> (md: String)
    ensures
        exists|order: Seq<usize>| #[trigger] count_ranking(d.languages@, order)
            && md@ == report_md(*d, order),
{
    let mut out: Vec<char> = Vec::new();
    push_str(&mut out, "# Code Report: ");
    push_str(&mut out, d.project.as_str());
    push_str(&mut out, "\n\n");
    push_str(&mut out, "_Generated by code-rcl. Refresh with `code-rcl report --write`; `code-rcl sync` keeps it current._\n\n");
    let ghost p0 = out@;
    let order = push_summary(&mut out, d);
    let ghost p1 = out@;
    push_report_hubs(&mut out, &d.hubs);
    let ghost p2 = out@;
    push_report_subsystems(&mut out, d);
    let ghost p3 = out@;
    push_report_bridges(&mut out, &d.bridges);
    let ghost p4 = out@;
    push_str(&mut out, "## Suggested questions\n\n");
    push_questions(&mut out, &d.questions);
    assert(out@ =~= report_md(*d, order@));
    string_of(out.as_slice())
}

} // verus!
