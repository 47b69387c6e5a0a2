//! The digest as Markdown.

use vstd::prelude::*;
use crate::rank::{goes_before, name_views, rank_selected, unselected};
use crate::text::{chars_of, decimal, decimal_string, lines_exec, str_lines};
use super::models::{DigestReport, FileDigest, HubItem, ModuleDigest, SymbolItem, TypeDigest};

verus! {

pub open spec fn diag(b: bool) -> Seq<char> {
    if b { " `[diagram]`"@ } else { seq![] }
}

/// Each line as an `indent> line` quote.
pub open spec fn quote_lines(ls: Seq<Seq<char>>, indent: Seq<char>) -> Seq<char>
    decreases ls.len(),
{
    if ls.len() == 0 {
        seq![]
    } else {
        quote_lines(ls.drop_last(), indent) + indent + "> "@ + ls.last() + "\n"@
    }
}

pub open spec fn quoted(doc: Option<String>, indent: Seq<char>) -> Seq<char> {
    match doc {
        Some(d) => quote_lines(str_lines(d@), indent),
        None => seq![],
    }
}

/// A function or method line, with its doc quoted below it.
pub open spec fn item_md(s: SymbolItem, bullet: Seq<char>, indent: Seq<char>) -> Seq<char> {
    bullet + "`"@ + s.signature@ + "`"@ + diag(s.has_diagram) + "\n"@ + quoted(s.doc, indent)
}

pub open spec fn items_md(v: Seq<SymbolItem>, bullet: Seq<char>, indent: Seq<char>) -> Seq<char>
    decreases v.len(),
{
    if v.len() == 0 { seq![] } else { items_md(v.drop_last(), bullet, indent) + item_md(v.last(), bullet, indent) }
}

/// A type in bold, its doc, then its methods nested under it.
pub open spec fn type_md(t: TypeDigest) -> Seq<char> {
    "- **`"@ + t.signature@ + "`**"@ + diag(t.has_diagram) + "\n"@ + quoted(t.doc, "  "@)
        + items_md(t.methods@, "  - "@, "    "@)
}

pub open spec fn types_md(v: Seq<TypeDigest>) -> Seq<char>
    decreases v.len(),
{
    if v.len() == 0 { seq![] } else { types_md(v.drop_last()) + type_md(v.last()) }
}

/// A file's heading, its types, then its free functions (under a
/// `Functions` bullet when the file also has types).
pub open spec fn file_md(f: FileDigest) -> Seq<char> {
    "#### `"@ + f.path@ + "` ("@ + f.language@ + ")\n\n"@ + types_md(f.types@)
        + (if f.functions@.len() == 0 {
            seq![]
        } else if f.types@.len() > 0 {
            "- **Functions**:\n"@ + items_md(f.functions@, "  - "@, "    "@)
        } else {
            items_md(f.functions@, "- "@, "  "@)
        }) + "\n"@
}

pub open spec fn files_md(v: Seq<FileDigest>) -> Seq<char>
    decreases v.len(),
{
    if v.len() == 0 { seq![] } else { files_md(v.drop_last()) + file_md(v.last()) }
}

pub open spec fn module_title(dir: Seq<char>) -> Seq<char> {
    if dir == "."@ { "Root Directory (`.`)"@ } else { "Directory: `"@ + dir + "`"@ }
}

pub open spec fn module_md(m: ModuleDigest) -> Seq<char> {
    "### "@ + module_title(m.directory@) + "\n\n"@ + files_md(m.files@)
}

pub open spec fn modules_md(v: Seq<ModuleDigest>) -> Seq<char>
    decreases v.len(),
{
    if v.len() == 0 { seq![] } else { modules_md(v.drop_last()) + module_md(v.last()) }
}

pub open spec fn hub_row(h: HubItem) -> Seq<char> {
    "| `"@ + h.label@ + "` | "@ + h.kind@ + " | `"@ + (match h.path { Some(p) => p@, None => "-"@ })
        + "` | "@ + decimal(h.degree as nat) + " |\n"@
}

pub open spec fn hub_rows(v: Seq<HubItem>) -> Seq<char>
    decreases v.len(),
{
    if v.len() == 0 { seq![] } else { hub_rows(v.drop_last()) + hub_row(v.last()) }
}

/// The hub table, when there are hubs.
pub open spec fn hubs_md(v: Seq<HubItem>) -> Seq<char> {
    if v.len() == 0 {
        seq![]
    } else {
        "## Core Architecture Hubs\n\n"@ + "| Symbol | Kind | File | Degree |\n"@ + "| :--- | :--- | :--- | :--- |\n"@
            + hub_rows(v) + "\n"@
    }
}

pub open spec fn lang_entry(l: (String, usize)) -> Seq<char> {
    l.0@ + " ("@ + decimal(l.1 as nat) + ")"@
}

/// The first `k` languages of `order`, joined with `, `.
pub open spec fn lang_list(langs: Seq<(String, usize)>, order: Seq<usize>, k: int) -> Seq<char>
    decreases k,
{
    if k <= 0 {
        seq![]
    } else if k == 1 {
        lang_entry(langs[order[0] as int])
    } else {
        lang_list(langs, order, k - 1) + ", "@ + lang_entry(langs[order[k - 1] as int])
    }
}

pub open spec fn lang_counts(langs: Seq<(String, usize)>) -> Seq<usize> {
    langs.map_values(|l: (String, usize)| l.1)
}

pub open spec fn lang_names(langs: Seq<(String, usize)>) -> Seq<Seq<char>> {
    langs.map_values(|l: (String, usize)| l.0@)
}

/// `order` lists every language once, most files first, ties by name.
pub open spec fn count_ranking(langs: Seq<(String, usize)>, order: Seq<usize>) -> bool {
    &&& order.len() == langs.len()
    &&& forall|k: int| 0 <= k < order.len() ==> #[trigger] order[k] < langs.len()
    &&& forall|a: int, b: int| 0 <= a < b < order.len()
        ==> goes_before(lang_counts(langs), lang_names(langs), #[trigger] order[a] as int, #[trigger] order[b] as int)
}

pub open spec fn summary_md(r: DigestReport, order: Seq<usize>) -> Seq<char> {
    "**Summary**: "@ + decimal(r.total_files as nat) + " files | "@ + decimal(r.total_symbols as nat) + " symbols ("@
        + decimal(r.public_symbols as nat) + " public) | Languages: "@
        + (if r.languages@.len() == 0 { "none"@ } else { lang_list(r.languages@, order, order.len() as int) })
        + "\n\n"@
}

/// The whole digest document, with the languages listed in `order`.
pub open spec fn digest_md(r: DigestReport, order: Seq<usize>) -> Seq<char> {
    "# Architecture Digest: "@ + r.project@ + "\n\n"@ + summary_md(r, order) + hubs_md(r.hubs@)
        + "## Modules & Public APIs\n\n"@ + modules_md(r.modules@)
}

pub(crate) fn push_str(out: &mut Vec<char>, s: &str)
    ensures
        final(out)@ == old(out)@ + s@,
{
    let c = chars_of(s);
    let mut j: usize = 0;
    while j < c.len()
        invariant
            0 <= j <= c@.len(),
            c@ == s@,
            out@ == old(out)@ + s@.take(j as int),
        decreases c@.len() - j,
    {
        out.push(c[j]);
        j = j + 1;
        assert(out@ =~= old(out)@ + s@.take(j as int));
    }
    assert(s@.take(s@.len() as int) =~= s@);
}

pub(crate) fn push_chars(out: &mut Vec<char>, s: &[char])
    ensures
        final(out)@ == old(out)@ + s@,
{
    let mut j: usize = 0;
    while j < s.len()
        invariant
            0 <= j <= s@.len(),
            out@ == old(out)@ + s@.take(j as int),
        decreases s@.len() - j,
    {
        out.push(s[j]);
        j = j + 1;
        assert(out@ =~= old(out)@ + s@.take(j as int));
    }
    assert(s@.take(s@.len() as int) =~= s@);
}

fn push_diag(out: &mut Vec<char>, b: bool)
    ensures
        final(out)@ == old(out)@ + diag(b),
{
    if b {
        push_str(out, " `[diagram]`");
    } else {
        assert(old(out)@ + diag(b) =~= old(out)@);
    }
}

fn push_quoted(out: &mut Vec<char>, doc: &Option<String>, indent: &str)
    ensures
        final(out)@ == old(out)@ + quoted(*doc, indent@),
{
    match doc {
        None => {
            assert(old(out)@ + quoted(*doc, indent@) =~= old(out)@);
        },
        Some(d) => {
            let ls = lines_exec(d.as_str());
            let ghost lv = ls@.map_values(|l: Vec<char>| l@);
            let mut i: usize = 0;
            assert(lv.take(0) =~= seq![]);
            while i < ls.len()
                invariant
                    0 <= i <= ls@.len(),
                    lv == ls@.map_values(|l: Vec<char>| l@),
                    out@ == old(out)@ + quote_lines(lv.take(i as int), indent@),
                decreases ls@.len() - i,
            {
                let ghost before = out@;
                push_str(out, indent);
                push_str(out, "> ");
                push_chars(out, ls[i].as_slice());
                push_str(out, "\n");
                proof {
                    assert(lv.take(i + 1).drop_last() =~= lv.take(i as int));
                    assert(lv.take(i + 1).last() == ls@[i as int]@);
                    assert(out@ =~= old(out)@ + quote_lines(lv.take(i + 1), indent@));
                }
                i = i + 1;
            }
            assert(lv.take(ls@.len() as int) =~= lv);
        },
    }
}

fn push_item(out: &mut Vec<char>, s: &SymbolItem, bullet: &str, indent: &str)
    ensures
        final(out)@ == old(out)@ + item_md(*s, bullet@, indent@),
{
    push_str(out, bullet);
    push_str(out, "`");
    push_str(out, s.signature.as_str());
    push_str(out, "`");
    push_diag(out, s.has_diagram);
    push_str(out, "\n");
    push_quoted(out, &s.doc, indent);
    assert(out@ =~= old(out)@ + item_md(*s, bullet@, indent@));
}

fn push_items(out: &mut Vec<char>, v: &Vec<SymbolItem>, bullet: &str, indent: &str)
    ensures
        final(out)@ == old(out)@ + items_md(v@, bullet@, indent@),
{
    let mut i: usize = 0;
    assert(v@.take(0) =~= seq![]);
    while i < v.len()
        invariant
            0 <= i <= v@.len(),
            out@ == old(out)@ + items_md(v@.take(i as int), bullet@, indent@),
        decreases v@.len() - i,
    {
        push_item(out, &v[i], bullet, indent);
        proof {
            assert(v@.take(i + 1).drop_last() =~= v@.take(i as int));
            assert(v@.take(i + 1).last() == v@[i as int]);
        }
        i = i + 1;
        assert(out@ =~= old(out)@ + items_md(v@.take(i as int), bullet@, indent@));
    }
    assert(v@.take(v@.len() as int) =~= v@);
}

fn push_type(out: &mut Vec<char>, t: &TypeDigest)
    ensures
        final(out)@ == old(out)@ + type_md(*t),
{
    push_str(out, "- **`");
    push_str(out, t.signature.as_str());
    push_str(out, "`**");
    push_diag(out, t.has_diagram);
    push_str(out, "\n");
    push_quoted(out, &t.doc, "  ");
    push_items(out, &t.methods, "  - ", "    ");
    assert(out@ =~= old(out)@ + type_md(*t));
}

fn push_file(out: &mut Vec<char>, f: &FileDigest)
    ensures
        final(out)@ == old(out)@ + file_md(*f),
{
    push_str(out, "#### `");
    push_str(out, f.path.as_str());
    push_str(out, "` (");
    push_str(out, f.language.as_str());
    push_str(out, ")\n\n");
    let ghost head = out@;
    let mut i: usize = 0;
    assert(f.types@.take(0) =~= seq![]);
    while i < f.types.len()
        invariant
            0 <= i <= f.types@.len(),
            out@ == head + types_md(f.types@.take(i as int)),
        decreases f.types@.len() - i,
    {
        push_type(out, &f.types[i]);
        proof {
            assert(f.types@.take(i + 1).drop_last() =~= f.types@.take(i as int));
            assert(f.types@.take(i + 1).last() == f.types@[i as int]);
        }
        i = i + 1;
        assert(out@ =~= head + types_md(f.types@.take(i as int)));
    }
    assert(f.types@.take(f.types@.len() as int) =~= f.types@);
    let ghost mid = out@;
    if f.functions.len() > 0 {
        if f.types.len() > 0 {
            push_str(out, "- **Functions**:\n");
            push_items(out, &f.functions, "  - ", "    ");
        } else {
            push_items(out, &f.functions, "- ", "  ");
        }
    }
    push_str(out, "\n");
    assert(out@ =~= old(out)@ + file_md(*f));
}

fn push_module(out: &mut Vec<char>, m: &ModuleDigest)
    ensures
        final(out)@ == old(out)@ + module_md(*m),
{
    push_str(out, "### ");
    if crate::text::str_eq(m.directory.as_str(), ".") {
        push_str(out, "Root Directory (`.`)");
    } else {
        push_str(out, "Directory: `");
        push_str(out, m.directory.as_str());
        push_str(out, "`");
    }
    push_str(out, "\n\n");
    let ghost head = out@;
    let mut i: usize = 0;
    assert(m.files@.take(0) =~= seq![]);
    while i < m.files.len()
        invariant
            0 <= i <= m.files@.len(),
            out@ == head + files_md(m.files@.take(i as int)),
        decreases m.files@.len() - i,
    {
        push_file(out, &m.files[i]);
        proof {
            assert(m.files@.take(i + 1).drop_last() =~= m.files@.take(i as int));
            assert(m.files@.take(i + 1).last() == m.files@[i as int]);
        }
        i = i + 1;
        assert(out@ =~= head + files_md(m.files@.take(i as int)));
    }
    assert(m.files@.take(m.files@.len() as int) =~= m.files@);
    assert(out@ =~= old(out)@ + module_md(*m));
}

pub(crate) fn push_decimal(out: &mut Vec<char>, n: u64)
    ensures
        final(out)@ == old(out)@ + decimal(n as nat),
{
    let d = decimal_string(n);
    push_str(out, d.as_str());
}

pub(crate) fn push_hub(out: &mut Vec<char>, h: &HubItem)
    ensures
        final(out)@ == old(out)@ + hub_row(*h),
{
    push_str(out, "| `");
    push_str(out, h.label.as_str());
    push_str(out, "` | ");
    push_str(out, h.kind.as_str());
    push_str(out, " | `");
    match &h.path {
        Some(p) => push_str(out, p.as_str()),
        None => push_str(out, "-"),
    }
    push_str(out, "` | ");
    push_decimal(out, h.degree as u64);
    push_str(out, " |\n");
    assert(out@ =~= old(out)@ + hub_row(*h));
}

/// The order languages are listed in: most files first, ties by name.
pub fn rank_languages(langs: &Vec<(String, usize)>) -> (order: Vec<usize>)
    ensures
        count_ranking(langs@, order@),
{
    let n = langs.len();
    let mut counts: Vec<usize> = Vec::new();
    let mut names: Vec<String> = Vec::new();
    let mut keep: Vec<bool> = Vec::new();
    let mut i: usize = 0;
    while i < n
        invariant
            n == langs@.len(),
            0 <= i <= n,
            counts@ == lang_counts(langs@).take(i as int),
            name_views(names@) == lang_names(langs@).take(i as int),
            keep@.len() == i,
            forall|j: int| 0 <= j < i ==> #[trigger] keep@[j],
        decreases n - i,
    {
        counts.push(langs[i].1);
        let nm = langs[i].0.clone();
        let ghost before = names@;
        names.push(nm);
        keep.push(true);
        proof {
            assert(names@ =~= before.push(nm));
            assert(name_views(names@) =~= name_views(before).push(nm@));
            assert(lang_names(langs@).take(i + 1) =~= lang_names(langs@).take(i as int).push(langs@[i as int].0@));
        }
        i = i + 1;
        assert(counts@ =~= lang_counts(langs@).take(i as int));
        assert(name_views(names@) =~= lang_names(langs@).take(i as int));
    }
    assert(counts@ =~= lang_counts(langs@));
    assert(name_views(names@) =~= lang_names(langs@));
    let order = rank_selected(counts.as_slice(), names.as_slice(), keep.as_slice());
    proof {
        lemma_all_selected(keep@);
    }
    order
}

proof fn lemma_all_selected(keep: Seq<bool>)
    requires
        forall|j: int| 0 <= j < keep.len() ==> #[trigger] keep[j],
    ensures
        unselected(keep) == 0,
    decreases keep.len(),
{
    if keep.len() > 0 {
        lemma_all_selected(keep.drop_last());
    }
}

/// The digest as a Markdown document: title, summary line (languages by
/// file count), the hub table, then per directory each file's public types
/// (with methods) and functions, with signatures, doc quotes and diagram marks.
pub fn format_markdown_digest(report: &DigestReport) -> (md: String)
    ensures
        exists|order: Seq<usize>| #[trigger] count_ranking(report.languages@, order)
            && md@ == digest_md(*report, order),
{
    let mut out: Vec<char> = Vec::new();
    push_str(&mut out, "# Architecture Digest: ");
    push_str(&mut out, report.project.as_str());
    push_str(&mut out, "\n\n");
    let order = rank_languages(&report.languages);
    let ghost ov = order@;
    let ghost head = out@;
    push_str(&mut out, "**Summary**: ");
    push_decimal(&mut out, report.total_files as u64);
    push_str(&mut out, " files | ");
    push_decimal(&mut out, report.total_symbols as u64);
    push_str(&mut out, " symbols (");
    push_decimal(&mut out, report.public_symbols as u64);
    push_str(&mut out, " public) | Languages: ");
    if report.languages.len() == 0 {
        push_str(&mut out, "none");
    } else {
        let ghost lhead = out@;
        let mut k: usize = 0;
        while k < order.len()
            invariant
                0 <= k <= order@.len(),
                order@ == ov,
                count_ranking(report.languages@, ov),
                out@ == lhead + lang_list(report.languages@, ov, k as int),
            decreases order@.len() - k,
        {
            let l = &report.languages[order[k]];
            if k > 0 {
                push_str(&mut out, ", ");
            }
            push_str(&mut out, l.0.as_str());
            push_str(&mut out, " (");
            push_decimal(&mut out, l.1 as u64);
            push_str(&mut out, ")");
            k = k + 1;
            assert(out@ =~= lhead + lang_list(report.languages@, ov, k as int));
        }
    }
    push_str(&mut out, "\n\n");
    assert(out@ =~= head + summary_md(*report, ov));
    let ghost after_summary = out@;
    if report.hubs.len() > 0 {
        push_str(&mut out, "## Core Architecture Hubs\n\n");
        push_str(&mut out, "| Symbol | Kind | File | Degree |\n");
        push_str(&mut out, "| :--- | :--- | :--- | :--- |\n");
        let ghost rows_head = out@;
        let mut i: usize = 0;
        assert(report.hubs@.take(0) =~= seq![]);
        while i < report.hubs.len()
            invariant
                0 <= i <= report.hubs@.len(),
                out@ == rows_head + hub_rows(report.hubs@.take(i as int)),
            decreases report.hubs@.len() - i,
        {
            push_hub(&mut out, &report.hubs[i]);
            proof {
                assert(report.hubs@.take(i + 1).drop_last() =~= report.hubs@.take(i as int));
                assert(report.hubs@.take(i + 1).last() == report.hubs@[i as int]);
            }
            i = i + 1;
            assert(out@ =~= rows_head + hub_rows(report.hubs@.take(i as int)));
        }
        assert(report.hubs@.take(report.hubs@.len() as int) =~= report.hubs@);
        push_str(&mut out, "\n");
    }
    assert(out@ =~= after_summary + hubs_md(report.hubs@));
    push_str(&mut out, "## Modules & Public APIs\n\n");
    let ghost mods_head = out@;
    let mut i: usize = 0;
    assert(report.modules@.take(0) =~= seq![]);
    while i < report.modules.len()
        invariant
            0 <= i <= report.modules@.len(),
            out@ == mods_head + modules_md(report.modules@.take(i as int)),
        decreases report.modules@.len() - i,
    {
        push_module(&mut out, &report.modules[i]);
        proof {
            assert(report.modules@.take(i + 1).drop_last() =~= report.modules@.take(i as int));
            assert(report.modules@.take(i + 1).last() == report.modules@[i as int]);
        }
        i = i + 1;
        assert(out@ =~= mods_head + modules_md(report.modules@.take(i as int)));
    }
    assert(report.modules@.take(report.modules@.len() as int) =~= report.modules@);
    assert(out@ =~= digest_md(*report, ov));
    crate::text::string_of(out.as_slice())
}

} // verus!
