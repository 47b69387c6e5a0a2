//! Which lines of which files the working tree changed, read from a
//! unified diff.

use vstd::prelude::*;
use crate::text::{
    chars_of, lines_exec, next_char, next_char_exec, parse_i64, parse_i64_spec, slice_chars, starts_with,
    starts_with_exec, str_eq, str_lines, str_trim, string_of, trim,
};
use crate::commands::impact::traversal::opt_view;
use crate::cache::models::SymbolRow;

verus! {

/// One project-relative, `/`-normalized new-file line range touched by the
/// working tree diff.
#[derive(Debug, Clone)]
pub struct ChangedRange {
    pub path: String,
    /// 1-based, inclusive.
    pub start_line: i64,
    /// 1-based, inclusive.
    pub end_line: i64,
}

/// The new-file `(start, count)` of a hunk header `@@ -a,b +c,d @@ ..`: the
/// text between the first `+` and the next space, split at its first `,`; a
/// missing count is 1.
pub open spec fn hunk_header(line: Seq<char>) -> Option<(i64, i64)> {
    if !starts_with(line, "@@ "@) {
        None
    } else {
        let rest = line.subrange(3, line.len() as int);
        let p = next_char(rest, 0, '+');
        if p >= rest.len() {
            None
        } else {
            let after = rest.subrange(p + 1, rest.len() as int);
            let e = next_char(after, 0, ' ');
            if e >= after.len() {
                None
            } else {
                let spec = after.subrange(0, e);
                let c = next_char(spec, 0, ',');
                match parse_i64_spec(spec.subrange(0, c)) {
                    None => None,
                    Some(start) => if c >= spec.len() {
                        Some((start, 1))
                    } else {
                        match parse_i64_spec(spec.subrange(c + 1, spec.len() as int)) {
                            Some(count) => Some((start, count)),
                            None => None,
                        }
                    },
                }
            }
        }
    }
}

/// Parse a unified-diff hunk header and return the new-file
/// `(start_line, line_count)`; `None` for any other line.
pub fn parse_hunk_header(line: &str) -> (r: Option<(i64, i64)>)
    ensures
        r == hunk_header(line@),
{
    let l = chars_of(line);
    let pre = chars_of("@@ ");
    if !starts_with_exec(l.as_slice(), pre.as_slice()) {
        return None;
    }
    proof {
        reveal_strlit("@@ ");
    }
    let rest = slice_chars(l.as_slice(), 3, l.len());
    let p = next_char_exec(rest.as_slice(), 0, '+');
    if p >= rest.len() {
        return None;
    }
    let after = slice_chars(rest.as_slice(), p + 1, rest.len());
    let e = next_char_exec(after.as_slice(), 0, ' ');
    if e >= after.len() {
        return None;
    }
    let spec = slice_chars(after.as_slice(), 0, e);
    let c = next_char_exec(spec.as_slice(), 0, ',');
    let start = match parse_i64(slice_chars(spec.as_slice(), 0, c).as_slice()) {
        Some(s) => s,
        None => { return None; },
    };
    if c >= spec.len() {
        return Some((start, 1));
    }
    match parse_i64(slice_chars(spec.as_slice(), c + 1, spec.len()).as_slice()) {
        Some(count) => Some((start, count)),
        None => None,
    }
}

/// What a `+++ ` line of a diff says of the file the hunks after it belong
/// to: `None` for any other line, `Some(None)` for a deleted file
/// (`/dev/null`), else the path git gives, without its `b/`, trimmed.
pub open spec fn plus_line(line: Seq<char>) -> Option<Option<Seq<char>>> {
    if !starts_with(line, "+++ "@) {
        None
    } else {
        let rest = line.subrange(4, line.len() as int);
        if trim(rest) == "/dev/null"@ {
            Some(None)
        } else {
            Some(Some(trim(if starts_with(rest, "b/"@) { rest.subrange(2, rest.len() as int) } else { rest })))
        }
    }
}

/// See [`plus_line`].
pub fn parse_plus_line(line: &str) -> (r: Option<Option<String>>)
    ensures
        match plus_line(line@) {
            None => r is None,
            Some(None) => r matches Some(x) && x is None,
            Some(Some(p)) => r matches Some(x) && opt_view(x) == Some(p),
        },
{
    let l = chars_of(line);
    let pre = chars_of("+++ ");
    proof {
        reveal_strlit("+++ ");
    }
    if !starts_with_exec(l.as_slice(), pre.as_slice()) {
        return None;
    }
    let rest = slice_chars(l.as_slice(), 4, l.len());
    let rs = string_of(rest.as_slice());
    let t = str_trim(rs.as_str());
    if str_eq(t.as_str(), "/dev/null") {
        return Some(None);
    }
    let b = chars_of("b/");
    proof {
        reveal_strlit("b/");
    }
    let raw = if starts_with_exec(rest.as_slice(), b.as_slice()) {
        string_of(slice_chars(rest.as_slice(), 2, rest.len()).as_slice())
    } else {
        rs
    };
    Some(Some(str_trim(raw.as_str())))
}

/// The paths the `+++ ` lines of a diff name, in order (deleted files
/// left out): the paths a caller places in the project.
pub open spec fn diff_paths_from(ls: Seq<Seq<char>>) -> Seq<Seq<char>>
    decreases ls.len(),
{
    if ls.len() == 0 {
        seq![]
    } else {
        diff_paths_from(ls.drop_last()) + match plus_line(ls.last()) {
            Some(Some(p)) => seq![p],
            _ => seq![],
        }
    }
}

/// See [`diff_paths_from`].
pub fn diff_paths(diff: &str) -> (r: Vec<String>)
    ensures
        r@.map_values(|s: String| s@) == diff_paths_from(str_lines(diff@)),
{
    let ls = lines_exec(diff);
    let ghost lv = ls@.map_values(|l: Vec<char>| l@);
    let mut out: Vec<String> = Vec::new();
    let mut i: usize = 0;
    assert(lv.take(0) =~= Seq::<Seq<char>>::empty());
    while i < ls.len()
        invariant
            0 <= i <= ls@.len(),
            lv == ls@.map_values(|l: Vec<char>| l@),
            lv == str_lines(diff@),
            out@.map_values(|s: String| s@) == diff_paths_from(lv.take(i as int)),
        decreases ls@.len() - i,
    {
        let line = string_of(ls[i].as_slice());
        let ghost before = out@.map_values(|s: String| s@);
        assert(lv.take(i + 1).drop_last() =~= lv.take(i as int));
        assert(lv.take(i + 1).last() == line@);
        match parse_plus_line(line.as_str()) {
            Some(Some(p)) => {
                out.push(p);
                assert(out@.map_values(|s: String| s@) =~= before.push(out@.last()@));
            },
            _ => {
                assert(before + seq![] =~= before);
            },
        }
        i = i + 1;
    }
    assert(lv.take(ls@.len() as int) =~= lv);
    out
}

/// Where `raw` lies in the project, per the caller's placing of the diff's
/// paths: `None` when it falls outside (or was not placed).
pub open spec fn placed(places: Seq<(String, Option<String>)>, raw: Seq<char>) -> Option<Seq<char>>
    decreases places.len(),
{
    if places.len() == 0 {
        None
    } else if places.last().0@ == raw {
        opt_view(places.last().1)
    } else {
        placed(places.drop_last(), raw)
    }
}

/// The state of a diff walk: no file yet, a file outside the project or
/// deleted, or a project file.
pub open spec fn file_after(cur: Option<Option<Seq<char>>>, line: Seq<char>, places: Seq<(String, Option<String>)>) -> Option<Option<Seq<char>>> {
    match plus_line(line) {
        Some(None) => Some(None),
        Some(Some(raw)) => Some(placed(places, raw)),
        None => cur,
    }
}

/// The ranges one line adds: a hunk with new lines, under a project file.
pub open spec fn ranges_of_line(cur: Option<Option<Seq<char>>>, line: Seq<char>) -> Seq<(Seq<char>, i64, i64)> {
    if plus_line(line) is Some {
        seq![]
    } else {
        match hunk_header(line) {
            Some((start, count)) => if count == 0 {
                seq![]
            } else {
                match cur {
                    Some(Some(p)) => seq![(p, start, (start + count - 1) as i64)],
                    _ => seq![],
                }
            },
            None => seq![],
        }
    }
}

/// The changed ranges of the lines `ls`, walked from file state `cur`.
pub open spec fn ranges_from(ls: Seq<Seq<char>>, cur: Option<Option<Seq<char>>>, places: Seq<(String, Option<String>)>) -> Seq<(Seq<char>, i64, i64)>
    decreases ls.len(),
{
    if ls.len() == 0 {
        seq![]
    } else {
        ranges_of_line(cur, ls[0]) + ranges_from(ls.drop_first(), file_after(cur, ls[0], places), places)
    }
}

/// Every hunk header's last line fits in an `i64`.
pub open spec fn hunks_in_range(ls: Seq<Seq<char>>) -> bool {
    forall|i: int| 0 <= i < ls.len() ==> match #[trigger] hunk_header(ls[i]) {
        Some((start, count)) => count == 0 || i64::MIN <= start + count - 1 <= i64::MAX,
        None => true,
    }
}

pub open spec fn range_view(r: ChangedRange) -> (Seq<char>, i64, i64) {
    (r.path@, r.start_line, r.end_line)
}

pub open spec fn cur_view(c: Option<Option<String>>) -> Option<Option<Seq<char>>> {
    match c {
        None => None,
        Some(x) => Some(opt_view(x)),
    }
}

fn placed_exec(places: &Vec<(String, Option<String>)>, raw: &str) -> (r: Option<String>)
    ensures
        opt_view(r) == placed(places@, raw@),
{
    let mut i = places.len();
    assert(places@.take(places@.len() as int) =~= places@);
    while i > 0
        invariant
            i <= places@.len(),
            placed(places@, raw@) == placed(places@.take(i as int), raw@),
        decreases i,
    {
        let ghost t = places@.take(i as int);
        assert(t.drop_last() =~= places@.take(i - 1));
        if str_eq(places[i - 1].0.as_str(), raw) {
            return match &places[i - 1].1 {
                Some(p) => Some(p.clone()),
                None => None,
            };
        }
        i = i - 1;
    }
    None
}

/// The new-file line ranges a unified diff touches, each under the project
/// path its `+++ ` line was placed at (`places`, from [`diff_paths`]);
/// hunks that only delete, and hunks of deleted files or files outside the
/// project, give none.
pub fn diff_ranges(diff: &str, places: &Vec<(String, Option<String>)>) -> (r: Vec<ChangedRange>)
    requires
        hunks_in_range(str_lines(diff@)),
    ensures
        r@.map_values(|x: ChangedRange| range_view(x)) == ranges_from(str_lines(diff@), None, places@),
{
    let ls = lines_exec(diff);
    let ghost lv = ls@.map_values(|l: Vec<char>| l@);
    let ghost total = ranges_from(lv, None, places@);
    let mut out: Vec<ChangedRange> = Vec::new();
    let mut cur: Option<Option<String>> = None;
    let mut i: usize = 0;
    assert(lv.subrange(0, lv.len() as int) =~= lv);
    while i < ls.len()
        invariant
            0 <= i <= ls@.len(),
            lv == ls@.map_values(|l: Vec<char>| l@),
            lv == str_lines(diff@),
            hunks_in_range(lv),
            total == ranges_from(lv, None, places@),
            out@.map_values(|x: ChangedRange| range_view(x))
                + ranges_from(lv.subrange(i as int, lv.len() as int), cur_view(cur), places@)
                == total,
        decreases ls@.len() - i,
    {
        let line = string_of(ls[i].as_slice());
        let ghost rest = lv.subrange(i as int, lv.len() as int);
        let ghost cv = cur_view(cur);
        assert(rest[0] == line@);
        assert(rest.drop_first() =~= lv.subrange(i + 1, lv.len() as int));
        let ghost before = out@.map_values(|x: ChangedRange| range_view(x));
        match parse_plus_line(line.as_str()) {
            Some(None) => {
                cur = Some(None);
                assert(before + seq![] =~= before);
            },
            Some(Some(raw)) => {
                cur = Some(placed_exec(places, raw.as_str()));
                assert(before + seq![] =~= before);
            },
            None => {
                match parse_hunk_header(line.as_str()) {
                    Some((start, count)) => {
                        assert(hunk_header(lv[i as int]) == Some((start, count)));
                        if count != 0 {
                            match &cur {
                                Some(Some(p)) => {
                                    let end = (start as i128 + count as i128 - 1) as i64;
                                    out.push(ChangedRange { path: p.clone(), start_line: start, end_line: end });
                                    assert(out@.map_values(|x: ChangedRange| range_view(x)) =~= before + ranges_of_line(cv, line@));
                                },
                                _ => {
                                    assert(before + seq![] =~= before);
                                },
                            }
                        } else {
                            assert(before + seq![] =~= before);
                        }
                    },
                    None => {
                        assert(before + seq![] =~= before);
                    },
                }
            },
        }
        i = i + 1;
    }
    proof {
        assert(lv.subrange(lv.len() as int, lv.len() as int) =~= Seq::<Seq<char>>::empty());
        assert(out@.map_values(|x: ChangedRange| range_view(x)) + seq![] =~= out@.map_values(|x: ChangedRange| range_view(x)));
    }
    out
}

/// An earlier row of `s` than `k` has the same id.
pub open spec fn seen_before(s: Seq<SymbolRow>, k: int) -> bool {
    exists|j: int| 0 <= j < k && s[j].id == s[k].id
}

/// The rows of `s` whose id no earlier row has, in order.
pub open spec fn first_by_id(s: Seq<SymbolRow>) -> Seq<SymbolRow>
    decreases s.len(),
{
    if s.len() == 0 {
        seq![]
    } else {
        first_by_id(s.drop_last()) + if seen_before(s, s.len() - 1) { seq![] } else { seq![s.last()] }
    }
}

/// The symbols the changed ranges overlap, each once: the first row of
/// each symbol id, in order.
pub fn dedupe_symbols(rows: Vec<SymbolRow>) -> (r: Vec<SymbolRow>)
    ensures
        r@ == first_by_id(rows@),
{
    let ghost all = rows@;
    assert(all.len() == rows.len());
    let mut rest = rows;
    let mut out: Vec<SymbolRow> = Vec::new();
    let mut ids: Vec<i64> = Vec::new();
    let mut i: usize = 0;
    assert(all.take(0) =~= Seq::<SymbolRow>::empty());
    assert(rest@ =~= all.skip(0));
    while rest.len() > 0
        invariant
            i <= all.len(),
            all.len() <= usize::MAX,
            rest@ == all.skip(i as int),
            out@ == first_by_id(all.take(i as int)),
            forall|x: i64| ids@.contains(x) <==> exists|j: int| 0 <= j < i && #[trigger] all[j].id == x,
        decreases rest@.len(),
    {
        let row = rest.remove(0);
        proof {
            assert(all.skip(i as int)[0] == row);
            assert(rest@ =~= all.skip(i + 1));
        }
        let id = row.id;
        let mut found = false;
        let mut k: usize = 0;
        while k < ids.len()
            invariant
                0 <= k <= ids@.len(),
                found == exists|j: int| 0 <= j < k && ids@[j] == id,
            decreases ids@.len() - k,
        {
            if ids[k] == id {
                found = true;
            }
            k = k + 1;
        }
        proof {
            let t = all.take(i + 1);
            assert(t.drop_last() =~= all.take(i as int));
            assert(t.last() == all[i as int]);
            assert(all[i as int] == row);
            if found {
                let j = choose|j: int| 0 <= j < ids@.len() && ids@[j] == id;
                assert(ids@.contains(id));
                let w = choose|w: int| 0 <= w < i && #[trigger] all[w].id == id;
                assert(t[w].id == t[i as int].id);
                assert(seen_before(t, i as int));
            } else {
                assert(!ids@.contains(id)) by {
                    if ids@.contains(id) {
                        let j = choose|j: int| 0 <= j < ids@.len() && ids@[j] == id;
                    }
                }
                assert(!seen_before(t, i as int)) by {
                    if seen_before(t, i as int) {
                        let w = choose|w: int| 0 <= w < i && t[w].id == t[i as int].id;
                        assert(all[w].id == id);
                    }
                }
            }
        }
        if !found {
            let ghost old_ids = ids@;
            out.push(row);
            ids.push(id);
            proof {
                assert(ids@ == old_ids.push(id));
                assert forall|x: i64| ids@.contains(x) <== exists|j: int| 0 <= j < i + 1 && #[trigger] all[j].id == x by {
                    if exists|j: int| 0 <= j < i + 1 && #[trigger] all[j].id == x {
                        let j = choose|j: int| 0 <= j < i + 1 && #[trigger] all[j].id == x;
                        if j < i {
                            assert(old_ids.contains(x));
                            let q = choose|q: int| 0 <= q < old_ids.len() && old_ids[q] == x;
                            assert(ids@[q] == x);
                        } else {
                            assert(ids@[old_ids.len() as int] == x);
                        }
                    }
                }
                assert forall|x: i64| ids@.contains(x) ==> exists|j: int| 0 <= j < i + 1 && #[trigger] all[j].id == x by {
                    if ids@.contains(x) {
                        let q = choose|q: int| 0 <= q < ids@.len() && ids@[q] == x;
                        if q < old_ids.len() {
                            assert(old_ids[q] == x);
                            assert(old_ids.contains(x));
                        } else {
                            assert(all[i as int].id == x);
                        }
                    }
                }
            }
        } else {
            proof {
                assert forall|x: i64| ids@.contains(x) <==> exists|j: int| 0 <= j < i + 1 && #[trigger] all[j].id == x by {
                    if exists|j: int| 0 <= j < i + 1 && #[trigger] all[j].id == x {
                        let j = choose|j: int| 0 <= j < i + 1 && #[trigger] all[j].id == x;
                        if j == i {
                            assert(ids@.contains(id));
                        }
                    }
                }
                assert(first_by_id(all.take(i + 1)) =~= first_by_id(all.take(i as int)));
            }
        }
        i = i + 1;
    }
    assert(all.take(i as int) =~= all);
    out
}

} // verus!
