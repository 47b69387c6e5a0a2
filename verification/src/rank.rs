//! Ranking by a count, most first, ties broken by name and then by position:
//! the order the impact and digest listings present their entries in.

use vstd::prelude::*;
use crate::text::{lex_lt, lex_lt_exec};

verus! {

/// Entry `i` goes before entry `j`: a higher count first, then by name, then
/// in input order.
pub open spec fn goes_before(counts: Seq<usize>, names: Seq<Seq<char>>, i: int, j: int) -> bool {
    ||| counts[i] > counts[j]
    ||| counts[i] == counts[j] && lex_lt(names[i], names[j])
    ||| counts[i] == counts[j] && names[i] == names[j] && i < j
}

/// `order` lists indices in strictly increasing [`goes_before`] order.
pub open spec fn ranked(counts: Seq<usize>, names: Seq<Seq<char>>, order: Seq<usize>) -> bool {
    forall|a: int, b: int| 0 <= a < b < order.len() ==> goes_before(counts, names, #[trigger] order[a] as int, #[trigger] order[b] as int)
}

pub open spec fn name_views(names: Seq<String>) -> Seq<Seq<char>> {
    names.map_values(|s: String| s@)
}

pub proof fn lemma_lex_irrefl(a: Seq<char>)
    ensures
        !lex_lt(a, a),
    decreases a.len(),
{
    if a.len() > 0 {
        lemma_lex_irrefl(a.drop_first());
    }
}

pub proof fn lemma_lex_asym(a: Seq<char>, b: Seq<char>)
    ensures
        lex_lt(a, b) ==> !lex_lt(b, a),
    decreases a.len(),
{
    if a.len() > 0 && b.len() > 0 && a[0] == b[0] {
        lemma_lex_asym(a.drop_first(), b.drop_first());
    }
}

pub proof fn lemma_lex_trans(a: Seq<char>, b: Seq<char>, c: Seq<char>)
    ensures
        lex_lt(a, b) && lex_lt(b, c) ==> lex_lt(a, c),
    decreases a.len(),
{
    if a.len() > 0 && b.len() > 0 && c.len() > 0 && a[0] == b[0] && b[0] == c[0] {
        lemma_lex_trans(a.drop_first(), b.drop_first(), c.drop_first());
    }
}

pub proof fn lemma_lex_total(a: Seq<char>, b: Seq<char>)
    ensures
        a != b ==> lex_lt(a, b) || lex_lt(b, a),
    decreases a.len(),
{
    if a.len() > 0 && b.len() > 0 && a[0] == b[0] {
        lemma_lex_total(a.drop_first(), b.drop_first());
        if a.drop_first() == b.drop_first() {
            assert(a =~= seq![a[0]] + a.drop_first());
            assert(b =~= seq![b[0]] + b.drop_first());
        }
    } else if a.len() == 0 && b.len() == 0 {
        assert(a =~= b);
    } else if a.len() > 0 && b.len() > 0 {
        assert(a[0] != b[0]);
    }
}

/// [`goes_before`] is a strict total order on the reports.
pub proof fn lemma_goes_before_order(counts: Seq<usize>, names: Seq<Seq<char>>, i: int, j: int, k: int)
    requires
        counts.len() == names.len(),
    ensures
        !goes_before(counts, names, i, i),
        goes_before(counts, names, i, j) ==> !goes_before(counts, names, j, i),
        goes_before(counts, names, i, j) && goes_before(counts, names, j, k) ==> goes_before(counts, names, i, k),
        i != j ==> goes_before(counts, names, i, j) || goes_before(counts, names, j, i),
{
    lemma_lex_irrefl(names[i]);
    lemma_lex_asym(names[i], names[j]);
    lemma_lex_trans(names[i], names[j], names[k]);
    lemma_lex_total(names[i], names[j]);
    if names[i] == names[j] {
        lemma_lex_irrefl(names[j]);
    }
    if lex_lt(names[i], names[j]) && names[j] == names[k] {
    }
    if names[i] == names[j] && lex_lt(names[j], names[k]) {
    }
}

/// How many entries are not selected.
pub open spec fn unselected(keep: Seq<bool>) -> nat
    decreases keep.len(),
{
    if keep.len() == 0 { 0 } else { unselected(keep.drop_last()) + if keep.last() { 0nat } else { 1nat } }
}

/// The selected entries (`keep[i]`), ranked: every selected index exactly
/// once, in [`goes_before`] order.
pub fn rank_selected(counts: &[usize], names: &[String], keep: &[bool]) -> (order: Vec<usize>)
    requires
        counts@.len() == names@.len(),
        keep@.len() == counts@.len(),
    ensures
        ranked(counts@, name_views(names@), order@),
        forall|k: int| 0 <= k < order@.len() ==> #[trigger] order@[k] < counts@.len() && keep@[order@[k] as int],
        forall|j: int| 0 <= j < counts@.len() && keep@[j] ==> order@.contains(j as usize),
        order@.len() + unselected(keep@) == counts@.len(),
{
    let n = counts.len();
    let ghost nv = name_views(names@);
    let mut order: Vec<usize> = Vec::new();
    let mut i: usize = 0;
    assert(keep@.take(0) =~= seq![]);
    while i < n
        invariant
            n == counts@.len(),
            n == names@.len(),
            n == keep@.len(),
            nv == name_views(names@),
            0 <= i <= n,
            ranked(counts@, nv, order@),
            forall|k: int| 0 <= k < order@.len() ==> #[trigger] order@[k] < i && keep@[order@[k] as int],
            forall|j: int| 0 <= j < i && keep@[j] ==> order@.contains(j as usize),
            order@.len() + unselected(keep@.take(i as int)) == i,
        decreases n - i,
    {
        assert(keep@.take(i + 1).drop_last() =~= keep@.take(i as int));
        if !keep[i] {
            i = i + 1;
            continue;
        }
        // insert `i` after every index that goes before it
        let mut p: usize = 0;
        while p < order.len() && before_exec(counts, names, order[p], i)
            invariant
                0 <= p <= order@.len(),
                i < n,
                n == counts@.len(),
                n == names@.len(),
                nv == name_views(names@),
                forall|k: int| 0 <= k < order@.len() ==> #[trigger] order@[k] < i,
                forall|k: int| 0 <= k < p ==> goes_before(counts@, nv, #[trigger] order@[k] as int, i as int),
            decreases order@.len() - p,
        {
            p = p + 1;
        }
        let ghost old_order = order@;
        proof {
            if p < old_order.len() {
                // `order[p]` does not go before `i`, so `i` goes before it and all after it
                lemma_goes_before_order(counts@, nv, old_order[p as int] as int, i as int, i as int);
                assert forall|k: int| p <= k < old_order.len() implies goes_before(counts@, nv, i as int, #[trigger] old_order[k] as int) by {
                    lemma_goes_before_order(counts@, nv, i as int, old_order[p as int] as int, old_order[k] as int);
                    if k > p {
                        assert(goes_before(counts@, nv, old_order[p as int] as int, old_order[k] as int));
                    }
                }
            }
        }
        order.insert(p, i);
        proof {
            let o = order@;
            assert(o =~= old_order.insert(p as int, i));
            assert forall|a: int, b: int| 0 <= a < b < o.len() implies goes_before(counts@, nv, #[trigger] o[a] as int, #[trigger] o[b] as int) by {
                if b < p {
                    assert(o[a] == old_order[a] && o[b] == old_order[b]);
                } else if b == p {
                    assert(o[a] == old_order[a]);
                } else if a < p {
                    assert(o[a] == old_order[a] && o[b] == old_order[b - 1]);
                    lemma_goes_before_order(counts@, nv, old_order[a] as int, i as int, old_order[b - 1] as int);
                    if b - 1 == p {
                    } else {
                        assert(goes_before(counts@, nv, old_order[p as int] as int, old_order[b - 1] as int));
                    }
                    assert(goes_before(counts@, nv, i as int, old_order[b - 1] as int));
                } else if a == p {
                    assert(o[b] == old_order[b - 1]);
                } else {
                    assert(o[a] == old_order[a - 1] && o[b] == old_order[b - 1]);
                }
            }
            assert forall|j: int| 0 <= j < i + 1 && keep@[j] implies o.contains(j as usize) by {
                if j < i {
                    let q = choose|q: int| 0 <= q < old_order.len() && old_order[q] == j as usize;
                    if q < p {
                        assert(o[q] == j as usize);
                    } else {
                        assert(o[q + 1] == j as usize);
                    }
                } else {
                    assert(o[p as int] == i);
                }
            }
            assert forall|k: int| 0 <= k < o.len() implies #[trigger] o[k] < i + 1 && keep@[o[k] as int] by {
                if k < p {
                    assert(o[k] == old_order[k]);
                } else if k > p {
                    assert(o[k] == old_order[k - 1]);
                }
            }
        }
        i = i + 1;
    }
    assert(keep@.take(n as int) =~= keep@);
    order
}

pub fn before_exec(counts: &[usize], names: &[String], i: usize, j: usize) -> (r: bool)
    requires
        i < counts@.len(),
        j < counts@.len(),
        counts@.len() == names@.len(),
    ensures
        r == goes_before(counts@, name_views(names@), i as int, j as int),
{
    assert(name_views(names@)[i as int] == names@[i as int]@);
    assert(name_views(names@)[j as int] == names@[j as int]@);
    if counts[i] > counts[j] {
        true
    } else if counts[i] < counts[j] {
        false
    } else if lex_lt_exec(names[i].as_str(), names[j].as_str()) {
        true
    } else {
        crate::text::str_eq(names[i].as_str(), names[j].as_str()) && i < j
    }
}


} // verus!
