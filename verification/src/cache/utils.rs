//! Small computations over cached rows: fuzzy name distance, the symbol
//! enclosing a byte, and the clock.

use vstd::prelude::*;
use crate::cache::models::NewSymbol;
use crate::text::{ascii_lower, chars_of, contains, contains_exec, lower, lower_char, lower_seq};
use vstd::utf8::encode_utf8;

verus! {

pub open spec fn min2(x: nat, y: nat) -> nat {
    if x <= y { x } else { y }
}

/// Levenshtein edit distance, comparing characters ASCII-case-insensitively:
/// the fewest insertions, deletions and substitutions turning `a` into `b`.
pub open spec fn lev(a: Seq<char>, b: Seq<char>) -> nat
    decreases a.len() + b.len(),
{
    if a.len() == 0 {
        b.len()
    } else if b.len() == 0 {
        a.len()
    } else {
        let cost: nat = if lower(a.last()) == lower(b.last()) { 0 } else { 1 };
        min2(
            min2(lev(a.drop_last(), b) + 1, lev(a, b.drop_last()) + 1),
            lev(a.drop_last(), b.drop_last()) + cost,
        )
    }
}

pub proof fn lemma_lev_bound(a: Seq<char>, b: Seq<char>)
    ensures
        lev(a, b) <= if a.len() <= b.len() { b.len() } else { a.len() },
    decreases a.len() + b.len(),
{
    if a.len() > 0 && b.len() > 0 {
        lemma_lev_bound(a.drop_last(), b.drop_last());
    }
}

/// The distance of a string to itself is zero.
pub proof fn law_levenshtein_identity(a: Seq<char>)
    ensures
        lev(a, a) == 0,
    decreases a.len(),
{
    if a.len() > 0 {
        law_levenshtein_identity(a.drop_last());
    }
}

/// From the empty string, the distance is the other string's length.
pub proof fn law_levenshtein_from_empty(b: Seq<char>)
    ensures
        lev(Seq::empty(), b) == b.len(),
        lev(b, Seq::empty()) == b.len(),
{
}

/// The distance does not depend on the order of its arguments.
pub proof fn law_levenshtein_symmetric(a: Seq<char>, b: Seq<char>)
    ensures
        lev(a, b) == lev(b, a),
    decreases a.len() + b.len(),
{
    if a.len() > 0 && b.len() > 0 {
        law_levenshtein_symmetric(a.drop_last(), b);
        law_levenshtein_symmetric(a, b.drop_last());
        law_levenshtein_symmetric(a.drop_last(), b.drop_last());
    }
}

/// The distance never exceeds the longer length.
pub proof fn law_levenshtein_bounded(a: Seq<char>, b: Seq<char>)
    ensures
        lev(a, b) <= if a.len() <= b.len() { b.len() } else { a.len() },
{
    lemma_lev_bound(a, b);
}

/// ASCII case makes no difference: `Build_Graph` is as far from `build_grap`
/// as `build_graph` is.
pub proof fn law_levenshtein_ignores_ascii_case(a: Seq<char>, b: Seq<char>)
    ensures
        lev(a, b) == lev(lower_seq(a), lower_seq(b)),
    decreases a.len() + b.len(),
{
    if a.len() > 0 && b.len() > 0 {
        assert(lower_seq(a).drop_last() =~= lower_seq(a.drop_last()));
        assert(lower_seq(b).drop_last() =~= lower_seq(b.drop_last()));
        assert(lower(lower(a.last())) == lower(a.last()));
        assert(lower(lower(b.last())) == lower(b.last()));
        law_levenshtein_ignores_ascii_case(a.drop_last(), b);
        law_levenshtein_ignores_ascii_case(a, b.drop_last());
        law_levenshtein_ignores_ascii_case(a.drop_last(), b.drop_last());
    }
}

/// Levenshtein edit distance between two strings, ignoring ASCII case.
pub fn levenshtein(a: &str, b: &str) -> (d: usize)
    requires
        a@.len() < usize::MAX,
        b@.len() < usize::MAX,
    ensures
        d == lev(a@, b@),
{
    let ac = chars_of(a);
    let bc = chars_of(b);
    let m = ac.len();
    let n = bc.len();
    if m == 0 {
        return n;
    }
    if n == 0 {
        return m;
    }
    let mut prev: Vec<usize> = Vec::new();
    let mut j: usize = 0;
    while j <= n
        invariant
            0 <= j <= n + 1,
            n == bc@.len(),
            n < usize::MAX,
            prev@.len() == j,
            forall|k: int| 0 <= k < j ==> #[trigger] prev@[k] == k,
        decreases n + 1 - j,
    {
        prev.push(j);
        j = j + 1;
    }
    proof {
        assert forall|k: int| 0 <= k <= n implies #[trigger] prev@[k] == lev(ac@.take(0), bc@.take(k)) by {
            assert(ac@.take(0).len() == 0);
        }
    }
    let mut i: usize = 1;
    while i <= m
        invariant
            1 <= i <= m + 1,
            m == ac@.len(),
            n == bc@.len(),
            m < usize::MAX,
            n < usize::MAX,
            n > 0,
            prev@.len() == n + 1,
            forall|k: int| 0 <= k <= n ==> #[trigger] prev@[k] == lev(ac@.take(i - 1), bc@.take(k)),
        decreases m + 1 - i,
    {
        let mut curr: Vec<usize> = Vec::new();
        curr.push(i);
        proof {
            assert(bc@.take(0).len() == 0);
        }
        let ghost ai = ac@.take(i as int);
        let mut j: usize = 1;
        while j <= n
            invariant
                1 <= i <= m,
                1 <= j <= n + 1,
                m == ac@.len(),
                n == bc@.len(),
                m < usize::MAX,
                n < usize::MAX,
                ai == ac@.take(i as int),
                prev@.len() == n + 1,
                curr@.len() == j,
                forall|k: int| 0 <= k <= n ==> #[trigger] prev@[k] == lev(ac@.take(i - 1), bc@.take(k)),
                forall|k: int| 0 <= k < j ==> #[trigger] curr@[k] == lev(ai, bc@.take(k)),
            decreases n + 1 - j,
        {
            let cost: usize = if lower_char(ac[i - 1]) == lower_char(bc[j - 1]) { 0 } else { 1 };
            proof {
                let bj = bc@.take(j as int);
                assert(ai.drop_last() =~= ac@.take(i - 1));
                assert(bj.drop_last() =~= bc@.take(j - 1));
                assert(ai.last() == ac@[i - 1]);
                assert(bj.last() == bc@[j - 1]);
                lemma_lev_bound(ac@.take(i - 1), bj);
                lemma_lev_bound(ai, bc@.take(j - 1));
                lemma_lev_bound(ac@.take(i - 1), bc@.take(j - 1));
            }
            let up = prev[j] + 1;
            let left = curr[j - 1] + 1;
            let diag = prev[j - 1] + cost;
            let a1 = if up <= left { up } else { left };
            let v = if a1 <= diag { a1 } else { diag };
            curr.push(v);
            j = j + 1;
        }
        prev = curr;
        i = i + 1;
    }
    proof {
        assert(ac@.take(m as int) =~= ac@);
        assert(bc@.take(n as int) =~= bc@);
    }
    prev[n]
}

/// Byte `at` lies in the symbol's range.
pub open spec fn sym_covers(s: NewSymbol, at: i64) -> bool {
    s.start_byte <= at < s.end_byte
}

pub open spec fn sym_width(s: NewSymbol) -> int {
    s.end_byte - s.start_byte
}

/// `i` is the narrowest symbol covering `at`, the first among equally narrow ones.
pub open spec fn is_innermost_symbol(symbols: Seq<NewSymbol>, at: i64, i: int) -> bool {
    &&& 0 <= i < symbols.len()
    &&& sym_covers(symbols[i], at)
    &&& forall|j: int| 0 <= j < symbols.len() && sym_covers(#[trigger] symbols[j], at) ==> sym_width(symbols[i]) <= sym_width(symbols[j])
    &&& forall|j: int| 0 <= j < i && sym_covers(#[trigger] symbols[j], at) ==> sym_width(symbols[i]) < sym_width(symbols[j])
}

/// The id of the innermost (narrowest) symbol whose byte range contains
/// `byte`; `ids[i]` is the id of `symbols[i]`.
pub fn innermost_symbol(symbols: &[NewSymbol], ids: &[i64], byte: i64) -> (r: Option<i64>)
    requires
        forall|i: int| 0 <= i < symbols@.len() && sym_covers(#[trigger] symbols@[i], byte) ==> i < ids@.len(),
    ensures
        r matches Some(id) ==> exists|i: int| is_innermost_symbol(symbols@, byte, i) && ids@[i] == id,
        r is None ==> forall|i: int| 0 <= i < symbols@.len() ==> !sym_covers(#[trigger] symbols@[i], byte),
{
    let mut best: Option<(i128, usize)> = None;
    let mut i: usize = 0;
    while i < symbols.len()
        invariant
            0 <= i <= symbols@.len(),
            forall|x: int| 0 <= x < symbols@.len() && sym_covers(#[trigger] symbols@[x], byte) ==> x < ids@.len(),
            match best {
                None => forall|j: int| 0 <= j < i ==> !sym_covers(#[trigger] symbols@[j], byte),
                Some((w, k)) => {
                    &&& k < i
                    &&& sym_covers(symbols@[k as int], byte)
                    &&& w == sym_width(symbols@[k as int])
                    &&& forall|j: int| 0 <= j < i && sym_covers(#[trigger] symbols@[j], byte) ==> w <= sym_width(symbols@[j])
                    &&& forall|j: int| 0 <= j < k && sym_covers(#[trigger] symbols@[j], byte) ==> w < sym_width(symbols@[j])
                },
            },
        decreases symbols@.len() - i,
    {
        let s = &symbols[i];
        if byte >= s.start_byte && byte < s.end_byte {
            let w = s.end_byte as i128 - s.start_byte as i128;
            let better = match best {
                None => true,
                Some((bw, _)) => w < bw,
            };
            if better {
                best = Some((w, i));
            }
        }
        i = i + 1;
    }
    match best {
        None => None,
        Some((_, k)) => {
            assert(is_innermost_symbol(symbols@, byte, k as int));
            Some(ids[k])
        },
    }
}

#[verifier::external_type_specification]
#[verifier::external_body]
pub struct ExSystemTime(std::time::SystemTime);

#[verifier::external_type_specification]
#[verifier::external_body]
pub struct ExSystemTimeError(std::time::SystemTimeError);

/// `SystemTime::now`: the clock's current reading. Nothing is claimed of it.
#[verifier::external_body]
fn clock_now() -> std::time::SystemTime {
    std::time::SystemTime::now()
}

/// `SystemTime::duration_since(UNIX_EPOCH)`: the time elapsed since the
/// epoch, or an error when `t` lies before it. Nothing is claimed of which.
#[verifier::external_body]
fn since_epoch(t: &std::time::SystemTime) -> Result<std::time::Duration, std::time::SystemTimeError> {
    t.duration_since(std::time::UNIX_EPOCH)
}

/// `Duration::as_secs`: the whole seconds of a duration. A duration is
/// opaque here, so nothing is claimed of the number.
#[verifier::external_body]
fn whole_seconds(d: &std::time::Duration) -> u64 {
    d.as_secs()
}

/// The timestamp stored for a clock reading: the seconds as an `i64`, or 0
/// when the clock is before the epoch.
pub fn unix_secs(elapsed: Option<u64>) -> (r: i64)
    ensures
        r == (match elapsed {
            Some(s) => s as i64,
            None => 0i64,
        }),
{
    match elapsed {
        Some(s) => s as i64,
        None => 0,
    }
}

/// Current Unix time in seconds (0 if the clock reads before the epoch).
pub fn unix_now() -> i64 {
    let now = clock_now();
    let elapsed = match since_epoch(&now) {
        Ok(d) => Some(whole_seconds(&d)),
        Err(_) => None,
    };
    unix_secs(elapsed)
}

/// A symbol name close enough to `q` to suggest: within 3 edits, within two
/// fifths of the longer byte length for names over 4 bytes, or holding `q`
/// (all ASCII-case-insensitively).
pub open spec fn near(q: Seq<char>, n: Seq<char>) -> bool {
    let ql = lower_seq(q);
    let nl = lower_seq(n);
    let d = lev(ql, nl);
    let m = if encode_utf8(ql).len() >= encode_utf8(nl).len() { encode_utf8(ql).len() } else { encode_utf8(nl).len() };
    d <= 3 || (m > 4 && d <= m * 2 / 5) || contains(nl, ql)
}

pub open spec fn near_to(q: Seq<char>, names: Seq<Seq<char>>) -> spec_fn((int, nat)) -> bool {
    |x: (int, nat)| near(q, names[x.0])
}

/// The first `n` names, each with its index and its distance to `q`, those
/// near `q` kept.
pub open spec fn candidates(names: Seq<Seq<char>>, q: Seq<char>, n: int) -> Seq<(int, nat)> {
    Seq::new(n as nat, |i: int| (i, lev(lower_seq(q), lower_seq(names[i])))).filter(near_to(q, names))
}

pub open spec fn at_distance(d: nat) -> spec_fn((int, nat)) -> bool {
    |x: (int, nat)| x.1 == d
}

/// The entries of `c` at distance below `d`: distance 0 first, then 1, and
/// so on, each distance in the order of `c`.
pub open spec fn below_distance(c: Seq<(int, nat)>, d: nat) -> Seq<(int, nat)>
    decreases d,
{
    if d == 0 { seq![] } else { below_distance(c, (d - 1) as nat) + c.filter(at_distance((d - 1) as nat)) }
}

pub open spec fn index_dist_views(v: Seq<(usize, usize)>) -> Seq<(int, nat)> {
    v.map_values(|x: (usize, usize)| (x.0 as int, x.1 as nat))
}

/// Every name shorter than `usize::MAX` characters.
pub open spec fn names_fit(names: Seq<String>) -> bool {
    forall|i: int| 0 <= i < names.len() ==> (#[trigger] names[i])@.len() < usize::MAX
}

/// The largest distance in `c` (0 when empty).
pub open spec fn max_distance(c: Seq<(int, nat)>) -> nat
    decreases c.len(),
{
    if c.len() == 0 {
        0
    } else {
        let m = max_distance(c.drop_last());
        if c.last().1 > m { c.last().1 } else { m }
    }
}

/// The names near `query`, as (index, distance), nearest first, names at
/// one distance in their order, at most `limit` of them.
pub open spec fn fuzzy_order(names: Seq<Seq<char>>, q: Seq<char>, limit: nat) -> Seq<(int, nat)> {
    let c = candidates(names, q, names.len() as int);
    let all = below_distance(c, max_distance(c) + 1);
    if limit < all.len() { all.take(limit as int) } else { all }
}

pub open spec fn name_views(v: Seq<String>) -> Seq<Seq<char>> {
    v.map_values(|s: String| s@)
}

/// See [`fuzzy_order`].
pub fn fuzzy_ranking(names: &Vec<String>, query: &str, limit: usize) -> (r: Vec<(usize, usize)>)
    requires
        names_fit(names@),
        query@.len() < usize::MAX,
    ensures
        index_dist_views(r@) == fuzzy_order(name_views(names@), query@, limit as nat),
{
    broadcast use Seq::lemma_filter_push;
    let ghost nv = name_views(names@);
    let ghost q = query@;
    let ql = ascii_lower(query);
    let qc = chars_of(ql.as_str());
    let mut cand: Vec<(usize, usize)> = Vec::new();
    let mut top: usize = 0;
    let mut i: usize = 0;
    proof {
        reveal(Seq::filter);
        assert(Seq::new(0nat, |j: int| (j, lev(lower_seq(q), lower_seq(nv[j])))) =~= Seq::<(int, nat)>::empty());
        assert(Seq::<(int, nat)>::empty().filter(near_to(q, nv)) =~= Seq::<(int, nat)>::empty());
        assert(index_dist_views(cand@) =~= Seq::<(int, nat)>::empty());
    }
    while i < names.len()
        invariant
            0 <= i <= names@.len(),
            nv == name_views(names@),
            q == query@,
            ql@ == lower_seq(q),
            qc@ == ql@,
            names_fit(names@),
            query@.len() < usize::MAX,
            index_dist_views(cand@) == candidates(nv, q, i as int),
            top as nat == max_distance(index_dist_views(cand@)),
            top < usize::MAX,
        decreases names@.len() - i,
    {
        let nl = ascii_lower(names[i].as_str());
        assert(nl@.len() == names@[i as int]@.len());
        assert(ql@.len() == query@.len());
        let d = levenshtein(ql.as_str(), nl.as_str());
        proof {
            law_levenshtein_ignores_ascii_case(q, nv[i as int]);
            assert(lower_seq(lower_seq(q)) =~= lower_seq(q));
            assert(lower_seq(lower_seq(nv[i as int])) =~= lower_seq(nv[i as int]));
            assert(nv[i as int] == names@[i as int]@);
            lemma_lev_bound(ql@, nl@);
        }
        let ghost old_c = index_dist_views(cand@);
        let lq = ql.as_str().as_bytes().len();
        let ln = nl.as_str().as_bytes().len();
        let m: usize = if lq >= ln { lq } else { ln };
        let nc = chars_of(nl.as_str());
        let close = d <= 3 || (m > 4 && (d as u128) <= (m as u128) * 2 / 5) || contains_exec(nc.as_slice(), qc.as_slice());
        let ghost entry = (i as int, lev(lower_seq(q), lower_seq(nv[i as int])));
        proof {
            let sq = Seq::new(i as nat, |j: int| (j, lev(lower_seq(q), lower_seq(nv[j]))));
            let sq1 = Seq::new((i + 1) as nat, |j: int| (j, lev(lower_seq(q), lower_seq(nv[j]))));
            assert(sq1 =~= sq.push(entry));
            sq.lemma_filter_push(entry, near_to(q, nv));
            assert(near_to(q, nv)(entry) == near(q, nv[i as int]));
            assert(close == near(q, nv[i as int]));
        }
        if close {
            cand.push((i, d));
            if d > top {
                top = d;
            }
            assert(index_dist_views(cand@) =~= old_c.push(entry));
            assert(index_dist_views(cand@).drop_last() =~= old_c);
        }
        i = i + 1;
    }
    let ghost c = index_dist_views(cand@);
    assert(c == candidates(nv, q, nv.len() as int));
    let mut out: Vec<(usize, usize)> = Vec::new();
    let mut d: usize = 0;
    let mut done = false;
    assert(index_dist_views(out@) =~= below_distance(c, 0));
    while !done
        invariant
            d <= top + 1,
            done ==> d == top + 1,
            !done ==> d <= top,
            top < usize::MAX,
            c == index_dist_views(cand@),
            top as nat == max_distance(c),
            index_dist_views(out@) == below_distance(c, d as nat),
        decreases top + 1 - d,
    {
        let ghost before = index_dist_views(out@);
        let mut k: usize = 0;
        let ghost f = |x: (int, nat)| x.1 == d as nat;
        assert(c.take(0).filter(at_distance(d as nat)) =~= Seq::<(int, nat)>::empty()) by {
            reveal(Seq::filter);
        }
        while k < cand.len()
            invariant
                0 <= k <= cand@.len(),
                c == index_dist_views(cand@),
                index_dist_views(out@) == before + c.take(k as int).filter(at_distance(d as nat)),
            decreases cand@.len() - k,
        {
            let ghost ob = index_dist_views(out@);
            proof {
                assert(c.take(k + 1) =~= c.take(k as int).push(c[k as int]));
                c.take(k as int).lemma_filter_push(c[k as int], at_distance(d as nat));
            }
            if cand[k].1 == d {
                out.push(cand[k]);
                assert(index_dist_views(out@) =~= ob.push(c[k as int]));
            }
            k = k + 1;
        }
        assert(c.take(cand@.len() as int) =~= c);
        if d == top {
            done = true;
        }
        d = d + 1;
    }
    let ghost all = index_dist_views(out@);
    if limit < out.len() {
        out.truncate(limit);
        assert(index_dist_views(out@) =~= all.take(limit as int));
    }
    out
}

} // verus!
