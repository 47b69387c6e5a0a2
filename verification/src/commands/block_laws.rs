//! What holds of marker blocks across calls: writing a block twice changes
//! nothing the second time, and removing a block right after writing it gives
//! back the file as it was (up to a line break it had to add at its end).

use vstd::prelude::*;
use crate::commands::setup_integrations::{
    block_text, count_from, removed, spec_find_block, spec_newline_of, spec_plan_upsert, upserted, with_newlines,
    Change,
};
use crate::text::{
    contains, ends_with, find_from, is_first_occ, is_ws, lemma_first_occ_exists, lemma_first_occ_unique, occurs_at,
    starts_with, trim, trim_end, trim_start,
};

verus! {

/// A line-break character.
pub open spec fn brk(ch: char) -> bool {
    ch == '\n' || ch == '\r'
}

/// `p` holds no line break.
pub open spec fn single_line(p: Seq<char>) -> bool {
    forall|i: int| 0 <= i < p.len() ==> !brk(#[trigger] p[i])
}

/// `p` is made of line breaks only.
pub open spec fn all_breaks(p: Seq<char>) -> bool {
    forall|i: int| 0 <= i < p.len() ==> brk(#[trigger] p[i])
}

proof fn lemma_count_zero(s: Seq<char>, p: Seq<char>, k: int)
    requires
        p.len() > 0,
        count_from(s, p, 0) == 0,
    ensures
        !occurs_at(s, p, k),
{
    if occurs_at(s, p, k) {
        lemma_first_occ_exists(s, p, 0, k);
    }
}

proof fn lemma_count_none(s: Seq<char>, p: Seq<char>)
    requires
        p.len() > 0,
        forall|j: int| !occurs_at(s, p, j),
    ensures
        count_from(s, p, 0) == 0,
{
    assert(!(exists|k: int| is_first_occ(s, p, 0, k)));
}

proof fn lemma_count_one(s: Seq<char>, p: Seq<char>, k: int)
    requires
        p.len() > 0,
        occurs_at(s, p, k),
        forall|j: int| #[trigger] occurs_at(s, p, j) ==> j == k,
    ensures
        count_from(s, p, 0) == 1,
        find_from(s, p, 0) == Some(k),
{
    assert(is_first_occ(s, p, 0, k));
    let c = choose|x: int| is_first_occ(s, p, 0, x);
    lemma_first_occ_unique(s, p, 0, c, k);
    let from = k + p.len();
    assert(!(exists|x: int| is_first_occ(s, p, from, x)));
    assert(find_from(s, p, from) is None);
    assert(count_from(s, p, from) == 0);
}

proof fn lemma_occ_no_break(s: Seq<char>, q: Seq<char>, k: int, m: int)
    requires
        single_line(q),
        occurs_at(s, q, k),
        k <= m < k + q.len(),
    ensures
        !brk(s[m]),
{
    assert(s.subrange(k, k + q.len())[m - k] == s[m]);
    assert(!brk(q[m - k]));
}

/// An occurrence that starts in `[lo, hi)` of `s`, where `hi` is the end or a
/// line break, ends by `hi`: it lies in `s[lo..hi]`.
proof fn lemma_occ_within(s: Seq<char>, q: Seq<char>, k: int, lo: int, hi: int)
    requires
        single_line(q),
        q.len() > 0,
        occurs_at(s, q, k),
        0 <= lo <= k < hi <= s.len(),
        hi == s.len() || brk(s[hi]),
    ensures
        k + q.len() <= hi,
        occurs_at(s.subrange(lo, hi), q, k - lo),
{
    if k + q.len() > hi {
        lemma_occ_no_break(s, q, k, hi);
    }
    assert(s.subrange(lo, hi).subrange(k - lo, k - lo + q.len()) =~= s.subrange(k, k + q.len()));
}

proof fn lemma_occ_in_same_len(s: Seq<char>, q: Seq<char>, k: int)
    requires
        s.len() == q.len(),
        occurs_at(s, q, k),
    ensures
        k == 0,
        s == q,
{
    assert(s.subrange(0, s.len() as int) =~= s);
}

// ------------------------------------------------------------ line endings in a block body

proof fn lemma_with_lf(s: Seq<char>)
    ensures
        with_newlines(s, seq!['\n']) == s,
    decreases s.len(),
{
    if s.len() > 0 {
        lemma_with_lf(s.drop_last());
        assert(s.drop_last().push(s.last()) =~= s);
        assert(s.drop_last() + seq![s.last()] =~= s);
    }
}

proof fn lemma_with_suffix(s: Seq<char>, nl: Seq<char>, q: Seq<char>)
    requires
        nl.len() > 0,
        all_breaks(nl),
        single_line(q),
        ends_with(with_newlines(s, nl), q),
    ensures
        ends_with(s, q),
    decreases s.len(),
{
    let w = with_newlines(s, nl);
    if q.len() == 0 {
        assert(s.subrange(s.len() as int, s.len() as int) =~= q);
    } else if s.len() == 0 {
        assert(w.len() == 0);
    } else {
        let w1 = with_newlines(s.drop_last(), nl);
        if s.last() == '\n' {
            assert(w == w1 + nl);
            assert(w[w.len() - 1] == nl[nl.len() - 1]);
            assert(w.subrange(w.len() - q.len(), w.len() as int)[q.len() - 1] == w[w.len() - 1]);
            assert(!brk(q[q.len() - 1]));
        } else {
            assert(w == w1 + seq![s.last()]);
            let q1 = q.drop_last();
            assert(w1.subrange(w1.len() - q1.len(), w1.len() as int) =~= w.subrange(w.len() - q.len(), w.len() - 1));
            assert(w.subrange(w.len() - q.len(), w.len() - 1) =~= q1);
            lemma_with_suffix(s.drop_last(), nl, q1);
            assert(q[q.len() - 1] == w[w.len() - 1]);
            assert(s.subrange(s.len() - q.len(), s.len() as int) =~= s.drop_last().subrange(s.len() - 1 - q1.len(), s.len() - 1).push(s.last()));
            assert(q =~= q1.push(q[q.len() - 1]));
        }
    }
}

proof fn lemma_with_occ(s: Seq<char>, nl: Seq<char>, q: Seq<char>, k: int)
    requires
        nl.len() > 0,
        all_breaks(nl),
        single_line(q),
        q.len() > 0,
        occurs_at(with_newlines(s, nl), q, k),
    ensures
        contains(s, q),
    decreases s.len(),
{
    let w = with_newlines(s, nl);
    if s.len() == 0 {
        assert(w.len() == 0);
    } else {
        let s1 = s.drop_last();
        let w1 = with_newlines(s1, nl);
        if k + q.len() <= w1.len() {
            if s.last() == '\n' {
                assert(w == w1 + nl);
            } else {
                assert(w == w1 + seq![s.last()]);
            }
            assert(w1.subrange(k, k + q.len()) =~= w.subrange(k, k + q.len()));
            lemma_with_occ(s1, nl, q, k);
            let j = choose|j: int| occurs_at(s1, q, j);
            assert(s.subrange(j, j + q.len()) =~= s1.subrange(j, j + q.len()));
            assert(occurs_at(s, q, j));
        } else if s.last() == '\n' {
            assert(w == w1 + nl);
            let m = if k >= w1.len() { k } else { w1.len() as int };
            lemma_occ_no_break(w, q, k, m);
            assert(w[m] == nl[m - w1.len()]);
        } else {
            assert(w == w1 + seq![s.last()]);
            assert(k + q.len() == w.len());
            assert(w.subrange(w.len() - q.len(), w.len() as int) =~= w.subrange(k, k + q.len()));
            lemma_with_suffix(s, nl, q);
            assert(occurs_at(s, q, s.len() - q.len()));
        }
    }
}

// ------------------------------------------------------------ the written file

/// Markers the laws speak of: non-empty, single-line, neither inside the other.
pub open spec fn markers_ok(b: Seq<char>, e: Seq<char>) -> bool {
    &&& b.len() > 0 && e.len() > 0
    &&& single_line(b) && single_line(e)
    &&& !contains(b, e) && !contains(e, b)
}

/// What the block is written into and with: a file without markers, a body
/// that mentions neither marker, and nothing that would join into a `\r\n`
/// the file did not have (a file ending in a lone `\r`, or a body with `\r\n`
/// or ending in `\r` written into a `\n` file).
pub open spec fn block_inputs_ok(c: Seq<char>, b: Seq<char>, e: Seq<char>, body: Seq<char>) -> bool {
    &&& markers_ok(b, e)
    &&& count_from(c, b, 0) == 0 && count_from(c, e, 0) == 0
    &&& !contains(body, b) && !contains(body, e)
    &&& (trim(c).len() > 0 && ends_with(c, "\r"@)) ==> contains(c, "\r\n"@)
    &&& !contains(c, "\r\n"@) ==> (!contains(body, "\r\n"@) && !ends_with(body, "\r"@))
}

/// What comes before the block in a file written from `c`: nothing in a blank
/// file, else the old text, ended by a line break, and a blank line.
pub open spec fn lead(c: Seq<char>, nl: Seq<char>) -> Seq<char> {
    if trim(c).len() == 0 {
        seq![]
    } else {
        (if ends_with(c, "\n"@) { c } else { c + nl }) + nl
    }
}

#[verifier::rlimit(40)]
proof fn lemma_unique_marker(u: Seq<char>, c: Seq<char>, nl: Seq<char>, b: Seq<char>, e: Seq<char>, body: Seq<char>, q: Seq<char>, j: int)
    requires
        block_inputs_ok(c, b, e, body),
        nl == seq!['\n'] || nl == seq!['\r', '\n'],
        u == lead(c, nl) + block_text(b, e, body, nl) + nl,
        q == b || q == e,
        occurs_at(u, q, j),
    ensures
        q == b ==> j == lead(c, nl).len(),
        q == e ==> j == lead(c, nl).len() + b.len() + 2 * nl.len() + with_newlines(body, nl).len(),
{
    reveal_strlit("\n");
    let pre = lead(c, nl);
    let wb = with_newlines(body, nl);
    let p = pre.len() as int;
    let b1 = p + b.len();
    let w0 = b1 + nl.len();
    let w1 = w0 + wb.len();
    let e0 = w1 + nl.len();
    let e1 = e0 + e.len();
    assert(u.len() == e1 + nl.len());
    assert(single_line(q));
    assert(all_breaks(nl));
    if j < p {
        let c2 = if ends_with(c, "\n"@) { c } else { c + nl };
        assert(pre == c2 + nl);
        let l: int = if ends_with(c, "\n"@) { c.len() - 1 } else { c.len() as int };
        if ends_with(c, "\n"@) {
            assert(c.subrange(c.len() - 1, c.len() as int)[0] == c[c.len() - 1]);
            assert(u[l] == '\n');
        } else {
            assert(u[l] == nl[0]);
        }
        if j >= l {
            if ends_with(c, "\n"@) && j == l {
            } else if j < c2.len() {
                assert(u[j] == nl[j - c.len()]);
            } else {
                assert(u[j] == nl[j - c2.len()]);
            }
            lemma_occ_no_break(u, q, j, j);
        } else {
            lemma_occ_within(u, q, j, 0, l);
            assert(u.subrange(0, l) =~= c.subrange(0, l));
            assert(c.subrange(0, l).subrange(j, j + q.len()) =~= c.subrange(j, j + q.len()));
            lemma_count_zero(c, q, j);
        }
    } else if j < b1 {
        assert(u[b1] == nl[0]);
        lemma_occ_within(u, q, j, p, b1);
        assert(u.subrange(p, b1) =~= b);
        if q == b {
            lemma_occ_in_same_len(b, q, j - p);
        } else {
            assert(contains(b, e));
        }
    } else if j < w0 {
        assert(u[j] == nl[j - b1]);
        lemma_occ_no_break(u, q, j, j);
    } else if j < w1 {
        assert(u[w1] == nl[0]);
        lemma_occ_within(u, q, j, w0, w1);
        assert(u.subrange(w0, w1) =~= wb);
        lemma_with_occ(body, nl, q, j - w0);
    } else if j < e0 {
        assert(u[j] == nl[j - w1]);
        lemma_occ_no_break(u, q, j, j);
    } else if j < e1 {
        assert(u[e1] == nl[0]);
        lemma_occ_within(u, q, j, e0, e1);
        assert(u.subrange(e0, e1) =~= e);
        if q == e {
            lemma_occ_in_same_len(e, q, j - e0);
        } else {
            assert(contains(e, b));
        }
    } else {
        assert(u[j] == nl[j - e1]);
        lemma_occ_no_break(u, q, j, j);
    }
}

proof fn lemma_written_crlf(u: Seq<char>, c: Seq<char>, b: Seq<char>, e: Seq<char>, body: Seq<char>, j: int)
    requires
        block_inputs_ok(c, b, e, body),
        !contains(c, "\r\n"@),
        u == lead(c, seq!['\n']) + block_text(b, e, body, seq!['\n']) + seq!['\n'],
    ensures
        !occurs_at(u, "\r\n"@, j),
{
    reveal_strlit("\n");
    reveal_strlit("\r\n");
    reveal_strlit("\r");
    let nl = seq!['\n'];
    let crlf = seq!['\r', '\n'];
    assert("\r\n"@ =~= crlf);
    lemma_with_lf(body);
    let pre = lead(c, nl);
    let p = pre.len() as int;
    let b1 = p + b.len();
    let w0 = b1 + 1;
    let w1 = w0 + body.len();
    let e0 = w1 + 1;
    let e1 = e0 + e.len();
    assert(u.len() == e1 + 1);
    if occurs_at(u, crlf, j) {
        assert(u.subrange(j, j + 2)[0] == u[j]);
        assert(u.subrange(j, j + 2)[1] == u[j + 1]);
        assert(u[j] == '\r' && u[j + 1] == '\n');
        if j < p {
            if j + 1 < c.len() {
                assert(c.subrange(j, j + 2) =~= crlf);
                assert(occurs_at(c, crlf, j));
            } else if j + 1 == c.len() {
                let c2 = if ends_with(c, "\n"@) { c } else { c + nl };
                assert(pre == c2 + nl);
                assert(u[j] == c[j]);
                assert("\r"@ =~= seq!['\r']);
                assert(c.subrange(c.len() - 1, c.len() as int) =~= seq!['\r']);
                assert(trim(c).len() > 0) by {
                    if trim(c).len() == 0 {
                        assert(pre == Seq::<char>::empty());
                    }
                }
                assert(ends_with(c, "\r"@));
            } else {
                let c2 = if ends_with(c, "\n"@) { c } else { c + nl };
                assert(pre == c2 + nl);
                if j < c2.len() {
                    assert(u[j] == nl[j - c.len()]);
                } else {
                    assert(u[j] == nl[j - c2.len()]);
                }
            }
        } else if j < b1 {
            assert(u[j] == b[j - p]);
            assert(!brk(b[j - p]));
        } else if j < w0 {
            assert(u[j] == '\n');
        } else if j < w1 {
            assert(u[j] == body[j - w0]);
            if j + 1 < w1 {
                assert(u[j + 1] == body[j + 1 - w0]);
                assert(body.subrange(j - w0, j - w0 + 2) =~= crlf);
                assert(occurs_at(body, crlf, j - w0));
            } else {
                assert("\r"@ =~= seq!['\r']);
                assert(body.subrange(body.len() - 1, body.len() as int) =~= seq!['\r']);
                assert(ends_with(body, "\r"@));
            }
        } else if j < e0 {
            assert(u[j] == '\n');
        } else if j < e1 {
            assert(u[j] == e[j - e0]);
            assert(!brk(e[j - e0]));
        } else {
            assert(u[j] == '\n');
        }
    }
}

/// The file written from `c` keeps `c`'s line-break style, and its one block
/// is found right after [`lead`].
proof fn lemma_written_shape(c: Seq<char>, b: Seq<char>, e: Seq<char>, body: Seq<char>)
    requires
        block_inputs_ok(c, b, e, body),
    ensures
        ({
            let nl = spec_newline_of(c);
            let blk = block_text(b, e, body, nl);
            let u = upserted(c, blk, nl, None);
            &&& spec_find_block(c, b, e) == Ok::<Option<(int, int)>, crate::commands::setup_integrations::MarkerError>(None)
            &&& u == lead(c, nl) + blk + nl
            &&& spec_newline_of(u) == nl
            &&& spec_find_block(u, b, e) == Ok::<Option<(int, int)>, crate::commands::setup_integrations::MarkerError>(
                Some((lead(c, nl).len() as int, (lead(c, nl).len() + blk.len()) as int)))
        }),
{
    reveal_strlit("\n");
    reveal_strlit("\r\n");
    let nl = spec_newline_of(c);
    let blk = block_text(b, e, body, nl);
    let u = upserted(c, blk, nl, None);
    let pre = lead(c, nl);
    let wb = with_newlines(body, nl);
    assert(nl == seq!['\n'] || nl == seq!['\r', '\n']);
    if trim(c).len() == 0 {
        assert(u =~= pre + blk + nl);
    } else {
        assert(u =~= pre + blk + nl);
    }
    // the newline style
    if contains(c, "\r\n"@) {
        let p = pre.len() as int;
        let b1 = p + b.len();
        assert(u.subrange(b1, b1 + 2) =~= nl);
        assert(occurs_at(u, "\r\n"@, b1));
        assert(contains(u, "\r\n"@));
    } else {
        assert forall|j: int| !occurs_at(u, "\r\n"@, j) by {
            lemma_written_crlf(u, c, b, e, body, j);
        }
    }
    assert(spec_newline_of(u) == nl);
    // the markers
    let pb = pre.len() as int;
    let pe = (pre.len() + b.len() + 2 * nl.len() + wb.len()) as int;
    assert(u.subrange(pb, pb + b.len()) =~= b);
    assert(u.subrange(pe, pe + e.len()) =~= e);
    assert forall|j: int| #[trigger] occurs_at(u, b, j) implies j == pb by {
        lemma_unique_marker(u, c, nl, b, e, body, b, j);
    }
    assert forall|j: int| #[trigger] occurs_at(u, e, j) implies j == pe by {
        lemma_unique_marker(u, c, nl, b, e, body, e, j);
    }
    lemma_count_one(u, b, pb);
    lemma_count_one(u, e, pe);
    assert forall|j: int| !occurs_at(c, b, j) by {
        lemma_count_zero(c, b, j);
    }
}

// ------------------------------------------------------------ blank text

pub open spec fn all_ws(s: Seq<char>) -> bool {
    forall|i: int| 0 <= i < s.len() ==> is_ws(#[trigger] s[i])
}

proof fn lemma_trim_start_blank(s: Seq<char>)
    ensures
        (trim_start(s).len() == 0) == all_ws(s),
        trim_start(s).len() > 0 ==> !is_ws(trim_start(s)[0]),
    decreases s.len(),
{
    if s.len() > 0 && is_ws(s[0]) {
        lemma_trim_start_blank(s.drop_first());
        if all_ws(s.drop_first()) {
            assert forall|i: int| 0 <= i < s.len() implies is_ws(#[trigger] s[i]) by {
                if i > 0 {
                    assert(s[i] == s.drop_first()[i - 1]);
                }
            }
        }
        if all_ws(s) {
            assert forall|i: int| 0 <= i < s.drop_first().len() implies is_ws(#[trigger] s.drop_first()[i]) by {
                assert(s.drop_first()[i] == s[i + 1]);
            }
        }
    } else if s.len() > 0 {
        assert(!is_ws(s[0]));
    }
}

proof fn lemma_trim_end_blank(s: Seq<char>)
    ensures
        (trim_end(s).len() == 0) == all_ws(s),
    decreases s.len(),
{
    if s.len() > 0 && is_ws(s.last()) {
        lemma_trim_end_blank(s.drop_last());
        if all_ws(s.drop_last()) {
            assert forall|i: int| 0 <= i < s.len() implies is_ws(#[trigger] s[i]) by {
                if i < s.len() - 1 {
                    assert(s[i] == s.drop_last()[i]);
                }
            }
        }
        if all_ws(s) {
            assert forall|i: int| 0 <= i < s.drop_last().len() implies is_ws(#[trigger] s.drop_last()[i]) by {
                assert(s.drop_last()[i] == s[i]);
            }
        }
    } else if s.len() > 0 {
        assert(!is_ws(s[s.len() - 1]));
    }
}

/// `trim(s)` is empty exactly when `s` is all whitespace.
proof fn lemma_trim_blank(s: Seq<char>)
    ensures
        (trim(s).len() == 0) == all_ws(s),
{
    let t = trim_start(s);
    lemma_trim_start_blank(s);
    lemma_trim_end_blank(t);
    if t.len() > 0 {
        assert(!all_ws(t)) by {
            assert(!is_ws(t[0]));
        }
    }
}

// ------------------------------------------------------------ the laws

pub open spec fn content_of(existing: Option<Seq<char>>) -> Seq<char> {
    match existing {
        Some(x) => x,
        None => seq![],
    }
}

/// Writing the block again right after writing it changes nothing: `setup`
/// is idempotent.
pub proof fn law_upsert_is_idempotent(existing: Option<Seq<char>>, b: Seq<char>, e: Seq<char>, body: Seq<char>)
    requires
        block_inputs_ok(content_of(existing), b, e, body),
    ensures
        spec_plan_upsert(existing, b, e, body) matches Ok((u, _))
            && spec_plan_upsert(Some(u), b, e, body) == Ok::<(Seq<char>, Change), crate::commands::setup_integrations::MarkerError>((u, Change::Unchanged)),
{
    let c = content_of(existing);
    lemma_written_shape(c, b, e, body);
    let nl = spec_newline_of(c);
    let blk = block_text(b, e, body, nl);
    let u = upserted(c, blk, nl, None);
    let p = lead(c, nl).len() as int;
    assert(spec_plan_upsert(existing, b, e, body) matches Ok((x, _)) && x == u);
    let again = upserted(u, blk, nl, Some((p, p + blk.len())));
    assert(u.subrange(0, p) =~= lead(c, nl));
    assert(u.subrange(p + blk.len(), u.len() as int) =~= nl);
    assert(again =~= u);
}

/// A marker counted once occurs first at `k` and nowhere from `k + p.len()` on.
proof fn lemma_count_one_inv(s: Seq<char>, p: Seq<char>)
    requires
        p.len() > 0,
        count_from(s, p, 0) == 1,
    ensures
        find_from(s, p, 0) matches Some(k) && occurs_at(s, p, k)
            && (forall|j: int| j < k ==> !#[trigger] occurs_at(s, p, j))
            && (forall|j: int| j >= k + p.len() ==> !#[trigger] occurs_at(s, p, j)),
{
    let k = find_from(s, p, 0)->0;
    let c = choose|x: int| is_first_occ(s, p, 0, x);
    assert(is_first_occ(s, p, 0, k));
    let from = k + p.len();
    assert(count_from(s, p, from) == 0);
    assert forall|j: int| j >= from implies !#[trigger] occurs_at(s, p, j) by {
        if occurs_at(s, p, j) {
            lemma_first_occ_exists(s, p, from, j);
            let c2 = choose|x: int| is_first_occ(s, p, from, x);
            assert(from <= s.len());
            assert(count_from(s, p, from) >= 1);
        }
    }
}

/// A pattern whose first occurrence is at `k` and that does not occur from
/// `k + p.len()` on is counted once, found at `k`.
proof fn lemma_count_one_first(s: Seq<char>, p: Seq<char>, k: int)
    requires
        p.len() > 0,
        occurs_at(s, p, k),
        forall|j: int| j < k ==> !#[trigger] occurs_at(s, p, j),
        forall|j: int| j >= k + p.len() ==> !#[trigger] occurs_at(s, p, j),
    ensures
        count_from(s, p, 0) == 1,
        find_from(s, p, 0) == Some(k),
{
    assert(is_first_occ(s, p, 0, k));
    let c = choose|x: int| is_first_occ(s, p, 0, x);
    lemma_first_occ_unique(s, p, 0, c, k);
    let from = k + p.len();
    assert(!(exists|x: int| is_first_occ(s, p, from, x)));
    assert(find_from(s, p, from) is None);
    assert(count_from(s, p, from) == 0);
}

/// Where a marker can occur in a file whose block at `[x, y)` (begin at `x`,
/// end at `ei`) was rewritten: the begin marker only where the block
/// starts, the end marker only inside the block's closing marker.
#[verifier::rlimit(40)]
proof fn lemma_rewritten_marker(c: Seq<char>, u: Seq<char>, nl: Seq<char>, b: Seq<char>, e: Seq<char>, body: Seq<char>,
    x: int, ei: int, q: Seq<char>, j: int)
    requires
        markers_ok(b, e),
        !contains(body, b) && !contains(body, e),
        nl == seq!['\n'] || nl == seq!['\r', '\n'],
        occurs_at(c, b, x),
        occurs_at(c, e, ei),
        x + b.len() <= ei,
        u == c.subrange(0, x) + block_text(b, e, body, nl) + c.subrange(ei + e.len(), c.len() as int),
        q == b || q == e,
        occurs_at(u, q, j),
    ensures
        ({
            let e0 = x + b.len() + 2 * nl.len() + with_newlines(body, nl).len();
            &&& j < x + b.len() ==> occurs_at(c, q, j) && j + q.len() <= x + b.len()
            &&& j >= x + b.len() ==> j >= e0 && occurs_at(c, q, ei + (j - e0))
        }),
{
    reveal_strlit("\n");
    let wb = with_newlines(body, nl);
    let b1 = x + b.len();
    let w0 = b1 + nl.len();
    let w1 = w0 + wb.len();
    let e0 = w1 + nl.len();
    let e1 = e0 + e.len();
    let y = ei + e.len();
    assert(u.len() == e1 + (c.len() - y));
    assert(single_line(q));
    assert(all_breaks(nl));
    assert(u.subrange(0, b1) =~= c.subrange(0, b1)) by {
        assert(c.subrange(x, x + b.len()) =~= b);
        assert forall|i: int| 0 <= i < b1 implies u.subrange(0, b1)[i] == c.subrange(0, b1)[i] by {
            if i >= x {
                assert(c.subrange(x, x + b.len())[i - x] == c[i]);
            }
        }
    }
    assert(u.subrange(e0, u.len() as int) =~= c.subrange(ei, c.len() as int)) by {
        assert(c.subrange(ei, ei + e.len()) =~= e);
        assert forall|i: int| 0 <= i < u.len() - e0 implies u.subrange(e0, u.len() as int)[i] == c.subrange(ei, c.len() as int)[i] by {
            if i < e.len() {
                assert(c.subrange(ei, ei + e.len())[i] == c[ei + i]);
            }
        }
    }
    if j < b1 {
        assert(u[b1] == nl[0]);
        lemma_occ_within(u, q, j, 0, b1);
        assert(u.subrange(0, b1).subrange(j, j + q.len()) =~= c.subrange(j, j + q.len()));
    } else if j < w0 {
        assert(u[j] == nl[j - b1]);
        lemma_occ_no_break(u, q, j, j);
    } else if j < w1 {
        assert(u[w1] == nl[0]);
        lemma_occ_within(u, q, j, w0, w1);
        assert(u.subrange(w0, w1) =~= wb);
        lemma_with_occ(body, nl, q, j - w0);
    } else if j < e0 {
        assert(u[j] == nl[j - w1]);
        lemma_occ_no_break(u, q, j, j);
    } else {
        let d = j - e0;
        assert(u.subrange(j, j + q.len()) =~= u.subrange(e0, u.len() as int).subrange(d, d + q.len()));
        assert(c.subrange(ei + d, ei + d + q.len()) =~= c.subrange(ei, c.len() as int).subrange(d, d + q.len()));
    }
}

/// The rewritten file has a `\r\n` only where the old one had, when the
/// old one had none and the body brings none.
#[verifier::rlimit(40)]
proof fn lemma_rewritten_lf(c: Seq<char>, u: Seq<char>, b: Seq<char>, e: Seq<char>, body: Seq<char>, x: int, ei: int, j: int)
    requires
        markers_ok(b, e),
        !contains(c, "\r\n"@),
        !contains(body, "\r\n"@),
        !ends_with(body, "\r"@),
        occurs_at(c, b, x),
        occurs_at(c, e, ei),
        x + b.len() <= ei,
        u == c.subrange(0, x) + block_text(b, e, body, seq!['\n']) + c.subrange(ei + e.len(), c.len() as int),
    ensures
        !occurs_at(u, "\r\n"@, j),
{
    reveal_strlit("\n");
    reveal_strlit("\r\n");
    reveal_strlit("\r");
    let nl = seq!['\n'];
    lemma_with_lf(body);
    let b1 = x + b.len();
    let w0 = b1 + 1;
    let w1 = w0 + body.len();
    let e0 = w1 + 1;
    let crlf = "\r\n"@;
    assert(crlf.len() == 2 && crlf[0] == '\r' && crlf[1] == '\n');
    if occurs_at(u, crlf, j) {
        assert(u.subrange(j, j + 2)[0] == u[j]);
        assert(u.subrange(j, j + 2)[1] == u[j + 1]);
        assert(u[j] == '\r' && u[j + 1] == '\n');
        assert(c.subrange(x, x + b.len()) =~= b);
        assert(c.subrange(ei, ei + e.len()) =~= e);
        if j + 1 < x {
            assert(c.subrange(j, j + 2) =~= u.subrange(j, j + 2));
            assert(occurs_at(c, crlf, j));
        } else if j < b1 {
            if j >= x {
                assert(u[j] == b[j - x]);
                assert(!brk(b[j - x]));
            } else {
                assert(u[j + 1] == b[0]);
                assert(!brk(b[0]));
            }
        } else if j < w0 {
            assert(u[j] == '\n');
        } else if j < w1 {
            if j + 1 < w1 {
                assert(u[j] == body[j - w0]);
                assert(u[j + 1] == body[j + 1 - w0]);
                assert(body.subrange(j - w0, j - w0 + 2) =~= crlf);
                assert(occurs_at(body, crlf, j - w0));
            } else {
                assert(u[j] == body[body.len() - 1]);
                assert("\r"@.len() == 1 && "\r"@[0] == '\r');
                assert(body.subrange(body.len() - 1, body.len() as int) =~= "\r"@);
                assert(ends_with(body, "\r"@));
            }
        } else if j < e0 {
            assert(u[j] == '\n');
        } else if j < e0 + e.len() {
            assert(u[j] == e[j - e0]);
            assert(!brk(e[j - e0]));
        } else {
            let d = j - e0;
            assert(u[j] == c[ei + d]);
            assert(u[j + 1] == c[ei + d + 1]);
            assert(c.subrange(ei + d, ei + d + 2) =~= crlf);
            assert(occurs_at(c, crlf, ei + d));
        }
    }
}

/// Writing the block again right after writing it changes nothing, whatever
/// the file held before, the block included: every write that succeeds is
/// a fixed point. Left out are the inputs on which a second write would
/// differ: markers that span lines or sit inside each other, a body that
/// names a marker, a body that brings `\r\n` (or ends in `\r`) into a file
/// that has none, a file without the block that ends in a lone `\r`, and a
/// file whose end marker starts inside its begin marker.
pub proof fn law_upsert_is_idempotent_any(existing: Option<Seq<char>>, b: Seq<char>, e: Seq<char>, body: Seq<char>)
    requires
        spec_plan_upsert(existing, b, e, body) is Ok,
        markers_ok(b, e),
        !contains(body, b) && !contains(body, e),
        !contains(content_of(existing), "\r\n"@) ==> (!contains(body, "\r\n"@) && !ends_with(body, "\r"@)),
        spec_find_block(content_of(existing), b, e) == Ok::<Option<(int, int)>, crate::commands::setup_integrations::MarkerError>(None)
            ==> ((trim(content_of(existing)).len() > 0 && ends_with(content_of(existing), "\r"@)) ==> contains(content_of(existing), "\r\n"@)),
        spec_find_block(content_of(existing), b, e) matches Ok(Some((x, y))) ==> x + b.len() + e.len() <= y,
    ensures
        spec_plan_upsert(existing, b, e, body) matches Ok((u, _))
            && spec_plan_upsert(Some(u), b, e, body) == Ok::<(Seq<char>, Change), crate::commands::setup_integrations::MarkerError>((u, Change::Unchanged)),
{
    let c = content_of(existing);
    match spec_find_block(c, b, e) {
        Ok(None) => {
            law_upsert_is_idempotent(existing, b, e, body);
        },
        Ok(Some((x, y))) => {
            let nl = spec_newline_of(c);
            reveal_strlit("\n");
            reveal_strlit("\r\n");
            assert(nl == seq!['\n'] || nl == seq!['\r', '\n']);
            lemma_count_one_inv(c, b);
            lemma_count_one_inv(c, e);
            let ei = y - e.len();
            assert(find_from(c, b, 0) == Some(x));
            assert(find_from(c, e, 0) == Some(ei));
            let blk = block_text(b, e, body, nl);
            let u = upserted(c, blk, nl, Some((x, y)));
            assert(u == c.subrange(0, x) + blk + c.subrange(ei + e.len(), c.len() as int));
            let wb = with_newlines(body, nl);
            let e0 = x + b.len() + 2 * nl.len() + wb.len();
            let e1 = e0 + e.len();
            assert(u.len() == x + blk.len() + (c.len() - y));
            // The begin marker occurs in `u` exactly where the block starts.
            assert forall|j: int| #[trigger] occurs_at(u, b, j) implies j == x by {
                lemma_rewritten_marker(c, u, nl, b, e, body, x, ei, b, j);
                if j >= x + b.len() {
                    assert(ei + (j - e0) >= x + b.len());
                }
            }
            assert(occurs_at(u, b, x)) by {
                assert(u.subrange(x, x + b.len()) =~= b);
            }
            lemma_count_one_first(u, b, x);
            // The end marker occurs first where the block ends, and nowhere after it.
            assert(occurs_at(u, e, e0)) by {
                assert(u.subrange(e0, e0 + e.len()) =~= e);
            }
            assert forall|j: int| j < e0 implies !#[trigger] occurs_at(u, e, j) by {
                if occurs_at(u, e, j) {
                    lemma_rewritten_marker(c, u, nl, b, e, body, x, ei, e, j);
                }
            }
            assert forall|j: int| j >= e0 + e.len() implies !#[trigger] occurs_at(u, e, j) by {
                if occurs_at(u, e, j) {
                    lemma_rewritten_marker(c, u, nl, b, e, body, x, ei, e, j);
                }
            }
            lemma_count_one_first(u, e, e0);
            assert(spec_find_block(u, b, e) == Ok::<Option<(int, int)>, crate::commands::setup_integrations::MarkerError>(Some((x, e1))));
            // The line break style stays.
            if contains(c, "\r\n"@) {
                assert(u.subrange(x + b.len(), x + b.len() + 2) =~= "\r\n"@);
                assert(occurs_at(u, "\r\n"@, x + b.len()));
            } else {
                assert(nl == seq!['\n']);
                assert forall|j: int| !occurs_at(u, "\r\n"@, j) by {
                    lemma_rewritten_lf(c, u, b, e, body, x, ei, j);
                }
            }
            assert(spec_newline_of(u) == nl);
            assert(upserted(u, blk, nl, Some((x, e1))) =~= u) by {
                assert(u.subrange(0, x) =~= c.subrange(0, x));
                assert(u.subrange(e1, u.len() as int) =~= c.subrange(y, c.len() as int));
            }
        },
        Err(_) => {},
    }
}

/// What the removal keeps of the text after the block: nothing, as that
/// text is just the block's closing line break.
proof fn lemma_after_block(after0: Seq<char>)
    requires
        after0 == seq!['\n'] || after0 == seq!['\r', '\n'],
    ensures
        (if starts_with(after0, "\r\n"@) {
            after0.subrange(2, after0.len() as int)
        } else if starts_with(after0, "\n"@) {
            after0.subrange(1, after0.len() as int)
        } else {
            after0
        }) == Seq::<char>::empty(),
{
    reveal_strlit("\n");
    reveal_strlit("\r\n");
    if after0 == seq!['\r', '\n'] {
        assert(after0.subrange(0, 2) =~= "\r\n"@);
        assert(after0.subrange(2, 2) =~= Seq::<char>::empty());
    } else {
        assert(after0.subrange(0, 1) =~= "\n"@);
        assert(after0.subrange(1, 1) =~= Seq::<char>::empty());
    }
}

/// What the removal keeps of the text before the block.
proof fn lemma_before_block(c: Seq<char>, nl: Seq<char>)
    requires
        nl == seq!['\n'] || nl == seq!['\r', '\n'],
        trim(c).len() > 0,
    ensures
        ({
            let pre = lead(c, nl);
            let nn = nl + nl;
            (if ends_with(pre, nn) { pre.subrange(0, pre.len() - nl.len()) } else { pre })
                == (if ends_with(c, nl) { c } else { c + nl })
        }),
{
    reveal_strlit("\n");
    let pre = lead(c, nl);
    let nn = nl + nl;
    if ends_with(c, nl) {
        assert(c.subrange(c.len() - nl.len(), c.len() as int)[nl.len() - 1] == c[c.len() - 1]);
        assert(c.subrange(c.len() - 1, c.len() as int) =~= "\n"@);
        assert(ends_with(c, "\n"@));
        assert(pre == c + nl);
        assert(pre.subrange(pre.len() - nn.len(), pre.len() as int) =~= c.subrange(c.len() - nl.len(), c.len() as int) + nl);
        assert(pre.subrange(pre.len() - nn.len(), pre.len() as int) =~= nn);
        assert(pre.subrange(0, pre.len() - nl.len()) =~= c);
    } else if ends_with(c, "\n"@) {
        assert(pre == c + nl);
        if ends_with(pre, nn) {
            assert(c.subrange(c.len() - nl.len(), c.len() as int) =~= pre.subrange(pre.len() - nn.len(), pre.len() - nl.len()));
            assert(pre.subrange(pre.len() - nn.len(), pre.len() - nl.len()) =~= nn.subrange(0, nl.len() as int));
            assert(nn.subrange(0, nl.len() as int) =~= nl);
        }
    } else {
        assert(pre == (c + nl) + nl);
        assert(pre.subrange(pre.len() - nn.len(), pre.len() as int) =~= nn);
        assert(pre.subrange(0, pre.len() - nl.len()) =~= c + nl);
    }
}

proof fn lemma_removed_written(c: Seq<char>, nl: Seq<char>, blk: Seq<char>, u: Seq<char>)
    requires
        nl == seq!['\n'] || nl == seq!['\r', '\n'],
        u == lead(c, nl) + blk + nl,
        spec_newline_of(u) == nl,
    ensures
        ({
            let p = lead(c, nl).len() as int;
            let left = removed(u, p, p + blk.len());
            &&& trim(c).len() == 0 ==> trim(left).len() == 0
            &&& trim(c).len() > 0 ==> left == (if ends_with(c, nl) { c } else { c + nl }) && trim(left).len() > 0
        }),
{
    let pre = lead(c, nl);
    let p = pre.len() as int;
    let y = p + blk.len();
    let before0 = u.subrange(0, p);
    let after0 = u.subrange(y, u.len() as int);
    assert(before0 =~= pre);
    assert(after0 =~= nl);
    lemma_after_block(after0);
    let left = removed(u, p, y);
    lemma_trim_blank(c);
    if trim(c).len() == 0 {
        assert(pre =~= Seq::<char>::empty());
        assert(left =~= Seq::<char>::empty());
        lemma_trim_blank(left);
    } else {
        lemma_before_block(c, nl);
        assert(left == (if ends_with(c, nl) { c } else { c + nl }));
        let i = choose|i: int| 0 <= i < c.len() && !is_ws(#[trigger] c[i]);
        assert(left[i] == c[i]);
        lemma_trim_blank(left);
    }
}

/// Removing the block right after writing it gives the file back as it was,
/// save for the line break it had to gain at its end when it had none; a file
/// that held nothing but the block is left blank (and so deleted).
#[verifier::rlimit(60)]
pub proof fn law_remove_undoes_upsert(existing: Option<Seq<char>>, b: Seq<char>, e: Seq<char>, body: Seq<char>)
    requires
        block_inputs_ok(content_of(existing), b, e, body),
    ensures
        spec_plan_upsert(existing, b, e, body) matches Ok((u, _)) && spec_find_block(u, b, e) matches Ok(Some((x, y))) && {
            let c = content_of(existing);
            let nl = spec_newline_of(c);
            let left = removed(u, x, y);
            &&& trim(c).len() == 0 ==> trim(left).len() == 0
            &&& trim(c).len() > 0 ==> left == (if ends_with(c, nl) { c } else { c + nl }) && trim(left).len() > 0
        },
{
    reveal_strlit("\n");
    reveal_strlit("\r\n");
    let c = content_of(existing);
    lemma_written_shape(c, b, e, body);
    let nl = spec_newline_of(c);
    let blk = block_text(b, e, body, nl);
    let u = upserted(c, blk, nl, None);
    assert(spec_plan_upsert(existing, b, e, body) matches Ok((x, _)) && x == u);
    assert(nl == seq!['\n'] || nl == seq!['\r', '\n']);
    lemma_removed_written(c, nl, blk, u);
    let p = lead(c, nl).len() as int;
    assert(spec_find_block(u, b, e) == Ok::<Option<(int, int)>, crate::commands::setup_integrations::MarkerError>(Some((p, p + blk.len()))));
}

} // verus!
