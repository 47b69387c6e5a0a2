//! Text primitives shared by every analyzer: string equality, character
//! vectors, trimming and searching, each with a specification over `Seq<char>`.

use vstd::prelude::*;
use vstd::utf8::*;
use vstd::string::StringSliceAdditionalSpecFns;
use vstd::std_specs::iter::IteratorSpec;

verus! {

/// The characters of an optional string.
pub open spec fn opt_chars(o: Option<String>) -> Option<Seq<char>> {
    match o {
        Some(s) => Some(s@),
        None => None,
    }
}

broadcast use vstd::string::group_string_axioms;

/// A copy of an optional string.
pub fn clone_opt_string(o: &Option<String>) -> (r: Option<String>)
    ensures
        opt_chars(r) == opt_chars(*o),
{
    match o {
        Some(s) => Some(s.clone()),
        None => None,
    }
}

/// The characters of `s`, in order.
pub fn chars_of(s: &str) -> (v: Vec<char>)
    ensures
        v@ == s@,
{
    let mut v: Vec<char> = Vec::new();
    let mut it = s.chars();
    loop
        invariant
            v@ + it.remaining() == s@,
            it.decrease() is Some,
        ensures
            v@ == s@,
        decreases it.decrease()->0,
    {
        match it.next() {
            Some(c) => {
                v.push(c);
            },
            None => {
                assert(v@ =~= s@);
                break;
            },
        }
    }
    v
}

/// Whether `c` has the Unicode `Uppercase` property.
pub uninterp spec fn uppercase(c: char) -> bool;

/// `char::is_uppercase`: true exactly for characters with the Unicode
/// `Uppercase` property, among them `A`..=`Z` and none of `a`..=`z`.
#[verifier::external_body]
pub(crate) fn is_uppercase(c: char) -> (r: bool)
    ensures
        r == uppercase(c),
        ('A' <= c <= 'Z') ==> r,
        ('a' <= c <= 'z') ==> !r,
{
    c.is_uppercase()
}

/// The first character of `s` is an uppercase letter.
pub open spec fn starts_upper(s: Seq<char>) -> bool {
    s.len() > 0 && uppercase(s[0])
}

pub fn starts_upper_exec(s: &str) -> (r: bool)
    ensures
        r == starts_upper(s@),
{
    let c = chars_of(s);
    c.len() > 0 && is_uppercase(c[0])
}

/// Appends one character to a string (`String::push`).
#[verifier::external_body]
pub fn push_char(s: &mut String, c: char)
    ensures
        final(s)@ == old(s)@.push(c),
{
    s.push(c);
}

/// A string holding exactly the characters of `v`.
pub fn string_of(v: &[char]) -> (s: String)
    ensures
        s@ == v@,
{
    let mut s = String::new();
    let mut i: usize = 0;
    while i < v.len()
        invariant
            0 <= i <= v@.len(),
            s@ == v@.take(i as int),
        decreases v@.len() - i,
    {
        push_char(&mut s, v[i]);
        i = i + 1;
        assert(s@ =~= v@.take(i as int));
    }
    assert(v@.take(v@.len() as int) =~= v@);
    s
}

/// Whether two strings hold the same characters, compared byte by byte.
pub fn str_eq(a: &str, b: &str) -> (r: bool)
    ensures
        r == (a@ == b@),
{
    let x = a.as_bytes();
    let y = b.as_bytes();
    proof {
        encode_utf8_decode_utf8(a@);
        encode_utf8_decode_utf8(b@);
    }
    if x.len() != y.len() {
        return false;
    }
    let mut i: usize = 0;
    while i < x.len()
        invariant
            x@ == a.spec_bytes(),
            y@ == b.spec_bytes(),
            x@.len() == y@.len(),
            0 <= i <= x@.len(),
            forall|k: int| 0 <= k < i ==> x@[k] == y@[k],
        decreases x@.len() - i,
    {
        if x[i] != y[i] {
            return false;
        }
        i = i + 1;
    }
    assert(x@ =~= y@);
    true
}

/// Unicode `White_Space`, the set `char::is_whitespace` tests.
pub open spec fn is_ws(c: char) -> bool {
    let u = c as u32;
    (0x9 <= u <= 0xd) || u == 0x20 || u == 0x85 || u == 0xa0 || u == 0x1680
        || (0x2000 <= u <= 0x200a) || u == 0x2028 || u == 0x2029 || u == 0x202f
        || u == 0x205f || u == 0x3000
}

pub fn is_space(c: char) -> (r: bool)
    ensures
        r == is_ws(c),
{
    let u = c as u32;
    (0x9 <= u && u <= 0xd) || u == 0x20 || u == 0x85 || u == 0xa0 || u == 0x1680
        || (0x2000 <= u && u <= 0x200a) || u == 0x2028 || u == 0x2029 || u == 0x202f
        || u == 0x205f || u == 0x3000
}

/// ASCII lower-casing of one character (`char::to_ascii_lowercase`).
pub open spec fn lower(c: char) -> char {
    if 'A' <= c <= 'Z' { ((c as u32) + 32) as char } else { c }
}

pub open spec fn lower_seq(s: Seq<char>) -> Seq<char> {
    s.map_values(|c: char| lower(c))
}

pub fn lower_char(c: char) -> (r: char)
    ensures
        r == lower(c),
{
    if 'A' <= c && c <= 'Z' {
        ((c as u8) + 32) as char
    } else {
        c
    }
}

/// `str::to_ascii_lowercase`.
pub fn ascii_lower(s: &str) -> (r: String)
    ensures
        r@ == lower_seq(s@),
{
    let v = chars_of(s);
    let mut out: Vec<char> = Vec::new();
    let mut i: usize = 0;
    while i < v.len()
        invariant
            0 <= i <= v@.len(),
            v@ == s@,
            out@ == lower_seq(s@).take(i as int),
        decreases v@.len() - i,
    {
        out.push(lower_char(v[i]));
        i = i + 1;
        assert(out@ =~= lower_seq(s@).take(i as int));
    }
    assert(out@ =~= lower_seq(s@));
    string_of(out.as_slice())
}

pub open spec fn is_upper(c: char) -> bool {
    'A' <= c <= 'Z'
}

pub open spec fn is_alnum(c: char) -> bool {
    ('A' <= c <= 'Z') || ('a' <= c <= 'z') || ('0' <= c <= '9')
}

pub open spec fn is_digit(c: char) -> bool {
    '0' <= c <= '9'
}

/// `s` without its leading whitespace (`str::trim_start`).
pub open spec fn trim_start(s: Seq<char>) -> Seq<char>
    decreases s.len(),
{
    if s.len() > 0 && is_ws(s[0]) { trim_start(s.drop_first()) } else { s }
}

/// `s` without its trailing whitespace (`str::trim_end`).
pub open spec fn trim_end(s: Seq<char>) -> Seq<char>
    decreases s.len(),
{
    if s.len() > 0 && is_ws(s.last()) { trim_end(s.drop_last()) } else { s }
}

/// `str::trim`.
pub open spec fn trim(s: Seq<char>) -> Seq<char> {
    trim_end(trim_start(s))
}

pub open spec fn starts_with(s: Seq<char>, p: Seq<char>) -> bool {
    p.len() <= s.len() && s.subrange(0, p.len() as int) == p
}

pub open spec fn ends_with(s: Seq<char>, p: Seq<char>) -> bool {
    p.len() <= s.len() && s.subrange(s.len() - p.len(), s.len() as int) == p
}

/// `p` occurs in `s` starting at `k`.
pub open spec fn occurs_at(s: Seq<char>, p: Seq<char>, k: int) -> bool {
    0 <= k && k + p.len() <= s.len() && s.subrange(k, k + p.len()) == p
}

pub open spec fn contains(s: Seq<char>, p: Seq<char>) -> bool {
    exists|k: int| occurs_at(s, p, k)
}

pub open spec fn is_first_occ(s: Seq<char>, p: Seq<char>, from: int, k: int) -> bool {
    &&& from <= k
    &&& occurs_at(s, p, k)
    &&& forall|j: int| from <= j < k ==> !occurs_at(s, p, j)
}

/// Where `p` first occurs in `s` at or after `from` (`str::find`).
pub open spec fn find_from(s: Seq<char>, p: Seq<char>, from: int) -> Option<int> {
    if exists|k: int| is_first_occ(s, p, from, k) {
        Some(choose|k: int| is_first_occ(s, p, from, k))
    } else {
        None
    }
}

pub open spec fn find(s: Seq<char>, p: Seq<char>) -> Option<int> {
    find_from(s, p, 0)
}

pub open spec fn is_last_occ(s: Seq<char>, p: Seq<char>, k: int) -> bool {
    &&& occurs_at(s, p, k)
    &&& forall|j: int| k < j ==> !occurs_at(s, p, j)
}

/// Where `p` last occurs in `s` (`str::rfind`).
pub open spec fn rfind(s: Seq<char>, p: Seq<char>) -> Option<int> {
    if exists|k: int| is_last_occ(s, p, k) {
        Some(choose|k: int| is_last_occ(s, p, k))
    } else {
        None
    }
}

/// The text after the last `sep` (`s.rsplit(sep).next()`).
pub open spec fn after_last(s: Seq<char>, sep: Seq<char>) -> Seq<char> {
    match rfind(s, sep) {
        Some(k) => s.subrange(k + sep.len(), s.len() as int),
        None => s,
    }
}

/// The text before the first `sep` (`s.split(sep).next()`).
pub open spec fn before_first(s: Seq<char>, sep: Seq<char>) -> Seq<char> {
    match find(s, sep) {
        Some(k) => s.subrange(0, k),
        None => s,
    }
}

/// The prefix of `s` before the first character satisfying `stop`.
pub open spec fn is_first_where(s: Seq<char>, stop: spec_fn(char) -> bool, k: int) -> bool {
    &&& 0 <= k < s.len()
    &&& stop(s[k])
    &&& forall|j: int| 0 <= j < k ==> !stop(#[trigger] s[j])
}

pub proof fn lemma_first_occ_unique(s: Seq<char>, p: Seq<char>, from: int, a: int, b: int)
    requires
        is_first_occ(s, p, from, a),
        is_first_occ(s, p, from, b),
    ensures
        a == b,
{
}

pub proof fn lemma_last_occ_unique(s: Seq<char>, p: Seq<char>, a: int, b: int)
    requires
        is_last_occ(s, p, a),
        is_last_occ(s, p, b),
    ensures
        a == b,
{
}

/// Whether `p` occurs in `s` at `k`.
pub fn occurs_at_exec(s: &[char], p: &[char], k: usize) -> (r: bool)
    ensures
        r == occurs_at(s@, p@, k as int),
{
    let n = s.len();
    if k > n || p.len() > n - k {
        return false;
    }
    let mut j: usize = 0;
    while j < p.len()
        invariant
            n == s@.len(),
            k + p@.len() <= s@.len(),
            0 <= j <= p@.len(),
            forall|t: int| 0 <= t < j ==> s@[k + t] == p@[t],
        decreases p@.len() - j,
    {
        assert(k + j < s@.len());
        if s[k + j] != p[j] {
            assert(s@.subrange(k as int, k + p@.len())[j as int] != p@[j as int]);
            return false;
        }
        j = j + 1;
    }
    assert(s@.subrange(k as int, k + p@.len()) =~= p@);
    true
}

pub fn starts_with_exec(s: &[char], p: &[char]) -> (r: bool)
    ensures
        r == starts_with(s@, p@),
{
    occurs_at_exec(s, p, 0)
}

pub fn ends_with_exec(s: &[char], p: &[char]) -> (r: bool)
    ensures
        r == ends_with(s@, p@),
{
    if p.len() > s.len() {
        false
    } else {
        occurs_at_exec(s, p, s.len() - p.len())
    }
}

/// The first occurrence of `p` in `s` at or after `from`.
pub fn find_from_exec(s: &[char], p: &[char], from: usize) -> (r: Option<usize>)
    ensures
        r matches Some(k) ==> find_from(s@, p@, from as int) == Some(k as int),
        r matches Some(k) ==> is_first_occ(s@, p@, from as int, k as int),
        r is None ==> find_from(s@, p@, from as int) is None,
        r is None ==> forall|k: int| from <= k ==> !occurs_at(s@, p@, k),
{
    if p.len() > s.len() || from > s.len() - p.len() {
        assert forall|x: int| !is_first_occ(s@, p@, from as int, x) by {}
        return None;
    }
    let last = s.len() - p.len();
    let mut k = from;
    loop
        invariant
            from <= k <= last,
            last + p@.len() == s@.len(),
            forall|j: int| from <= j < k ==> !occurs_at(s@, p@, j),
        ensures
            k == last,
            forall|j: int| from <= j <= k ==> !occurs_at(s@, p@, j),
        decreases last - k,
    {
        if occurs_at_exec(s, p, k) {
            assert(is_first_occ(s@, p@, from as int, k as int));
            proof {
                let c = choose|x: int| is_first_occ(s@, p@, from as int, x);
                lemma_first_occ_unique(s@, p@, from as int, c, k as int);
            }
            return Some(k);
        }
        if k == last {
            break;
        }
        k = k + 1;
    }
    assert forall|x: int| from <= x implies !occurs_at(s@, p@, x) by {
        if x > last {
        }
    }
    assert forall|x: int| !is_first_occ(s@, p@, from as int, x) by {
        if is_first_occ(s@, p@, from as int, x) {
            assert(occurs_at(s@, p@, x));
        }
    }
    None
}

/// If `p` occurs at or after `from`, there is a first such place.
pub proof fn lemma_first_occ_exists(s: Seq<char>, p: Seq<char>, from: int, k: int)
    requires
        from <= k,
        occurs_at(s, p, k),
    ensures
        find_from(s, p, from) is Some,
        find_from(s, p, from)->0 <= k,
    decreases k - from,
{
    if exists|j: int| from <= j < k && occurs_at(s, p, j) {
        let j = choose|j: int| from <= j < k && occurs_at(s, p, j);
        lemma_first_occ_exists(s, p, from, j);
    } else {
        assert(is_first_occ(s, p, from, k));
        let c = choose|x: int| is_first_occ(s, p, from, x);
        lemma_first_occ_unique(s, p, from, c, k);
    }
}

pub fn find_exec(s: &[char], p: &[char]) -> (r: Option<usize>)
    ensures
        r matches Some(k) ==> find(s@, p@) == Some(k as int),
        r matches Some(k) ==> is_first_occ(s@, p@, 0, k as int),
        r is None ==> find(s@, p@) is None,
        r is None ==> forall|k: int| 0 <= k ==> !occurs_at(s@, p@, k),
{
    find_from_exec(s, p, 0)
}

/// The last occurrence of `p` in `s`.
pub fn rfind_exec(s: &[char], p: &[char]) -> (r: Option<usize>)
    ensures
        r matches Some(k) ==> rfind(s@, p@) == Some(k as int),
        r matches Some(k) ==> is_last_occ(s@, p@, k as int),
        r is None ==> rfind(s@, p@) is None,
        r is None ==> forall|k: int| !occurs_at(s@, p@, k),
{
    if p.len() > s.len() {
        assert forall|x: int| !is_last_occ(s@, p@, x) by {}
        return None;
    }
    let mut k = s.len() - p.len();
    loop
        invariant
            k + p@.len() <= s@.len(),
            forall|j: int| k < j ==> !occurs_at(s@, p@, j),
        ensures
            forall|j: int| 0 <= j ==> !occurs_at(s@, p@, j),
        decreases k,
    {
        if occurs_at_exec(s, p, k) {
            assert(is_last_occ(s@, p@, k as int));
            proof {
                let c = choose|x: int| is_last_occ(s@, p@, x);
                lemma_last_occ_unique(s@, p@, c, k as int);
            }
            return Some(k);
        }
        if k == 0 {
            break;
        }
        k = k - 1;
    }
    assert forall|x: int| !occurs_at(s@, p@, x) by {
        if x >= 0 && x < 0 {
        }
    }
    assert forall|x: int| !is_last_occ(s@, p@, x) by {
        if is_last_occ(s@, p@, x) {
            assert(occurs_at(s@, p@, x));
        }
    }
    None
}

pub fn contains_exec(s: &[char], p: &[char]) -> (r: bool)
    ensures
        r == contains(s@, p@),
{
    match find_exec(s, p) {
        Some(k) => {
            assert(occurs_at(s@, p@, k as int));
            true
        },
        None => {
            proof {
                if contains(s@, p@) {
                    let k = choose|k: int| occurs_at(s@, p@, k);
                    lemma_first_occ_exists(s@, p@, 0, k);
                }
            }
            false
        },
    }
}

/// The characters of `s` from `a` to `b`.
pub fn slice_chars(s: &[char], a: usize, b: usize) -> (r: Vec<char>)
    requires
        a <= b <= s@.len(),
    ensures
        r@ == s@.subrange(a as int, b as int),
{
    vstd::slice::slice_to_vec(vstd::slice::slice_subrange(s, a, b))
}

/// Bounds of `s` with surrounding whitespace removed.
pub fn trim_bounds(s: &[char]) -> (r: (usize, usize))
    ensures
        r.0 <= r.1 <= s@.len(),
        s@.subrange(r.0 as int, r.1 as int) == trim(s@),
{
    let mut a: usize = 0;
    assert(s@.subrange(0, s@.len() as int) =~= s@);
    while a < s.len() && is_space(s[a])
        invariant
            0 <= a <= s@.len(),
            trim_start(s@) == trim_start(s@.subrange(a as int, s@.len() as int)),
        decreases s@.len() - a,
    {
        assert(s@.subrange(a as int, s@.len() as int).drop_first() =~= s@.subrange(a + 1, s@.len() as int));
        a = a + 1;
    }
    assert(trim_start(s@) == s@.subrange(a as int, s@.len() as int));
    let mut b: usize = s.len();
    while b > a && is_space(s[b - 1])
        invariant
            a <= b <= s@.len(),
            trim_end(s@.subrange(a as int, s@.len() as int)) == trim_end(s@.subrange(a as int, b as int)),
        decreases b,
    {
        assert(s@.subrange(a as int, b as int).drop_last() =~= s@.subrange(a as int, b - 1));
        b = b - 1;
    }
    (a, b)
}

/// Where [`trim_start`] of `s` begins.
pub fn trim_start_len(s: &[char]) -> (r: usize)
    ensures
        r <= s@.len(),
        s@.subrange(r as int, s@.len() as int) == trim_start(s@),
{
    let mut a: usize = 0;
    assert(s@.subrange(0, s@.len() as int) =~= s@);
    while a < s.len() && is_space(s[a])
        invariant
            0 <= a <= s@.len(),
            trim_start(s@) == trim_start(s@.subrange(a as int, s@.len() as int)),
        decreases s@.len() - a,
    {
        assert(s@.subrange(a as int, s@.len() as int).drop_first() =~= s@.subrange(a + 1, s@.len() as int));
        a = a + 1;
    }
    a
}

/// Where [`trim_end`] of `s` ends.
pub fn trim_end_len(s: &[char]) -> (r: usize)
    ensures
        r <= s@.len(),
        s@.subrange(0, r as int) == trim_end(s@),
{
    let mut b: usize = s.len();
    assert(s@.subrange(0, s@.len() as int) =~= s@);
    while b > 0 && is_space(s[b - 1])
        invariant
            b <= s@.len(),
            trim_end(s@) == trim_end(s@.subrange(0, b as int)),
        decreases b,
    {
        assert(s@.subrange(0, b as int).drop_last() =~= s@.subrange(0, b - 1));
        b = b - 1;
    }
    b
}

/// `str::trim`, as a new string.
pub fn str_trim(s: &str) -> (r: String)
    ensures
        r@ == trim(s@),
{
    let v = chars_of(s);
    let (a, b) = trim_bounds(v.as_slice());
    let t = slice_chars(v.as_slice(), a, b);
    string_of(t.as_slice())
}

/// `a` followed by `b`.
pub fn concat(a: &str, b: &str) -> (r: String)
    ensures
        r@ == a@ + b@,
{
    let s = a.to_string();
    s.concat(b)
}

/// The first position at or after `p` holding `c` (the length if none).
pub open spec fn next_char(s: Seq<char>, p: int, c: char) -> int
    decreases s.len() - p,
{
    if p >= s.len() {
        s.len() as int
    } else if s[p] == c {
        p
    } else {
        next_char(s, p + 1, c)
    }
}

pub proof fn lemma_next_char_bounds(s: Seq<char>, p: int, c: char)
    requires
        0 <= p,
    ensures
        p <= next_char(s, p, c) || (p > s.len() && next_char(s, p, c) == s.len()),
        next_char(s, p, c) <= s.len() || p > s.len(),
        next_char(s, p, c) < s.len() ==> s[next_char(s, p, c)] == c,
        forall|j: int| p <= j < next_char(s, p, c) ==> s[j] != c,
    decreases s.len() - p,
{
    if p < s.len() && s[p] != c {
        lemma_next_char_bounds(s, p + 1, c);
    }
}

pub fn next_char_exec(s: &[char], p: usize, c: char) -> (r: usize)
    requires
        p <= s@.len(),
    ensures
        r == next_char(s@, p as int, c),
        p <= r <= s@.len(),
{
    let mut k = p;
    while k < s.len() && s[k] != c
        invariant
            p <= k <= s@.len(),
            next_char(s@, k as int, c) == next_char(s@, p as int, c),
        decreases s@.len() - k,
    {
        k = k + 1;
    }
    k
}

/// `next_char` from `p` of `s` is `p` past `next_char` from 0 of `s[p..]`.
pub proof fn lemma_next_char_shift(s: Seq<char>, p: int, c: char)
    requires
        0 <= p <= s.len(),
    ensures
        next_char(s.subrange(p, s.len() as int), 0, c) == next_char(s, p, c) - p,
    decreases s.len() - p,
{
    let t = s.subrange(p, s.len() as int);
    lemma_next_char_from(t, 0, c, s, p);
}

pub proof fn lemma_next_char_from(t: Seq<char>, i: int, c: char, s: Seq<char>, p: int)
    requires
        0 <= p <= s.len(),
        t == s.subrange(p, s.len() as int),
        0 <= i <= t.len(),
    ensures
        next_char(t, i, c) == next_char(s, p + i, c) - p,
    decreases t.len() - i,
{
    if i < t.len() {
        assert(t[i] == s[p + i]);
        if t[i] != c {
            lemma_next_char_from(t, i + 1, c, s, p);
        }
    }
}

/// The decimal digits of `n`.
pub open spec fn decimal(n: nat) -> Seq<char>
    decreases n,
{
    if n < 10 {
        seq![digit_char(n)]
    } else {
        decimal(n / 10) + seq![digit_char(n % 10)]
    }
}

pub open spec fn digit_char(d: nat) -> char {
    if d == 0 { '0' } else if d == 1 { '1' } else if d == 2 { '2' } else if d == 3 { '3' } else if d == 4 { '4' }
    else if d == 5 { '5' } else if d == 6 { '6' } else if d == 7 { '7' } else if d == 8 { '8' } else { '9' }
}

fn digit_exec(d: u64) -> (c: char)
    requires
        d < 10,
    ensures
        c == digit_char(d as nat),
{
    if d == 0 { '0' } else if d == 1 { '1' } else if d == 2 { '2' } else if d == 3 { '3' } else if d == 4 { '4' }
    else if d == 5 { '5' } else if d == 6 { '6' } else if d == 7 { '7' } else if d == 8 { '8' } else { '9' }
}

/// `n` written in decimal (`n.to_string()`).
pub fn decimal_string(n: u64) -> (r: String)
    ensures
        r@ == decimal(n as nat),
{
    let mut digits: Vec<char> = Vec::new();
    let mut m = n;
    // digits are produced last first; `rev` is the text of `m` to come in front
    let ghost mut tail: Seq<char> = seq![];
    loop
        invariant_except_break
            digits@ == tail,
        invariant
            decimal(m as nat) + tail == decimal(n as nat),
        ensures
            digits@ == decimal(n as nat),
        decreases m,
    {
        let d = m % 10;
        let c = digit_exec(d);
        if m < 10 {
            proof {
                assert(decimal(m as nat) =~= seq![c]);
            }
            digits.insert(0, c);
            assert(digits@ =~= seq![c] + tail);
            break;
        }
        proof {
            assert(decimal(m as nat) == decimal((m / 10) as nat) + seq![c]);
            assert(decimal((m / 10) as nat) + (seq![c] + tail) =~= decimal(m as nat) + tail);
        }
        digits.insert(0, c);
        assert(digits@ =~= seq![c] + tail);
        proof {
            tail = seq![c] + tail;
        }
        m = m / 10;
    }
    string_of(digits.as_slice())
}

/// The value of a run of ASCII digits.
pub open spec fn digits_value(s: Seq<char>) -> int
    decreases s.len(),
{
    if s.len() == 0 { 0 } else { digits_value(s.drop_last()) * 10 + (s.last() as int - '0' as int) }
}

pub open spec fn all_digits(s: Seq<char>) -> bool {
    forall|i: int| 0 <= i < s.len() ==> is_digit(#[trigger] s[i])
}

/// `s` without a leading sign.
pub open spec fn unsigned_part(s: Seq<char>) -> Seq<char> {
    if s.len() > 0 && (s[0] == '-' || s[0] == '+') { s.drop_first() } else { s }
}

/// The value of `digits` with the given sign, if it is a number in range.
pub open spec fn signed_value(neg: bool, body: Seq<char>) -> Option<i64> {
    if body.len() == 0 || !all_digits(body) {
        None
    } else {
        let v = if neg { -digits_value(body) } else { digits_value(body) };
        if i64::MIN <= v <= i64::MAX { Some(v as i64) } else { None }
    }
}

/// `str::parse::<i64>`: an optional sign then one or more ASCII digits, in range.
pub open spec fn parse_i64_spec(s: Seq<char>) -> Option<i64> {
    signed_value(s.len() > 0 && s[0] == '-', unsigned_part(s))
}

proof fn lemma_digits_value_nonneg(s: Seq<char>)
    requires
        all_digits(s),
    ensures
        digits_value(s) >= 0,
    decreases s.len(),
{
    if s.len() > 0 {
        lemma_digits_value_nonneg(s.drop_last());
    }
}

pub fn parse_i64(s: &[char]) -> (r: Option<i64>)
    ensures
        r == parse_i64_spec(s@),
{
    let n = s.len();
    let neg = n > 0 && s[0] == '-';
    let start: usize = if n > 0 && (s[0] == '-' || s[0] == '+') { 1 } else { 0 };
    let ghost body = s@.subrange(start as int, n as int);
    assert(body =~= unsigned_part(s@));
    if start >= n {
        return None;
    }
    // |value| may run to 2^63 for i64::MIN
    let limit: i128 = 9223372036854775808;
    let mut v: i128 = 0;
    let mut i = start;
    while i < n
        invariant
            start <= i <= n,
            n == s@.len(),
            body == s@.subrange(start as int, n as int),
            body == unsigned_part(s@),
            neg == (s@.len() > 0 && s@[0] == '-'),
            all_digits(body.subrange(0, i - start)),
            v == digits_value(body.subrange(0, i - start)),
            0 <= v <= limit,
            limit == 9223372036854775808,
        decreases n - i,
    {
        let c = s[i];
        if !('0' <= c && c <= '9') {
            assert(!all_digits(body)) by {
                assert(body[i - start] == c);
                assert(!is_digit(body[i - start]));
            }
            assert(signed_value(neg, body) is None);
            return None;
        }
        let d = (c as u32 - '0' as u32) as i128;
        proof {
            assert(body.subrange(0, i + 1 - start).drop_last() =~= body.subrange(0, i - start));
        }
        let nv = v * 10 + d;
        i = i + 1;
        if nv > limit {
            proof {
                let pre = body.subrange(0, i - start);
                assert(pre.drop_last() =~= body.subrange(0, i - 1 - start));
                assert(pre.last() == c);
                assert(digits_value(pre) == nv);
                lemma_digits_prefix_grows(body, (i - start) as int);
                if all_digits(body) {
                    assert(digits_value(body) > limit);
                }
            }
            assert(signed_value(neg, body) is None);
            return None;
        }
        v = nv;
    }
    assert(body.subrange(0, n - start) =~= body);
    if neg {
        Some((0 - v) as i64)
    } else if v > 9223372036854775807 {
        None
    } else {
        Some(v as i64)
    }
}

/// A longer run of digits is worth at least as much as its prefix.
proof fn lemma_digits_prefix_grows(s: Seq<char>, k: int)
    requires
        0 <= k <= s.len(),
        all_digits(s.subrange(0, k)) ==> true,
    ensures
        all_digits(s) ==> digits_value(s) >= digits_value(s.subrange(0, k)),
    decreases s.len() - k,
{
    if all_digits(s) {
        if k < s.len() {
            lemma_digits_prefix_grows(s.drop_last(), if k <= s.len() - 1 { k } else { s.len() - 1 });
            assert(s.drop_last().subrange(0, if k <= s.len() - 1 { k } else { s.len() - 1 }) =~= s.subrange(0, k));
            assert(all_digits(s.drop_last()));
            lemma_digits_value_nonneg(s.drop_last());
        } else {
            assert(s.subrange(0, k) =~= s);
        }
    }
}

/// `a < b` in lexicographic order of code points (the order of `str`'s `Ord`).
pub open spec fn lex_lt(a: Seq<char>, b: Seq<char>) -> bool
    decreases a.len(),
{
    if b.len() == 0 {
        false
    } else if a.len() == 0 {
        true
    } else if a[0] != b[0] {
        a[0] < b[0]
    } else {
        lex_lt(a.drop_first(), b.drop_first())
    }
}

pub fn lex_lt_exec(a: &str, b: &str) -> (r: bool)
    ensures
        r == lex_lt(a@, b@),
{
    let x = chars_of(a);
    let y = chars_of(b);
    let mut i: usize = 0;
    assert(x@.subrange(0, x@.len() as int) =~= x@);
    assert(y@.subrange(0, y@.len() as int) =~= y@);
    while i < x.len() && i < y.len() && x[i] == y[i]
        invariant
            0 <= i <= x@.len(),
            i <= y@.len(),
            x@ == a@,
            y@ == b@,
            lex_lt(x@.subrange(i as int, x@.len() as int), y@.subrange(i as int, y@.len() as int)) == lex_lt(a@, b@),
        decreases x@.len() - i,
    {
        assert(x@.subrange(i as int, x@.len() as int).drop_first() =~= x@.subrange(i + 1, x@.len() as int));
        assert(y@.subrange(i as int, y@.len() as int).drop_first() =~= y@.subrange(i + 1, y@.len() as int));
        i = i + 1;
    }
    if i >= y.len() {
        false
    } else if i >= x.len() {
        true
    } else {
        x[i] < y[i]
    }
}

/// The line of `s` starting at `p`: up to the next `\n`, without a `\r` right before it.
pub open spec fn line_from(s: Seq<char>, p: int) -> Seq<char> {
    let k = next_char(s, p, '\n');
    if k < s.len() {
        let l = s.subrange(p, k);
        if l.len() > 0 && l.last() == '\r' { l.drop_last() } else { l }
    } else {
        s.subrange(p, s.len() as int)
    }
}

/// The lines of `s` from position `p` on (`str::lines`).
pub open spec fn lines_from(s: Seq<char>, p: int) -> Seq<Seq<char>>
    decreases s.len() - p,
{
    if p < 0 || p >= s.len() {
        seq![]
    } else {
        let k = next_char(s, p, '\n');
        if k < s.len() {
            proof {
                lemma_next_char_bounds(s, p, '\n');
            }
            seq![line_from(s, p)] + lines_from(s, k + 1)
        } else {
            seq![line_from(s, p)]
        }
    }
}

pub open spec fn str_lines(s: Seq<char>) -> Seq<Seq<char>> {
    lines_from(s, 0)
}

/// `str::lines`, each line as characters.
pub fn lines_exec(s: &str) -> (r: Vec<Vec<char>>)
    ensures
        r@.map_values(|l: Vec<char>| l@) == str_lines(s@),
{
    let c = chars_of(s);
    let n = c.len();
    let mut out: Vec<Vec<char>> = Vec::new();
    let mut p: usize = 0;
    let ghost total = str_lines(s@);
    loop
        invariant_except_break
            out@.map_values(|l: Vec<char>| l@) + lines_from(s@, p as int) == total,
        invariant
            c@ == s@,
            n == c@.len(),
            p <= n,
        ensures
            out@.map_values(|l: Vec<char>| l@) == total,
        decreases n - p,
    {
        if p >= n {
            assert(lines_from(s@, p as int) =~= seq![]);
            assert(out@.map_values(|l: Vec<char>| l@) + seq![] =~= out@.map_values(|l: Vec<char>| l@));
            break;
        }
        let k = next_char_exec(c.as_slice(), p, '\n');
        let line = if k < n {
            let l = slice_chars(c.as_slice(), p, k);
            if l.len() > 0 && l[l.len() - 1] == '\r' { slice_chars(l.as_slice(), 0, l.len() - 1) } else { l }
        } else {
            slice_chars(c.as_slice(), p, n)
        };
        proof {
            let l = s@.subrange(p as int, k as int);
            if l.len() > 0 && l.last() == '\r' {
                assert(l.subrange(0, l.len() - 1) =~= l.drop_last());
            }
        }
        let ghost before = out@.map_values(|l: Vec<char>| l@);
        let ghost lv = line@;
        assert(lv == line_from(s@, p as int));
        out.push(line);
        assert(out@.map_values(|l: Vec<char>| l@) =~= before.push(lv));
        if k >= n {
            assert(lines_from(s@, p as int) =~= seq![lv]);
            assert(before.push(lv) =~= before + seq![lv]);
            break;
        }
        assert(before.push(lv) + lines_from(s@, k + 1) =~= before + lines_from(s@, p as int));
        p = k + 1;
    }
    out
}

} // verus!
