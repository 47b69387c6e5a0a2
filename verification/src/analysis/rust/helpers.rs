//! Text helpers of the Rust analyzer.

use vstd::prelude::*;
use crate::text::{after_last, chars_of, concat, ends_with, ends_with_exec, next_char, next_char_exec, rfind_exec, slice_chars, starts_with, starts_with_exec, str_eq, str_trim, string_of, trim, trim_bounds};

verus! {

/// `s` without every leading `c` (`trim_start_matches(c)`).
pub open spec fn strip_all_start(s: Seq<char>, c: char) -> Seq<char>
    decreases s.len(),
{
    if s.len() > 0 && s[0] == c { strip_all_start(s.drop_first(), c) } else { s }
}

/// `s` without `p` in front, when it is there (`strip_prefix(p).unwrap_or(s)`).
pub open spec fn strip_prefix_or(s: Seq<char>, p: Seq<char>) -> Seq<char> {
    if starts_with(s, p) { s.subrange(p.len() as int, s.len() as int) } else { s }
}

/// The leading part of `s` up to the first `<`, space or `(`.
pub open spec fn type_head(s: Seq<char>) -> Seq<char>
    decreases s.len(),
{
    if s.len() == 0 || s[0] == '<' || s[0] == ' ' || s[0] == '(' {
        Seq::empty()
    } else {
        seq![s[0]] + type_head(s.drop_first())
    }
}

/// A leading lifetime (`'a `) dropped, up to the space after it (a bare
/// lifetime leaves nothing).
pub open spec fn strip_lifetime(t: Seq<char>) -> Seq<char> {
    if t.len() > 0 && t[0] == '\'' {
        let k = next_char(t, 0, ' ');
        if k < t.len() { t.subrange(k + 1, t.len() as int) } else { Seq::empty() }
    } else {
        t
    }
}

/// `&'a mut Vec<Foo>` -> `Vec`, `crate::a::Bar` -> `Bar`: references,
/// lifetimes, `mut`, generics and argument lists are dropped, then the last
/// path segment kept.
pub open spec fn spec_simple_type_name(raw: Seq<char>) -> Seq<char> {
    let t = trim(strip_all_start(trim(raw), '&'));
    let t = trim(strip_lifetime(t));
    let t = trim(strip_prefix_or(t, "mut "@));
    after_last(type_head(t), "::"@)
}

pub fn strip_all_start_exec(s: &[char], c: char) -> (r: usize)
    ensures
        r <= s@.len(),
        s@.subrange(r as int, s@.len() as int) == strip_all_start(s@, c),
{
    let mut a: usize = 0;
    assert(s@.subrange(0, s@.len() as int) =~= s@);
    while a < s.len() && s[a] == c
        invariant
            0 <= a <= s@.len(),
            strip_all_start(s@, c) == strip_all_start(s@.subrange(a as int, s@.len() as int), c),
        decreases s@.len() - a,
    {
        assert(s@.subrange(a as int, s@.len() as int).drop_first() =~= s@.subrange(a + 1, s@.len() as int));
        a = a + 1;
    }
    a
}

/// Length of [`type_head`] of `s`.
pub fn type_head_len(s: &[char]) -> (r: usize)
    ensures
        r <= s@.len(),
        s@.subrange(0, r as int) == type_head(s@),
{
    let mut k: usize = 0;
    assert(s@.subrange(0, s@.len() as int) =~= s@);
    assert(s@.subrange(0, 0) + s@ =~= s@);
    while k < s.len() && s[k] != '<' && s[k] != ' ' && s[k] != '('
        invariant
            0 <= k <= s@.len(),
            type_head(s@) == s@.subrange(0, k as int) + type_head(s@.subrange(k as int, s@.len() as int)),
        decreases s@.len() - k,
    {
        let ghost rest = s@.subrange(k as int, s@.len() as int);
        assert(rest.drop_first() =~= s@.subrange(k + 1, s@.len() as int));
        assert(s@.subrange(0, k + 1) =~= s@.subrange(0, k as int) + seq![s@[k as int]]);
        k = k + 1;
    }
    assert(type_head(s@.subrange(k as int, s@.len() as int)) =~= Seq::<char>::empty());
    assert(s@.subrange(0, k as int) + Seq::<char>::empty() =~= s@.subrange(0, k as int));
    k
}

/// The text after the last `sep` in `s`.
pub fn after_last_exec(s: &[char], sep: &[char]) -> (r: Vec<char>)
    ensures
        r@ == after_last(s@, sep@),
{
    let n = s.len();
    match rfind_exec(s, sep) {
        Some(k) => slice_chars(s, k + sep.len(), n),
        None => slice_chars(s, 0, s.len()),
    }
}

/// Strip references, `mut`, generics and the path down to a type's simple name.
pub fn simple_type_name(raw: &str) -> (r: String)
    ensures
        r@ == spec_simple_type_name(raw@),
{
    let t0 = chars_of(str_trim(raw).as_str());
    let a = strip_all_start_exec(t0.as_slice(), '&');
    let t1 = slice_chars(t0.as_slice(), a, t0.len());
    let (b, e) = trim_bounds(t1.as_slice());
    let t2a = slice_chars(t1.as_slice(), b, e);
    let t2b = if t2a.len() > 0 && t2a[0] == '\'' {
        let k = next_char_exec(t2a.as_slice(), 0, ' ');
        if k < t2a.len() { slice_chars(t2a.as_slice(), k + 1, t2a.len()) } else { Vec::new() }
    } else {
        t2a
    };
    proof {
        assert(t2b@ == strip_lifetime(t2a@));
    }
    let (bl, el) = trim_bounds(t2b.as_slice());
    let t2 = slice_chars(t2b.as_slice(), bl, el);
    let mutp = chars_of("mut ");
    let t3 = if starts_with_exec(t2.as_slice(), mutp.as_slice()) {
        slice_chars(t2.as_slice(), mutp.len(), t2.len())
    } else {
        t2
    };
    let (b2, e2) = trim_bounds(t3.as_slice());
    let t4 = slice_chars(t3.as_slice(), b2, e2);
    let h = type_head_len(t4.as_slice());
    let head = slice_chars(t4.as_slice(), 0, h);
    let sep = chars_of("::");
    let r = after_last_exec(head.as_slice(), sep.as_slice());
    string_of(r.as_slice())
}

/// The contents of a Rust string literal: `r#"x"#`, `r##"x"##` and `"x"` lose
/// their delimiters; anything else is only trimmed.
pub open spec fn spec_clean_rust_string_literal(raw: Seq<char>) -> Seq<char> {
    let s = trim(raw);
    if starts_with(s, "r#\""@) && ends_with(s, "\"#"@) && s.len() >= 5 {
        s.subrange(3, s.len() - 2)
    } else if starts_with(s, "r##\""@) && ends_with(s, "\"##"@) && s.len() >= 7 {
        s.subrange(4, s.len() - 3)
    } else if starts_with(s, "\""@) && ends_with(s, "\""@) && s.len() >= 2 {
        s.subrange(1, s.len() - 1)
    } else {
        s
    }
}

pub fn clean_rust_string_literal(raw: &str) -> (r: String)
    ensures
        r@ == spec_clean_rust_string_literal(raw@),
{
    let s = chars_of(str_trim(raw).as_str());
    let p1 = chars_of("r#\"");
    let s1 = chars_of("\"#");
    let p2 = chars_of("r##\"");
    let s2 = chars_of("\"##");
    let q = chars_of("\"");
    let n = s.len();
    if starts_with_exec(s.as_slice(), p1.as_slice()) && ends_with_exec(s.as_slice(), s1.as_slice()) && n >= 5 {
        string_of(slice_chars(s.as_slice(), 3, n - 2).as_slice())
    } else if starts_with_exec(s.as_slice(), p2.as_slice()) && ends_with_exec(s.as_slice(), s2.as_slice()) && n >= 7 {
        string_of(slice_chars(s.as_slice(), 4, n - 3).as_slice())
    } else if starts_with_exec(s.as_slice(), q.as_slice()) && ends_with_exec(s.as_slice(), q.as_slice()) && n >= 2 {
        string_of(slice_chars(s.as_slice(), 1, n - 1).as_slice())
    } else {
        string_of(s.as_slice())
    }
}

/// How a call's receiver reads: `none` for a bare call, `path` for
/// `foo::bar()`, `self` for `self.m()` / `Self::m()`, `value` otherwise.
pub open spec fn spec_classify_rust_receiver(func_kind: Seq<char>, receiver: Option<Seq<char>>) -> Seq<char> {
    match receiver {
        None => "none"@,
        Some(r) => if func_kind == "scoped_identifier"@ {
            "path"@
        } else if r == "self"@ || r == "Self"@ {
            "self"@
        } else {
            "value"@
        },
    }
}

pub fn classify_rust_receiver(func_kind: &str, receiver: Option<&str>) -> (r: &'static str)
    ensures
        r@ == spec_classify_rust_receiver(func_kind@, match receiver { Some(x) => Some(x@), None => None }),
{
    match receiver {
        None => "none",
        Some(rcv) => {
            if str_eq(func_kind, "scoped_identifier") {
                "path"
            } else if str_eq(rcv, "self") || str_eq(rcv, "Self") {
                "self"
            } else {
                "value"
            }
        },
    }
}

/// `prefix::seg`, or whichever of the two is not empty.
pub open spec fn spec_join(prefix: Seq<char>, seg: Seq<char>) -> Seq<char> {
    if prefix.len() == 0 {
        seg
    } else if seg.len() == 0 {
        prefix
    } else {
        prefix + "::"@ + seg
    }
}

pub fn join(prefix: &str, seg: &str) -> (r: String)
    ensures
        r@ == spec_join(prefix@, seg@),
{
    if prefix.is_empty() {
        seg.to_string()
    } else if seg.is_empty() {
        prefix.to_string()
    } else {
        let a = concat(prefix, "::");
        a.concat(seg)
    }
}

/// How a Rust call's receiver is classified: a bare call has none, a call
/// through a path (`A::f()`) is a path call, and any other call whose
/// receiver is `self` or `Self` is a call on self; every other receiver is
/// a value.
pub proof fn law_rust_receiver_kind(func_kind: Seq<char>, receiver: Option<Seq<char>>)
    ensures
        receiver is None ==> spec_classify_rust_receiver(func_kind, receiver) == "none"@,
        receiver is Some && func_kind == "scoped_identifier"@ ==> spec_classify_rust_receiver(func_kind, receiver) == "path"@,
        (receiver matches Some(r) && func_kind != "scoped_identifier"@ && (r == "self"@ || r == "Self"@))
            ==> spec_classify_rust_receiver(func_kind, receiver) == "self"@,
        (receiver matches Some(r) && func_kind != "scoped_identifier"@ && r != "self"@ && r != "Self"@)
            ==> spec_classify_rust_receiver(func_kind, receiver) == "value"@,
{
}

} // verus!
