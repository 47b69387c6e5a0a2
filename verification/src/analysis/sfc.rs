//! Single File Components: Vue (`.vue`) and Svelte (`.svelte`).
//!
//! The `<script>` blocks are cut out into a virtual source of the same length
//! and line layout (everything else blanked), parsed as TypeScript/JSX, and
//! the template is scanned for the custom components it uses.

use vstd::prelude::*;
use crate::analysis::javascript;
use crate::analysis::lang::Language;

use crate::analysis::ParsedFile;
use crate::cache::models::{NewRef, NewSymbol};
use crate::syntax::{newlines, sat_i64, to_i64, utf8_str};
use crate::text::str_eq;
use crate::analysis::rust::Walker;
use vstd::utf8::*;
use vstd::string::StringSliceAdditionalSpecFns;

verus! {

/// Where one script block's content lies, and whether it asks for TypeScript.
#[derive(Debug, Clone, Copy)]
pub struct ScriptBlock {
    pub start_content_byte: usize,
    pub end_content_byte: usize,
    pub is_ts: bool,
}

pub open spec fn lower_byte(b: u8) -> u8 {
    if 65 <= b <= 90 { (b + 32) as u8 } else { b }
}

fn lower_byte_exec(b: u8) -> (r: u8)
    ensures
        r == lower_byte(b),
{
    if 65 <= b && b <= 90 { b + 32 } else { b }
}

/// `s[at..]` starts with `p`.
pub open spec fn bytes_at(s: Seq<u8>, at: int, p: Seq<u8>) -> bool {
    0 <= at && at + p.len() <= s.len() && s.subrange(at, at + p.len()) == p
}

/// `s[at..]` starts with `p`, ASCII case aside.
pub open spec fn bytes_at_nocase(s: Seq<u8>, at: int, p: Seq<u8>) -> bool {
    &&& 0 <= at && at + p.len() <= s.len()
    &&& forall|k: int| 0 <= k < p.len() ==> lower_byte(#[trigger] s[at + k]) == lower_byte(p[k])
}

/// The first position at or after `from` where `p` occurs.
pub open spec fn find_bytes(s: Seq<u8>, from: int, p: Seq<u8>) -> Option<int>
    decreases s.len() + 1 - from,
{
    if from < 0 || from + p.len() > s.len() {
        None
    } else if bytes_at(s, from, p) {
        Some(from)
    } else {
        find_bytes(s, from + 1, p)
    }
}

fn bytes_at_exec(s: &[u8], at: usize, p: &[u8]) -> (r: bool)
    ensures
        r == bytes_at(s@, at as int, p@),
{
    let n = s.len();
    if at > n || p.len() > n - at {
        return false;
    }
    let mut k: usize = 0;
    while k < p.len()
        invariant
            n == s@.len(),
            at + p@.len() <= s@.len(),
            0 <= k <= p@.len(),
            forall|j: int| 0 <= j < k ==> s@[at + j] == p@[j],
        decreases p@.len() - k,
    {
        if s[at + k] != p[k] {
            assert(s@.subrange(at as int, at + p@.len())[k as int] != p@[k as int]);
            return false;
        }
        k = k + 1;
    }
    assert(s@.subrange(at as int, at + p@.len()) =~= p@);
    true
}

fn bytes_at_nocase_exec(s: &[u8], at: usize, p: &[u8]) -> (r: bool)
    ensures
        r == bytes_at_nocase(s@, at as int, p@),
{
    let n = s.len();
    if at > n || p.len() > n - at {
        return false;
    }
    let mut k: usize = 0;
    while k < p.len()
        invariant
            n == s@.len(),
            at + p@.len() <= s@.len(),
            0 <= k <= p@.len(),
            forall|j: int| 0 <= j < k ==> lower_byte(#[trigger] s@[at + j]) == lower_byte(p@[j]),
        decreases p@.len() - k,
    {
        if lower_byte_exec(s[at + k]) != lower_byte_exec(p[k]) {
            return false;
        }
        k = k + 1;
    }
    true
}

proof fn lemma_find_bytes_bounds(s: Seq<u8>, from: int, p: Seq<u8>)
    ensures
        find_bytes(s, from, p) matches Some(k) ==> from <= k && k + p.len() <= s.len() && bytes_at(s, k, p),
    decreases s.len() + 1 - from,
{
    if from < 0 || from + p.len() > s.len() {
    } else if bytes_at(s, from, p) {
    } else {
        lemma_find_bytes_bounds(s, from + 1, p);
    }
}

fn find_bytes_exec(s: &[u8], from: usize, p: &[u8]) -> (r: Option<usize>)
    ensures
        r matches Some(k) ==> find_bytes(s@, from as int, p@) == Some(k as int),
        r is None ==> find_bytes(s@, from as int, p@) is None,
        r matches Some(k) ==> from <= k && k + p@.len() <= s@.len(),
{
    proof { lemma_find_bytes_bounds(s@, from as int, p@); }
    let n = s.len();
    let mut k = from;
    while k <= n && p.len() <= n - k
        invariant
            n == s@.len(),
            from <= k,
            find_bytes(s@, k as int, p@) == find_bytes(s@, from as int, p@),
        decreases s@.len() + 1 - k,
    {
        if bytes_at_exec(s, k, p) {
            return Some(k);
        }
        if k >= n {
            assert(p@.len() > 0) by {
                if p@.len() == 0 {
                    assert(s@.subrange(k as int, k as int) =~= p@);
                }
            }
            assert(find_bytes(s@, k + 1, p@) is None);
            return None;
        }
        k = k + 1;
    }
    None
}

/// Where the next `<tag` (ASCII case aside) starts at or after `start`,
/// skipping HTML comments; `None` when there is none, or an unclosed comment.
pub open spec fn find_tag(s: Seq<u8>, start: int, tag: Seq<u8>) -> Option<int>
    decreases s.len() - start,
{
    if start < 0 || start >= s.len() {
        None
    } else if bytes_at(s, start, "<!--"@.map_values(|c: char| c as u8)) {
        match find_bytes(s, start + 4, "-->"@.map_values(|c: char| c as u8)) {
            Some(e) => if start < e + 3 <= s.len() { find_tag(s, e + 3, tag) } else { None },
            None => None,
        }
    } else if s[start] == 60u8 && bytes_at_nocase(s, start + 1, tag) {
        Some(start)
    } else {
        find_tag(s, start + 1, tag)
    }
}

fn comment_open() -> (r: Vec<u8>)
    ensures
        r@ == "<!--"@.map_values(|c: char| c as u8),
        r@.len() == 4,
{
    let v: Vec<u8> = vec![60u8, 33u8, 45u8, 45u8];
    proof {
        reveal_strlit("<!--");
        assert(v@ =~= "<!--"@.map_values(|c: char| c as u8));
    }
    v
}

fn comment_close() -> (r: Vec<u8>)
    ensures
        r@ == "-->"@.map_values(|c: char| c as u8),
        r@.len() == 3,
{
    let v: Vec<u8> = vec![45u8, 45u8, 62u8];
    proof {
        reveal_strlit("-->");
        assert(v@ =~= "-->"@.map_values(|c: char| c as u8));
    }
    v
}

pub fn find_tag_case_insensitive(s: &[u8], start: usize, tag: &[u8]) -> (r: Option<usize>)
    ensures
        r matches Some(k) ==> find_tag(s@, start as int, tag@) == Some(k as int),
        r is None ==> find_tag(s@, start as int, tag@) is None,
{
    let open = comment_open();
    let close = comment_close();
    let n = s.len();
    let mut i = start;
    while i < n
        invariant
            n == s@.len(),
            start <= i,
            open@.len() == 4,
            open@ == "<!--"@.map_values(|c: char| c as u8),
            close@ == "-->"@.map_values(|c: char| c as u8),
            close@.len() == 3,
            find_tag(s@, i as int, tag@) == find_tag(s@, start as int, tag@),
        decreases s@.len() - i,
    {
        if bytes_at_exec(s, i, open.as_slice()) {
            assert(i + 4 <= n);
            match find_bytes_exec(s, i + 4, close.as_slice()) {
                Some(e) => {
                    i = e + 3;
                    continue;
                },
                None => {
                    return None;
                },
            }
        }
        if s[i] == 60u8 && bytes_at_nocase_exec(s, i + 1, tag) {
            return Some(i);
        }
        i = i + 1;
    }
    None
}

/// The `>` that closes an opening tag from `start` on, outside quotes.
pub open spec fn closing_gt(s: Seq<u8>, i: int, sq: bool, dq: bool) -> Option<int>
    decreases s.len() - i,
{
    if i < 0 || i >= s.len() {
        None
    } else {
        let b = s[i];
        if b == 34u8 && !sq {
            closing_gt(s, i + 1, sq, !dq)
        } else if b == 39u8 && !dq {
            closing_gt(s, i + 1, !sq, dq)
        } else if b == 62u8 && !sq && !dq {
            Some(i)
        } else {
            closing_gt(s, i + 1, sq, dq)
        }
    }
}

pub fn find_closing_gt(s: &[u8], start: usize) -> (r: Option<usize>)
    ensures
        r matches Some(k) ==> closing_gt(s@, start as int, false, false) == Some(k as int),
        r is None ==> closing_gt(s@, start as int, false, false) is None,
{
    let mut sq = false;
    let mut dq = false;
    let mut i = start;
    while i < s.len()
        invariant
            start <= i,
            closing_gt(s@, i as int, sq, dq) == closing_gt(s@, start as int, false, false),
        decreases s@.len() - i,
    {
        let b = s[i];
        if b == 34u8 && !sq {
            dq = !dq;
        } else if b == 39u8 && !dq {
            sq = !sq;
        } else if b == 62u8 && !sq && !dq {
            return Some(i);
        }
        i = i + 1;
    }
    None
}

fn ascii_bytes(s: &str) -> (r: Vec<u8>)
    ensures
        r@ == s.spec_bytes(),
{
    vstd::slice::slice_to_vec(s.as_bytes())
}

fn has_bytes(s: &[u8], p: &[u8]) -> (r: bool)
    ensures
        r == (find_bytes(s@, 0, p@) is Some),
{
    find_bytes_exec(s, 0, p).is_some()
}

/// A byte that may follow a tag name: whitespace, `>` or `/`.
pub open spec fn ends_tag_name(b: u8) -> bool {
    b == 32u8 || b == 9u8 || b == 10u8 || b == 12u8 || b == 13u8 || b == 62u8 || b == 47u8
}

/// An opening tag's text declares TypeScript (`lang="ts"` and its variants).
pub open spec fn declares_ts(header: Seq<u8>) -> bool {
    ||| find_bytes(header, 0, "lang=\"ts\"".spec_bytes()) is Some
    ||| find_bytes(header, 0, "lang='ts'".spec_bytes()) is Some
    ||| find_bytes(header, 0, "lang=\"typescript\"".spec_bytes()) is Some
    ||| find_bytes(header, 0, "lang='typescript'".spec_bytes()) is Some
}

/// The script blocks from byte `cursor` on: each `<script ...>` opening tag
/// (its name ended by whitespace, `>` or `/`), its content up to the next
/// `</script`, or to the end of the file when there is none.
pub open spec fn script_blocks_from(s: Seq<u8>, cursor: int) -> Seq<ScriptBlock>
    decreases s.len() - cursor,
{
    if cursor < 0 || cursor >= s.len() {
        Seq::empty()
    } else {
        match find_tag(s, cursor, "script".spec_bytes()) {
            None => Seq::empty(),
            Some(tag) => if tag < cursor || tag >= s.len() {
                Seq::empty()
            } else if s.len() - tag > 7 && !ends_tag_name(s[tag + 7]) {
                script_blocks_from(s, tag + 7)
            } else {
                match closing_gt(s, tag, false, false) {
                    None => Seq::empty(),
                    Some(oe) => if oe < tag || oe >= s.len() {
                        Seq::empty()
                    } else {
                        let is_ts = declares_ts(s.subrange(tag, oe));
                        let cs = oe + 1;
                        match find_tag(s, cs, "/script".spec_bytes()) {
                            None => seq![ScriptBlock { start_content_byte: cs as usize, end_content_byte: s.len() as usize, is_ts }],
                            Some(close) => if close < cs || close >= s.len() {
                                Seq::empty()
                            } else {
                                let b = ScriptBlock { start_content_byte: cs as usize, end_content_byte: close as usize, is_ts };
                                if s.len() - close <= 9 {
                                    seq![b]
                                } else {
                                    seq![b] + script_blocks_from(s, close + 9)
                                }
                            },
                        }
                    },
                }
            },
        }
    }
}

/// Every `<script ...>` block's content range, in order; an unclosed block
/// runs to the end of the file.
pub fn find_script_blocks(source: &[u8]) -> (blocks: Vec<ScriptBlock>)
    ensures
        blocks@ == script_blocks_from(source@, 0),
        forall|k: int| 0 <= k < blocks@.len() ==> {
            let b = #[trigger] blocks@[k];
            b.start_content_byte <= b.end_content_byte <= source@.len()
        },
        forall|a: int, b: int| 0 <= a < b < blocks@.len() ==> (#[trigger] blocks@[a]).end_content_byte < (#[trigger] blocks@[b]).start_content_byte,
{
    let mut blocks: Vec<ScriptBlock> = Vec::new();
    let len = source.len();
    let script = ascii_bytes("script");
    let end_script = ascii_bytes("/script");
    let ts1 = ascii_bytes("lang=\"ts\"");
    let ts2 = ascii_bytes("lang='ts'");
    let ts3 = ascii_bytes("lang=\"typescript\"");
    let ts4 = ascii_bytes("lang='typescript'");
    let mut cursor: usize = 0;
    assert(blocks@ + script_blocks_from(source@, 0) =~= script_blocks_from(source@, 0));
    while cursor < len
        invariant_except_break
            forall|k: int| 0 <= k < blocks@.len() ==> (#[trigger] blocks@[k]).end_content_byte < cursor,
            blocks@ + script_blocks_from(source@, cursor as int) == script_blocks_from(source@, 0),
        invariant
            len == source@.len(),
            script@ == "script".spec_bytes(),
            end_script@ == "/script".spec_bytes(),
            ts1@ == "lang=\"ts\"".spec_bytes(),
            ts2@ == "lang='ts'".spec_bytes(),
            ts3@ == "lang=\"typescript\"".spec_bytes(),
            ts4@ == "lang='typescript'".spec_bytes(),
            forall|k: int| 0 <= k < blocks@.len() ==> {
                let b = #[trigger] blocks@[k];
                b.start_content_byte <= b.end_content_byte <= source@.len()
            },
            forall|a: int, b: int| 0 <= a < b < blocks@.len() ==> (#[trigger] blocks@[a]).end_content_byte < (#[trigger] blocks@[b]).start_content_byte,
        ensures
            blocks@ == script_blocks_from(source@, 0),
        decreases len - cursor,
    {
        let tag_pos = match find_tag_case_insensitive(source, cursor, script.as_slice()) {
            Some(p) => p,
            None => { break; },
        };
        if tag_pos < cursor || tag_pos >= len {
            break;
        }
        // the name must end here: whitespace, `>` or `/` follows it
        if len - tag_pos > 7 {
            let next = source[tag_pos + 7];
            if !(next == 32u8 || next == 9u8 || next == 10u8 || next == 12u8 || next == 13u8) && next != 62u8 && next != 47u8 {
                cursor = tag_pos + 7;
                continue;
            }
        }
        let open_end = match find_closing_gt(source, tag_pos) {
            Some(e) => e,
            None => { break; },
        };
        if open_end < tag_pos || open_end >= len {
            break;
        }
        let header = vstd::slice::slice_subrange(source, tag_pos, open_end);
        let is_ts = has_bytes(header, ts1.as_slice()) || has_bytes(header, ts2.as_slice())
            || has_bytes(header, ts3.as_slice()) || has_bytes(header, ts4.as_slice());
        let content_start = open_end + 1;
        assert(header@ == source@.subrange(tag_pos as int, open_end as int));
        assert(is_ts == declares_ts(source@.subrange(tag_pos as int, open_end as int)));
        match find_tag_case_insensitive(source, content_start, end_script.as_slice()) {
            None => {
                let ghost before = blocks@;
                blocks.push(ScriptBlock { start_content_byte: content_start, end_content_byte: len, is_ts });
                assert(blocks@ =~= before + script_blocks_from(source@, cursor as int));
                break;
            },
            Some(close) => {
                if close < content_start || close >= len {
                    break;
                }
                let ghost before = blocks@;
                blocks.push(ScriptBlock { start_content_byte: content_start, end_content_byte: close, is_ts });
                if len - close <= 9 {
                    assert(blocks@ =~= before + script_blocks_from(source@, cursor as int));
                    break;
                }
                assert(blocks@ + script_blocks_from(source@, close + 9) =~= before + script_blocks_from(source@, cursor as int));
                cursor = close + 9;
            },
        }
    }
    blocks
}

/// Byte `i` lies inside one of the blocks' content.
pub open spec fn in_script(blocks: Seq<ScriptBlock>, i: int) -> bool {
    exists|k: int| 0 <= k < blocks.len() && (#[trigger] blocks[k]).start_content_byte <= i < blocks[k].end_content_byte
}

fn in_script_exec(blocks: &Vec<ScriptBlock>, i: usize) -> (r: bool)
    ensures
        r == in_script(blocks@, i as int),
{
    let mut k: usize = 0;
    while k < blocks.len()
        invariant
            0 <= k <= blocks@.len(),
            forall|j: int| 0 <= j < k ==> !((#[trigger] blocks@[j]).start_content_byte <= i < blocks@[j].end_content_byte),
        decreases blocks@.len() - k,
    {
        if blocks[k].start_content_byte <= i && i < blocks[k].end_content_byte {
            return true;
        }
        k = k + 1;
    }
    false
}

/// The source with everything outside the script blocks blanked to spaces
/// (line breaks kept), so offsets and lines carry over.
pub open spec fn virtual_bytes(s: Seq<u8>, blocks: Seq<ScriptBlock>) -> Seq<u8> {
    Seq::new(s.len(), |i: int| if in_script(blocks, i) || s[i] == 10u8 || s[i] == 13u8 { s[i] } else { 32u8 })
}

pub fn build_virtual_bytes(s: &[u8], blocks: &Vec<ScriptBlock>) -> (r: Vec<u8>)
    ensures
        r@ == virtual_bytes(s@, blocks@),
{
    let mut out: Vec<u8> = Vec::new();
    let mut i: usize = 0;
    while i < s.len()
        invariant
            0 <= i <= s@.len(),
            out@ == virtual_bytes(s@, blocks@).take(i as int),
        decreases s@.len() - i,
    {
        let b = s[i];
        let keep = in_script_exec(blocks, i) || b == 10u8 || b == 13u8;
        out.push(if keep { b } else { 32u8 });
        i = i + 1;
        assert(out@ =~= virtual_bytes(s@, blocks@).take(i as int));
    }
    assert(out@ =~= virtual_bytes(s@, blocks@));
    out
}

fn is_upper_byte(b: u8) -> (r: bool)
    ensures
        r == (65 <= b <= 90),
{
    65 <= b && b <= 90
}

fn is_name_byte(b: u8) -> (r: bool)
    ensures
        r == ((65 <= b <= 90) || (97 <= b <= 122) || (48 <= b <= 57) || b == 95u8),
{
    (65 <= b && b <= 90) || (97 <= b && b <= 122) || (48 <= b && b <= 57) || b == 95u8
}

fn count_newlines(s: &[u8], a: usize, b: usize) -> (r: u64)
    requires
        a <= b <= s@.len(),
    ensures
        r <= b - a,
        r == newlines(s@.subrange(a as int, b as int)),
{
    let mut n: u64 = 0;
    let mut i = a;
    while i < b
        invariant
            a <= i <= b,
            b <= s@.len(),
            n <= i - a,
            n == newlines(s@.subrange(a as int, i as int)),
        decreases b - i,
    {
        assert(s@.subrange(a as int, i + 1).drop_last() =~= s@.subrange(a as int, i as int));
        if s[i] == 10u8 {
            n = n + 1;
        }
        i = i + 1;
    }
    n
}

/// A byte of a component name: an ASCII letter, digit or `_`.
pub open spec fn name_byte(b: u8) -> bool {
    (65 <= b <= 90) || (97 <= b <= 122) || (48 <= b <= 57) || b == 95u8
}

/// Where the run of name bytes from `j` on ends.
pub open spec fn name_end_from(s: Seq<u8>, j: int) -> int
    decreases s.len() - j,
{
    if j < 0 || j >= s.len() || !name_byte(s[j]) { j } else { name_end_from(s, j + 1) }
}

/// The bytes that close a `<style>` block.
pub open spec fn style_close() -> Seq<u8> {
    seq![60u8, 47u8, 115u8, 116u8, 121u8, 108u8, 101u8, 62u8]
}

/// The component uses from byte `i` on, `line` being the 1-based line of
/// byte `i`: name, line and byte offset of each `<Name` outside the script
/// blocks, HTML comments and `<style>` blocks.
pub open spec fn template_uses(s: Seq<u8>, blocks: Seq<ScriptBlock>, i: int, line: int) -> Seq<(Seq<char>, i64, i64)>
    decreases s.len() - i,
{
    if i < 0 || i >= s.len() {
        Seq::empty()
    } else if s[i] == 10u8 {
        template_uses(s, blocks, i + 1, line + 1)
    } else if bytes_at(s, i, "<!--"@.map_values(|c: char| c as u8))
        && find_bytes(s, i + 4, "-->"@.map_values(|c: char| c as u8)) is Some {
        let e = find_bytes(s, i + 4, "-->"@.map_values(|c: char| c as u8))->0;
        if i < e + 3 <= s.len() { template_uses(s, blocks, e + 3, line + newlines(s.subrange(i, e + 3))) } else { Seq::empty() }
    } else if s[i] == 60u8 && s.len() - i >= 6 && bytes_at_nocase(s, i + 1, "style".spec_bytes())
        && find_bytes(s, i, style_close()) is Some {
        let e = find_bytes(s, i, style_close())->0;
        if i < e + 8 <= s.len() { template_uses(s, blocks, e + 8, line + newlines(s.subrange(i, e + 8))) } else { Seq::empty() }
    } else if s[i] == 60u8 && !in_script(blocks, i) && i + 1 < s.len() && 65 <= s[i + 1] <= 90 {
        let ne = name_end_from(s, i + 1);
        let b = s.subrange(i + 1, ne);
        let name = if valid_utf8(b) { decode_utf8(b) } else { Seq::empty() };
        if i < ne <= s.len() {
            seq![(name, sat_i64(line), sat_i64(i))] + template_uses(s, blocks, ne, line)
        } else {
            Seq::empty()
        }
    } else {
        template_uses(s, blocks, i + 1, line)
    }
}

/// `refs` holds, from index `at` on, one `component` reference per use.
pub open spec fn components_at(refs: Seq<NewRef>, at: int, uses: Seq<(Seq<char>, i64, i64)>) -> bool {
    &&& refs.len() == at + uses.len()
    &&& forall|k: int| 0 <= k < uses.len() ==> Walker::is_ref(refs[at + k], (#[trigger] uses[k]).0, "component"@, None,
        Seq::empty(), None, uses[k].1, uses[k].2, None)
}

/// Template uses of PascalCase components (`<UserCard .. />`) outside the
/// script blocks, comments and `<style>` blocks, as `component` references.
pub fn scan_template_components(source: &[u8], blocks: &Vec<ScriptBlock>, refs: &mut Vec<NewRef>)
    ensures
        final(refs)@.len() >= old(refs)@.len(),
        forall|k: int| 0 <= k < old(refs)@.len() ==> #[trigger] final(refs)@[k] == old(refs)@[k],
        forall|k: int| old(refs)@.len() <= k < final(refs)@.len() ==> {
            let r = #[trigger] final(refs)@[k];
            &&& r.ref_kind@ == "component"@
            &&& r.resolved_local_symbol_index is None
            &&& r.receiver is None
        },
        components_at(final(refs)@, old(refs)@.len() as int, template_uses(source@, blocks@, 0, 1)),
{
    let len = source.len();
    let open = comment_open();
    let close = comment_close();
    let style = ascii_bytes("style");
    let style_end: Vec<u8> = vec![60u8, 47u8, 115u8, 116u8, 121u8, 108u8, 101u8, 62u8];
    let mut i: usize = 0;
    let mut line: u128 = 1;
    let ghost start = refs@;
    let ghost done: Seq<(Seq<char>, i64, i64)> = Seq::empty();
    assert(style_end@ =~= style_close());
    assert(done + template_uses(source@, blocks@, 0, 1) =~= template_uses(source@, blocks@, 0, 1));
    while i < len
        invariant
            len == source@.len(),
            style@ == "style".spec_bytes(),
            style_end@ == style_close(),
            done + template_uses(source@, blocks@, i as int, line as int) == template_uses(source@, blocks@, 0, 1),
            components_at(refs@, start.len() as int, done),
            i <= len,
            line <= i + 1,
            open@.len() == 4,
            open@ == "<!--"@.map_values(|c: char| c as u8),
            close@ == "-->"@.map_values(|c: char| c as u8),
            close@.len() == 3,
            style_end@.len() == 8,
            refs@.len() >= start.len(),
            forall|k: int| 0 <= k < start.len() ==> #[trigger] refs@[k] == start[k],
            forall|k: int| start.len() <= k < refs@.len() ==> {
                let r = #[trigger] refs@[k];
                &&& r.ref_kind@ == "component"@
                &&& r.resolved_local_symbol_index is None
                &&& r.receiver is None
            },
        decreases len - i,
    {
        let b = source[i];
        if b == 10u8 {
            line = line + 1;
            i = i + 1;
            continue;
        }
        proof {
            assert(source@[i as int] != 10u8);
        }
        if bytes_at_exec(source, i, open.as_slice()) {
            match find_bytes_exec(source, i + 4, close.as_slice()) {
                Some(e) => {
                    line = line + count_newlines(source, i, e + 3) as u128;
                    i = e + 3;
                    continue;
                },
                None => {},
            }
        }
        if b == 60u8 && len - i >= 6 && bytes_at_nocase_exec(source, i + 1, style.as_slice()) {
            match find_bytes_exec(source, i, style_end.as_slice()) {
                Some(e) => {
                    line = line + count_newlines(source, i, e + 8) as u128;
                    i = e + 8;
                    continue;
                },
                None => {},
            }
        }
        if b == 60u8 && !in_script_exec(blocks, i) && i + 1 < len && is_upper_byte(source[i + 1]) {
            let start_byte = to_i64(i);
            let start_line = if line <= i64::MAX as u128 { line as i64 } else { i64::MAX };
            let mut name_end = i + 1;
            while name_end < len && is_name_byte(source[name_end])
                invariant
                    i + 1 <= name_end <= len,
                    len == source@.len(),
                    name_end_from(source@, i + 1) == name_end_from(source@, name_end as int),
                decreases len - name_end,
            {
                name_end = name_end + 1;
            }
            let name_bytes = vstd::slice::slice_subrange(source, i + 1, name_end);
            let name = match utf8_str(name_bytes) {
                Some(t) => {
                    proof {
                        decode_utf8_encode_utf8(name_bytes@);
                        encode_utf8_decode_utf8(t@);
                    }
                    t.to_string()
                },
                None => String::new(),
            };
            let ghost u = (name@, start_line, start_byte);
            let ghost before = refs@;
            assert(u == template_uses(source@, blocks@, i as int, line as int)[0]);
            assert(template_uses(source@, blocks@, i as int, line as int) =~= seq![u] + template_uses(source@, blocks@, name_end as int, line as int));
            refs.push(NewRef {
                name,
                ref_kind: "component".to_string(),
                receiver: None,
                start_line,
                start_byte,
                name_start_byte: None,
                arg_count: None,
                receiver_kind: String::new(),
                local_only: false,
                resolved_local_symbol_index: None,
            });
            proof {
                let d2 = done.push(u);
                assert forall|k: int| 0 <= k < d2.len() implies Walker::is_ref(refs@[start.len() + k], (#[trigger] d2[k]).0,
                    "component"@, None, Seq::empty(), None, d2[k].1, d2[k].2, None) by {
                    if k < done.len() {
                        assert(d2[k] == done[k]);
                        assert(refs@[start.len() + k] == before[start.len() + k]);
                    }
                }
                assert(d2 + template_uses(source@, blocks@, name_end as int, line as int) =~= done + template_uses(source@, blocks@, i as int, line as int));
                done = d2;
            }
            i = name_end;
            continue;
        }
        i = i + 1;
    }
}

/// How many lines `source` has (at least one).
pub open spec fn total_lines(source: Seq<char>) -> int {
    let n = crate::text::str_lines(source).len();
    if n < 1 { 1 } else { n as int }
}

/// Some symbol of `syms` is an exported `default`.
pub open spec fn has_exported_default(syms: Seq<NewSymbol>) -> bool {
    exists|k: int| 0 <= k < syms.len() && (#[trigger] syms[k]).name@ == "default"@ && syms[k].is_exported
}

/// `s` is the synthetic exported `default` component symbol spanning all of `source`.
pub open spec fn is_default_component(s: NewSymbol, source: Seq<char>) -> bool {
    &&& s.name@ == "default"@
    &&& s.kind@ == "component"@
    &&& s.parent_index is None
    &&& s.is_exported
    &&& s.start_line == 1
    &&& s.end_line == sat_i64(total_lines(source))
    &&& s.start_byte == 0
    &&& s.end_byte == sat_i64(encode_utf8(source).len() as int)
    &&& s.signature is None
    &&& s.param_count is None
    &&& s.owner_type is None
}

/// The text the script blocks are parsed as: the file with everything outside
/// them blanked (or the file itself, should that not be valid UTF-8).
pub open spec fn script_text(source: Seq<char>, blocks: Seq<ScriptBlock>) -> Seq<char> {
    let vb = virtual_bytes(encode_utf8(source), blocks);
    if valid_utf8(vb) { decode_utf8(vb) } else { source }
}

/// TSX when some block declares TypeScript, JSX otherwise.
pub open spec fn script_language(blocks: Seq<ScriptBlock>) -> Language {
    if exists|k: int| 0 <= k < blocks.len() && (#[trigger] blocks[k]).is_ts { Language::Tsx } else { Language::Jsx }
}

/// What parsing a Vue or Svelte file gives, for the file's bytes `b` and
/// characters `src`: the template's component uses end the refs; without a
/// script block the file is just its default component; with script blocks
/// the result is the script parse of their text, plus the default component
/// where the script exports none.
pub open spec fn sfc_parsed(b: Seq<u8>, src: Seq<char>, p: ParsedFile) -> bool {
    let bl = script_blocks_from(b, 0);
    let u = template_uses(b, bl, 0, 1);
    &&& p.refs@.len() >= u.len()
    &&& components_at(p.refs@, p.refs@.len() - u.len(), u)
    &&& bl.len() == 0 ==> {
        &&& p.parse_ok
        &&& p.imports@.len() == 0 && p.scopes@.len() == 0 && p.bindings@.len() == 0 && p.string_literals@.len() == 0
        &&& p.refs@.len() == u.len()
        &&& p.symbols@.len() == 1
        &&& is_default_component(p.symbols@[0], src)
    }
    &&& bl.len() > 0 ==> exists|q: ParsedFile| {
        &&& #[trigger] javascript::js_parsed(script_text(src, bl), script_language(bl), q)
        &&& p.parse_ok == q.parse_ok
        &&& p.imports@ == q.imports@ && p.scopes@ == q.scopes@ && p.bindings@ == q.bindings@
        &&& p.string_literals@ == q.string_literals@
        &&& p.refs@.len() == q.refs@.len() + u.len()
        &&& p.refs@.take(q.refs@.len() as int) == q.refs@
        &&& if has_exported_default(q.symbols@) {
            p.symbols@ == q.symbols@
        } else {
            &&& p.symbols@.len() == q.symbols@.len() + 1
            &&& p.symbols@.take(q.symbols@.len() as int) == q.symbols@
            &&& is_default_component(p.symbols@.last(), src)
        }
    }
}

/// Parse a Vue or Svelte file: its script blocks as TypeScript/JSX, a
/// synthetic exported `default` component symbol (unless the script exports
/// one), and the components its template uses.
pub fn parse(source: &str, language: Language) -> (p: ParsedFile)
    ensures
        p.wf(),
        exists|k: int| 0 <= k < p.symbols@.len() && (#[trigger] p.symbols@[k]).name@ == "default"@ && p.symbols@[k].is_exported,
        sfc_parsed(source.spec_bytes(), source@, p),
{
    let bytes = ascii_bytes(source);
    let blocks = find_script_blocks(bytes.as_slice());
    let lines = crate::text::lines_exec(source);
    let nlines = if lines.len() == 0 { 1 } else { lines.len() };
    proof {
        assert(lines@.len() == crate::text::str_lines(source@).len()) by {
            assert(lines@.map_values(|l: Vec<char>| l@).len() == lines@.len());
        }
    }
    let ghost lang_used = script_language(blocks@);
    let ghost text_used = script_text(source@, blocks@);
    let mut out = if blocks.len() == 0 {
        ParsedFile::empty(true)
    } else {
        let mut is_any_ts = false;
        let mut k: usize = 0;
        while k < blocks.len()
            invariant
                0 <= k <= blocks@.len(),
                is_any_ts == exists|j: int| 0 <= j < k && (#[trigger] blocks@[j]).is_ts,
            decreases blocks@.len() - k,
        {
            if blocks[k].is_ts {
                is_any_ts = true;
            }
            k = k + 1;
        }
        let lang = if is_any_ts { Language::Tsx } else { Language::Jsx };
        assert(lang == lang_used);
        let v = build_virtual_bytes(bytes.as_slice(), &blocks);
        match utf8_str(v.as_slice()) {
            Some(text) => {
                proof {
                    decode_utf8_encode_utf8(v@);
                    encode_utf8_decode_utf8(text@);
                    assert(text@ == text_used);
                }
                javascript::parse(text, lang)
            },
            None => javascript::parse(source, lang),
        }
    };
    let ghost q = out;
    let mut has_default = false;
    let mut k: usize = 0;
    while k < out.symbols.len()
        invariant
            0 <= k <= out.symbols@.len(),
            out == q,
            has_default == exists|j: int| 0 <= j < k && (#[trigger] out.symbols@[j]).name@ == "default"@ && out.symbols@[j].is_exported,
        decreases out.symbols@.len() - k,
    {
        if str_eq(out.symbols[k].name.as_str(), "default") && out.symbols[k].is_exported {
            has_default = true;
        }
        k = k + 1;
    }
    assert(has_default == has_exported_default(q.symbols@));
    if !has_default {
        let sym = NewSymbol {
            name: "default".to_string(),
            kind: "component".to_string(),
            parent_index: None,
            is_exported: true,
            start_line: 1,
            end_line: to_i64(nlines),
            start_byte: 0,
            end_byte: to_i64(source.len()),
            signature: None,
            param_count: None,
            owner_type: None,
        };
        out.symbols.push(sym);
        assert(out.symbols@.last().name@ == "default"@);
        assert(out.symbols@.take(q.symbols@.len() as int) =~= q.symbols@);
    }
    let ghost before_refs = out.refs@;
    scan_template_components(bytes.as_slice(), &blocks, &mut out.refs);
    proof {
        assert(out.refs@.take(before_refs.len() as int) =~= before_refs);
    }
    if blocks.len() == 0 {
        out.parse_ok = true;
    }
    proof {
        if blocks.len() > 0 {
            assert(javascript::js_parsed(text_used, lang_used, q));
        }
    }
    out
}

} // verus!
