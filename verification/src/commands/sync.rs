//! `sync`: the decisions that bring the cache in line with the source tree.
//! Walking the tree, reading files and writing the cache happen around them.

use vstd::prelude::*;
use crate::analysis::lang::{file_name, group_of, Language, language_of_ext, extension, path_file_name, token_selects};
use crate::text::{chars_of, contains, contains_exec, decimal, lower_seq, str_eq, string_of, trim};
use crate::commands::digest::markdown::{push_decimal, push_str};

verus! {

/// The BLAKE3 digest of `input` (32 bytes).
pub uninterp spec fn blake3_of(input: Seq<u8>) -> Seq<u8>;

/// `blake3::hash`, taken as its 32 bytes (`Hash::as_bytes`).
#[verifier::external_body]
fn blake3_digest(input: &[u8]) -> (r: Vec<u8>)
    ensures
        r@ == blake3_of(input@),
        r@.len() == 32,
{
    blake3::hash(input).as_bytes().to_vec()
}

pub open spec fn hex_digit(d: int) -> char {
    if d < 10 { (('0' as int) + d) as char } else { (('a' as int) + d - 10) as char }
}

/// Lowercase hexadecimal, two digits per byte (`Hash::to_hex`).
pub open spec fn hex_lower(b: Seq<u8>) -> Seq<char>
    decreases b.len(),
{
    if b.len() == 0 {
        seq![]
    } else {
        hex_lower(b.drop_last()) + seq![hex_digit(b.last() as int / 16), hex_digit(b.last() as int % 16)]
    }
}

fn hex_digit_exec(d: u8) -> (c: char)
    requires
        d < 16,
    ensures
        c == hex_digit(d as int),
{
    let table: [char; 16] = ['0', '1', '2', '3', '4', '5', '6', '7', '8', '9', 'a', 'b', 'c', 'd', 'e', 'f'];
    let c = table[d as usize];
    proof {
        assert(table@ == seq!['0', '1', '2', '3', '4', '5', '6', '7', '8', '9', 'a', 'b', 'c', 'd', 'e', 'f']);
    }
    c
}

/// The cache's content hash of a file: its BLAKE3 digest in lowercase hex.
pub fn content_hash(bytes: &[u8]) -> (r: String)
    ensures
        r@ == hex_lower(blake3_of(bytes@)),
        r@.len() == 64,
{
    let d = blake3_digest(bytes);
    let mut out: Vec<char> = Vec::new();
    let mut i: usize = 0;
    assert(d@.take(0) =~= seq![]);
    while i < d.len()
        invariant
            0 <= i <= d@.len(),
            out@ == hex_lower(d@.take(i as int)),
            out@.len() == 2 * i,
        decreases d@.len() - i,
    {
        let b = d[i];
        out.push(hex_digit_exec(b / 16));
        out.push(hex_digit_exec(b % 16));
        proof {
            assert(d@.take(i + 1).drop_last() =~= d@.take(i as int));
            assert(d@.take(i + 1).last() == b);
        }
        i = i + 1;
        assert(out@ =~= hex_lower(d@.take(i as int)));
    }
    assert(d@.take(d@.len() as int) =~= d@);
    string_of(out.as_slice())
}

/// How a file on disk stands against the cache.
#[derive(Debug, Clone, Copy, PartialEq, Eq, Structural)]
pub enum FileChange {
    /// Same content hash as cached: nothing to do.
    Unchanged,
    /// Not in the cache yet.
    Added,
    /// In the cache with another content hash.
    Changed,
}

/// A file not cached is added; one cached with the same content hash is
/// unchanged; one cached with another hash changed.
pub open spec fn spec_file_change(cached_hash: Option<Seq<char>>, hash: Seq<char>) -> FileChange {
    match cached_hash {
        None => FileChange::Added,
        Some(h) => if h == hash { FileChange::Unchanged } else { FileChange::Changed },
    }
}

/// See [`spec_file_change`].
pub fn file_change(cached_hash: Option<&str>, hash: &str) -> (r: FileChange)
    ensures
        r == spec_file_change(match cached_hash { Some(h) => Some(h@), None => None }, hash@),
{
    match cached_hash {
        None => FileChange::Added,
        Some(h) => if str_eq(h, hash) { FileChange::Unchanged } else { FileChange::Changed },
    }
}

/// Sync parses only what changed: a file whose bytes are the ones it was
/// cached with is unchanged, whatever they are; bytes whose hash differs
/// from the cached one are a change.
pub proof fn law_same_bytes_are_not_reparsed(cached_bytes: Seq<u8>, bytes: Seq<u8>)
    ensures
        cached_bytes == bytes ==> spec_file_change(Some(hex_lower(blake3_of(cached_bytes))), hex_lower(blake3_of(bytes)))
            == FileChange::Unchanged,
        hex_lower(blake3_of(cached_bytes)) != hex_lower(blake3_of(bytes)) ==> spec_file_change(
            Some(hex_lower(blake3_of(cached_bytes))),
            hex_lower(blake3_of(bytes)),
        ) == FileChange::Changed,
{
}

spec fn listed(on_disk: Seq<String>, p: Seq<char>) -> bool {
    exists|j: int| 0 <= j < on_disk.len() && #[trigger] on_disk[j]@ == p
}

proof fn lemma_gone_none(cached: Seq<String>, on_disk: Seq<String>)
    requires
        forall|i: int| 0 <= i < cached.len() ==> listed(on_disk, (#[trigger] cached[i])@),
    ensures
        gone(cached, on_disk).len() == 0,
    decreases cached.len(),
{
    if cached.len() > 0 {
        let rest = cached.drop_last();
        assert forall|i: int| 0 <= i < rest.len() implies listed(on_disk, (#[trigger] rest[i])@) by {
            assert(rest[i] == cached[i]);
        }
        lemma_gone_none(rest, on_disk);
        assert(listed(on_disk, cached[cached.len() - 1]@));
    }
}

/// A second sync over a tree that has not changed changes nothing: every
/// cached path is still on disk, so none is removed, and a file read back
/// with the bytes it was cached with is unchanged, so none is re-parsed.
pub proof fn law_resync_changes_nothing(paths: Seq<String>, bytes: Seq<u8>)
    ensures
        gone(paths, paths).len() == 0,
        spec_file_change(Some(hex_lower(blake3_of(bytes))), hex_lower(blake3_of(bytes))) == FileChange::Unchanged,
{
    assert forall|i: int| 0 <= i < paths.len() implies listed(paths, (#[trigger] paths[i])@) by {
        assert(paths[i]@ == paths[i]@);
    }
    lemma_gone_none(paths, paths);
}

/// Whether a file found on disk is indexed, and as what language: it needs a
/// known extension, a name without `.min.` (bundled output), a language the
/// filter selects (an empty filter selects all), and at most `max_file_kb` KiB.
pub open spec fn sync_language(path: Seq<char>, filter: Seq<String>, size: u64, max_file_kb: u64) -> Option<Language> {
    let lang = match extension(path) {
        Some(e) => language_of_ext(lower_seq(e)),
        None => None,
    };
    let max_bytes = if max_file_kb * 1024 > u64::MAX { u64::MAX as int } else { max_file_kb * 1024 };
    match lang {
        None => None,
        Some(l) => if (match file_name(path) { Some(n) => contains(n, ".min."@), None => false }) {
            None
        } else if filter.len() > 0 && !(exists|k: int| 0 <= k < filter.len() && token_selects(lower_seq(trim(#[trigger] filter[k]@)), group_of(l))) {
            None
        } else if size > max_bytes {
            None
        } else {
            Some(l)
        },
    }
}

pub fn keep_for_sync(path: &str, filter: &Vec<String>, size: u64, max_file_kb: u64) -> (r: Option<Language>)
    ensures
        r == sync_language(path@, filter@, size, max_file_kb),
{
    let lang = match Language::from_path(path) {
        Some(l) => l,
        None => { return None; },
    };
    let is_min = match path_file_name(path) {
        Some(n) => {
            let name = chars_of(n.as_str());
            let min = chars_of(".min.");
            contains_exec(name.as_slice(), min.as_slice())
        },
        None => false,
    };
    if is_min {
        return None;
    }
    if filter.len() > 0 {
        let mut any = false;
        let mut k: usize = 0;
        while k < filter.len()
            invariant
                0 <= k <= filter@.len(),
                any == exists|j: int| 0 <= j < k && token_selects(lower_seq(trim(#[trigger] filter@[j]@)), group_of(lang)),
            decreases filter@.len() - k,
        {
            if lang.matches_filter(filter[k].as_str()) {
                any = true;
            }
            k = k + 1;
        }
        if !any {
            return None;
        }
    }
    let max_bytes: u64 = if max_file_kb > u64::MAX / 1024 { u64::MAX } else { max_file_kb * 1024 };
    if size > max_bytes {
        return None;
    }
    Some(lang)
}

/// The cached paths that are no longer on disk, in cache order.
pub open spec fn gone(cached: Seq<String>, on_disk: Seq<String>) -> Seq<Seq<char>>
    decreases cached.len(),
{
    if cached.len() == 0 {
        seq![]
    } else {
        let rest = gone(cached.drop_last(), on_disk);
        if exists|j: int| 0 <= j < on_disk.len() && #[trigger] on_disk[j]@ == cached.last()@ {
            rest
        } else {
            rest.push(cached.last()@)
        }
    }
}

pub fn removed_paths(cached: &Vec<String>, on_disk: &Vec<String>) -> (r: Vec<String>)
    ensures
        r@.map_values(|s: String| s@) == gone(cached@, on_disk@),
{
    let mut out: Vec<String> = Vec::new();
    let mut i: usize = 0;
    assert(cached@.take(0) =~= seq![]);
    while i < cached.len()
        invariant
            0 <= i <= cached@.len(),
            out@.map_values(|s: String| s@) == gone(cached@.take(i as int), on_disk@),
        decreases cached@.len() - i,
    {
        let mut found = false;
        let mut j: usize = 0;
        while j < on_disk.len()
            invariant
                0 <= j <= on_disk@.len(),
                i < cached@.len(),
                found == exists|x: int| 0 <= x < j && #[trigger] on_disk@[x]@ == cached@[i as int]@,
            decreases on_disk@.len() - j,
        {
            if str_eq(on_disk[j].as_str(), cached[i].as_str()) {
                found = true;
            }
            j = j + 1;
        }
        proof {
            assert(cached@.take(i + 1).drop_last() =~= cached@.take(i as int));
            assert(cached@.take(i + 1).last() == cached@[i as int]);
        }
        if !found {
            let p = cached[i].clone();
            out.push(p);
        }
        i = i + 1;
        assert(out@.map_values(|s: String| s@) =~= gone(cached@.take(i as int), on_disk@));
    }
    assert(cached@.take(cached@.len() as int) =~= cached@);
    out
}

/// What one sync did.
#[derive(Debug)]
pub struct SyncStats {
    pub scanned: usize,
    pub added: usize,
    pub changed: usize,
    pub unchanged: usize,
    pub removed: usize,
    pub symbols: usize,
    pub imports: usize,
    pub unsupported: usize,
}

/// The counters after one file is found unchanged, added or changed.
pub open spec fn after_change(s: SyncStats, change: FileChange) -> SyncStats {
    match change {
        FileChange::Unchanged => SyncStats { unchanged: (s.unchanged + 1) as usize, ..s },
        FileChange::Added => SyncStats { added: (s.added + 1) as usize, ..s },
        FileChange::Changed => SyncStats { changed: (s.changed + 1) as usize, ..s },
    }
}

/// The counters after the files' changes `cs`, in order.
pub open spec fn after_changes(s: SyncStats, cs: Seq<FileChange>) -> SyncStats
    decreases cs.len(),
{
    if cs.len() == 0 {
        s
    } else {
        after_change(after_changes(s, cs.drop_last()), cs.last())
    }
}

/// A second sync over a tree where nothing changed reports no change: every
/// file is found unchanged and no cached path is gone, so the counters show
/// no addition, change or removal, and every scanned file counts as
/// unchanged (with those counters `report_due` leaves an existing report
/// alone).
pub proof fn law_quiet_sync_reports_no_change(paths: Seq<String>, cs: Seq<FileChange>)
    requires
        forall|i: int| 0 <= i < cs.len() ==> cs[i] == FileChange::Unchanged,
        cs.len() <= usize::MAX,
    ensures
        gone(paths, paths).len() == 0,
        after_changes(SyncStats { scanned: cs.len() as usize, added: 0, changed: 0, unchanged: 0, removed: 0, symbols: 0, imports: 0, unsupported: 0 }, cs)
            == (SyncStats { scanned: cs.len() as usize, added: 0, changed: 0, unchanged: cs.len() as usize, removed: 0, symbols: 0, imports: 0, unsupported: 0 }),
    decreases cs.len(),
{
    law_resync_changes_nothing(paths, Seq::empty());
    if cs.len() > 0 {
        let n = cs.len() as usize;
        let rest = cs.drop_last();
        lemma_unchanged_prefix(rest, n);
    }
}

proof fn lemma_unchanged_prefix(cs: Seq<FileChange>, n: usize)
    requires
        forall|i: int| 0 <= i < cs.len() ==> cs[i] == FileChange::Unchanged,
        cs.len() < n,
    ensures
        after_changes(SyncStats { scanned: n, added: 0, changed: 0, unchanged: 0, removed: 0, symbols: 0, imports: 0, unsupported: 0 }, cs)
            == (SyncStats { scanned: n, added: 0, changed: 0, unchanged: cs.len() as usize, removed: 0, symbols: 0, imports: 0, unsupported: 0 }),
        after_changes(SyncStats { scanned: n, added: 0, changed: 0, unchanged: 0, removed: 0, symbols: 0, imports: 0, unsupported: 0 }, cs.push(FileChange::Unchanged))
            == (SyncStats { scanned: n, added: 0, changed: 0, unchanged: (cs.len() + 1) as usize, removed: 0, symbols: 0, imports: 0, unsupported: 0 }),
    decreases cs.len(),
{
    if cs.len() > 0 {
        lemma_unchanged_prefix(cs.drop_last(), n);
        assert(cs.drop_last().push(FileChange::Unchanged) =~= cs);
    }
    assert(cs.push(FileChange::Unchanged).drop_last() =~= cs);
}

impl SyncStats {
    /// Nothing done yet over `scanned` files on disk.
    pub fn new(scanned: usize) -> (s: SyncStats)
        ensures
            s.scanned == scanned,
            s.added == 0 && s.changed == 0 && s.unchanged == 0 && s.removed == 0,
            s.symbols == 0 && s.imports == 0 && s.unsupported == 0,
    {
        SyncStats { scanned, added: 0, changed: 0, unchanged: 0, removed: 0, symbols: 0, imports: 0, unsupported: 0 }
    }

    /// A cached file that is gone from disk was dropped.
    pub fn record_removed(&mut self)
        requires
            old(self).removed < usize::MAX,
        ensures
            *final(self) == (SyncStats { removed: (old(self).removed + 1) as usize, ..*old(self) }),
    {
        self.removed = self.removed + 1;
    }

    /// A file was found unchanged, added or changed.
    pub fn record_change(&mut self, change: FileChange)
        requires
            old(self).unchanged < usize::MAX,
            old(self).added < usize::MAX,
            old(self).changed < usize::MAX,
        ensures
            *final(self) == after_change(*old(self), change),
    {
        match change {
            FileChange::Unchanged => { self.unchanged = self.unchanged + 1; },
            FileChange::Added => { self.added = self.added + 1; },
            FileChange::Changed => { self.changed = self.changed + 1; },
        }
    }

    /// A file was analysed: its symbols and imports count, and so does a
    /// language without an analyzer.
    pub fn record_analysis(&mut self, symbols: usize, imports: usize, supported: bool)
        requires
            old(self).symbols + symbols <= usize::MAX,
            old(self).imports + imports <= usize::MAX,
            old(self).unsupported < usize::MAX,
        ensures
            *final(self) == (SyncStats {
                symbols: (old(self).symbols + symbols) as usize,
                imports: (old(self).imports + imports) as usize,
                unsupported: (if supported { old(self).unsupported as int } else { old(self).unsupported + 1 }) as usize,
                ..*old(self)
            }),
    {
        self.symbols = self.symbols + symbols;
        self.imports = self.imports + imports;
        if !supported {
            self.unsupported = self.unsupported + 1;
        }
    }

    /// `sync: 12 source files (+1 ~2 =9 -0), 80 symbols, 31 imports`
    pub open spec fn spec_summary(self) -> Seq<char> {
        "sync: "@ + decimal(self.scanned as nat) + " source files (+"@ + decimal(self.added as nat) + " ~"@
            + decimal(self.changed as nat) + " ="@ + decimal(self.unchanged as nat) + " -"@
            + decimal(self.removed as nat) + "), "@ + decimal(self.symbols as nat) + " symbols, "@
            + decimal(self.imports as nat) + " imports"@
    }

    pub fn summary(&self) -> (r: String)
        ensures
            r@ == self.spec_summary(),
    {
        let mut out: Vec<char> = Vec::new();
        push_str(&mut out, "sync: ");
        push_decimal(&mut out, self.scanned as u64);
        push_str(&mut out, " source files (+");
        push_decimal(&mut out, self.added as u64);
        push_str(&mut out, " ~");
        push_decimal(&mut out, self.changed as u64);
        push_str(&mut out, " =");
        push_decimal(&mut out, self.unchanged as u64);
        push_str(&mut out, " -");
        push_decimal(&mut out, self.removed as u64);
        push_str(&mut out, "), ");
        push_decimal(&mut out, self.symbols as u64);
        push_str(&mut out, " symbols, ");
        push_decimal(&mut out, self.imports as u64);
        push_str(&mut out, " imports");
        assert(out@ =~= self.spec_summary());
        string_of(out.as_slice())
    }

    /// `Sync completed: 12 scanned (+1 added, ~2 changed, =9 unchanged, -0 removed),
    /// 300 symbols (80 re-parsed), 90 imports (31 re-parsed)`, with the
    /// cache's totals after the sync.
    pub open spec fn spec_completed_text(self, total_symbols: usize, total_imports: usize) -> Seq<char> {
        "Sync completed: "@ + decimal(self.scanned as nat) + " scanned (+"@ + decimal(self.added as nat)
            + " added, ~"@ + decimal(self.changed as nat) + " changed, ="@ + decimal(self.unchanged as nat)
            + " unchanged, -"@ + decimal(self.removed as nat) + " removed), "@ + decimal(total_symbols as nat)
            + " symbols ("@ + decimal(self.symbols as nat) + " re-parsed), "@ + decimal(total_imports as nat)
            + " imports ("@ + decimal(self.imports as nat) + " re-parsed)"@
    }

    pub fn completed_text(&self, total_symbols: usize, total_imports: usize) -> (r: String)
        ensures
            r@ == self.spec_completed_text(total_symbols, total_imports),
    {
        let mut out: Vec<char> = Vec::new();
        push_str(&mut out, "Sync completed: ");
        push_decimal(&mut out, self.scanned as u64);
        push_str(&mut out, " scanned (+");
        push_decimal(&mut out, self.added as u64);
        push_str(&mut out, " added, ~");
        push_decimal(&mut out, self.changed as u64);
        push_str(&mut out, " changed, =");
        push_decimal(&mut out, self.unchanged as u64);
        push_str(&mut out, " unchanged, -");
        push_decimal(&mut out, self.removed as u64);
        push_str(&mut out, " removed), ");
        push_decimal(&mut out, total_symbols as u64);
        push_str(&mut out, " symbols (");
        push_decimal(&mut out, self.symbols as u64);
        push_str(&mut out, " re-parsed), ");
        push_decimal(&mut out, total_imports as u64);
        push_str(&mut out, " imports (");
        push_decimal(&mut out, self.imports as u64);
        push_str(&mut out, " re-parsed)");
        assert(out@ =~= self.spec_completed_text(total_symbols, total_imports));
        string_of(out.as_slice())
    }

    /// The note about files recorded without analysis, when there were any.
    pub fn unsupported_note(&self) -> (r: Option<String>)
        ensures
            self.unsupported == 0 ==> r is None,
            self.unsupported > 0 ==> (r matches Some(t) && t@ == "note: "@ + decimal(self.unsupported as nat)
                + " files recorded without analysis (analyzer not implemented yet)"@),
    {
        if self.unsupported == 0 {
            return None;
        }
        let mut out: Vec<char> = Vec::new();
        push_str(&mut out, "note: ");
        push_decimal(&mut out, self.unsupported as u64);
        push_str(&mut out, " files recorded without analysis (analyzer not implemented yet)");
        Some(string_of(out.as_slice()))
    }

    /// Whether anything in the cache changed.
    pub fn changed_anything(&self) -> (r: bool)
        ensures
            r == (self.added + self.changed + self.removed > 0),
    {
        self.added > 0 || self.changed > 0 || self.removed > 0
    }
}

} // verus!
