//! Source languages, told apart by file extension.

use vstd::prelude::*;
use crate::text::{after_last, ascii_lower, chars_of, lower_seq, rfind, str_eq, string_of, trim};
use crate::analysis::rust::helpers::after_last_exec;

verus! {

/// A source language variant the analyzer understands.
#[derive(Copy, Clone, Debug, PartialEq, Eq, Structural)]
pub enum Language {
    Rust,
    JavaScript,
    Jsx,
    TypeScript,
    Tsx,
    Python,
    Java,
    Kotlin,
    Vue,
    Svelte,
    Go,
    /// Configuration, not code: indexed for its keys only, so a setting read in
    /// code can be traced to where it is defined.
    Toml,
}

/// Whether a stored language group names configuration rather than source.
/// Config files carry indexed keys for `search` but no symbols, so they stay
/// out of the dependency graph.
pub fn is_config_group(group: &str) -> (r: bool)
    ensures
        r == (group@ == "toml"@),
{
    str_eq(group, "toml")
}

/// The language an extension (already lower-cased) names.
pub open spec fn language_of_ext(ext: Seq<char>) -> Option<Language> {
    if ext == "rs"@ {
        Some(Language::Rust)
    } else if ext == "js"@ || ext == "mjs"@ || ext == "cjs"@ {
        Some(Language::JavaScript)
    } else if ext == "jsx"@ {
        Some(Language::Jsx)
    } else if ext == "ts"@ || ext == "mts"@ || ext == "cts"@ {
        Some(Language::TypeScript)
    } else if ext == "tsx"@ {
        Some(Language::Tsx)
    } else if ext == "py"@ || ext == "pyi"@ {
        Some(Language::Python)
    } else if ext == "java"@ {
        Some(Language::Java)
    } else if ext == "kt"@ || ext == "kts"@ {
        Some(Language::Kotlin)
    } else if ext == "vue"@ {
        Some(Language::Vue)
    } else if ext == "svelte"@ {
        Some(Language::Svelte)
    } else if ext == "go"@ {
        Some(Language::Go)
    } else if ext == "toml"@ {
        Some(Language::Toml)
    } else {
        None
    }
}

/// `path` without trailing `/`s.
pub open spec fn strip_trailing_slashes(p: Seq<char>) -> Seq<char>
    decreases p.len(),
{
    if p.len() > 0 && p.last() == '/' { strip_trailing_slashes(p.drop_last()) } else { p }
}

/// The last component of a `/`-separated path as `Path::components` reads
/// it: empty parts (repeated or trailing `/`) and `.` parts are skipped;
/// empty when nothing is left.
pub open spec fn last_component(p: Seq<char>) -> Seq<char>
    decreases p.len(),
{
    if p.len() == 0 {
        Seq::empty()
    } else if p.last() == '/' {
        last_component(p.drop_last())
    } else if after_last(p, "/"@) == "."@ {
        last_component(p.drop_last())
    } else {
        after_last(p, "/"@)
    }
}

/// `Path::file_name`: the last component, unless there is none or it is `..`.
pub open spec fn file_name(path: Seq<char>) -> Option<Seq<char>> {
    let c = last_component(path);
    if c.len() == 0 || c == ".."@ { None } else { Some(c) }
}

/// `Path::extension`: what follows the last `.` of the file name, unless the
/// name has no `.` past its first character.
pub open spec fn extension(path: Seq<char>) -> Option<Seq<char>> {
    match file_name(path) {
        Some(name) => match rfind(name, "."@) {
            Some(k) => if k == 0 { None } else { Some(name.subrange(k + 1, name.len() as int)) },
            None => None,
        },
        None => None,
    }
}

pub open spec fn group_of(l: Language) -> Seq<char> {
    match l {
        Language::Rust => "rust"@,
        Language::JavaScript | Language::Jsx => "javascript"@,
        Language::TypeScript | Language::Tsx => "typescript"@,
        Language::Python => "python"@,
        Language::Java => "java"@,
        Language::Kotlin => "kotlin"@,
        Language::Vue => "vue"@,
        Language::Svelte => "svelte"@,
        Language::Go => "go"@,
        Language::Toml => "toml"@,
    }
}

/// Whether a (trimmed, lower-cased) `--language` token selects group `g`:
/// the short names `js`, `ts`, `py`, `kt` stand for their groups.
pub open spec fn token_selects(t: Seq<char>, g: Seq<char>) -> bool {
    if t == "js"@ {
        g == "javascript"@
    } else if t == "ts"@ {
        g == "typescript"@
    } else if t == "py"@ {
        g == "python"@
    } else if t == "kt"@ {
        g == "kotlin"@
    } else if t == "vue"@ {
        g == "vue"@
    } else if t == "svelte"@ {
        g == "svelte"@
    } else {
        t == g
    }
}

fn trim_slashes_len(c: &[char]) -> (n: usize)
    ensures
        n <= c@.len(),
        c@.subrange(0, n as int) == strip_trailing_slashes(c@),
{
    let mut n = c.len();
    assert(c@.subrange(0, n as int) =~= c@);
    while n > 0 && c[n - 1] == '/'
        invariant
            n <= c@.len(),
            strip_trailing_slashes(c@.subrange(0, n as int)) == strip_trailing_slashes(c@),
        decreases n,
    {
        assert(c@.subrange(0, n as int).drop_last() =~= c@.subrange(0, n - 1));
        n = n - 1;
    }
    n
}

/// The last component of `path`, as [`last_component`] defines it.
pub fn path_last_component(path: &str) -> (r: Vec<char>)
    ensures
        r@ == last_component(path@),
{
    let c = chars_of(path);
    let mut n = c.len();
    assert(c@.subrange(0, n as int) =~= c@);
    loop
        invariant
            n <= c@.len(),
            c@ == path@,
            last_component(c@.subrange(0, n as int)) == last_component(c@),
        decreases n,
    {
        let p = crate::text::slice_chars(c.as_slice(), 0, n);
        let m = trim_slashes_len(p.as_slice());
        proof {
            lemma_last_component_strip(p@);
            lemma_strip_no_slash(p@);
            assert(p@ == c@.subrange(0, n as int));
            assert(p@.subrange(0, m as int) =~= c@.subrange(0, m as int));
            assert(last_component(c@.subrange(0, m as int)) == last_component(c@));
        }
        if m == 0 {
            proof {
                assert(c@.subrange(0, 0) =~= Seq::<char>::empty());
            }
            return Vec::new();
        }
        let q = crate::text::slice_chars(c.as_slice(), 0, m);
        assert(q@ == p@.subrange(0, m as int));
        let slash = chars_of("/");
        let seg = after_last_exec(q.as_slice(), slash.as_slice());
        proof {
            reveal_strlit(".");
            reveal_strlit("/");
            assert(q@.last() != '/');
        }
        if seg.len() == 1 && seg[0] == '.' {
            proof {
                assert(seg@ =~= "."@);
                assert(q@.drop_last() =~= c@.subrange(0, m - 1));
            }
            n = m - 1;
        } else {
            proof {
                assert(seg@ != "."@);
            }
            return seg;
        }
    }
}

/// What is left once trailing `/`s are stripped does not end in `/`.
pub proof fn lemma_strip_no_slash(p: Seq<char>)
    ensures
        strip_trailing_slashes(p).len() <= p.len(),
        strip_trailing_slashes(p).len() > 0 ==> strip_trailing_slashes(p).last() != '/',
    decreases p.len(),
{
    if p.len() > 0 && p.last() == '/' {
        lemma_strip_no_slash(p.drop_last());
    }
}

/// `path` less its trailing `/`s has the same last component.
pub proof fn lemma_last_component_strip(p: Seq<char>)
    ensures
        last_component(p) == last_component(strip_trailing_slashes(p)),
    decreases p.len(),
{
    if p.len() > 0 && p.last() == '/' {
        lemma_last_component_strip(p.drop_last());
    }
}

/// The file name of `path`, as [`file_name`] defines it.
pub fn path_file_name(path: &str) -> (r: Option<String>)
    ensures
        crate::text::opt_chars(r) == file_name(path@),
{
    let c = path_last_component(path);
    let s = string_of(c.as_slice());
    proof {
        reveal_strlit("..");
    }
    if s.as_str().is_empty() || str_eq(s.as_str(), "..") {
        None
    } else {
        Some(s)
    }
}

/// The extension of `path`, as [`extension`] defines it.
pub fn path_extension(path: &str) -> (r: Option<String>)
    ensures
        r matches Some(e) ==> extension(path@) == Some(e@),
        r is None ==> extension(path@) is None,
{
    let name_s = match path_file_name(path) {
        Some(n) => n,
        None => { return None; },
    };
    let name = chars_of(name_s.as_str());
    let dot = chars_of(".");
    proof {
        reveal_strlit(".");
        assert(dot@.len() == 1);
    }
    match crate::text::rfind_exec(name.as_slice(), dot.as_slice()) {
        Some(k) => {
            if k == 0 {
                None
            } else {
                proof {
                    reveal_strlit(".");
                    assert(dot@.len() == 1);
                    assert(crate::text::occurs_at(name@, dot@, k as int));
                    assert(k + 1 <= name@.len());
                }
                let nl = name.len();
                let e = crate::text::slice_chars(name.as_slice(), k + 1, nl);
                Some(string_of(e.as_slice()))
            }
        },
        None => None,
    }
}

impl Language {
    /// Detect from a file path's extension, case-insensitively; `None` for
    /// files no analyzer handles.
    pub fn from_path(path: &str) -> (r: Option<Language>)
        ensures
            r == (match extension(path@) {
                Some(e) => language_of_ext(lower_seq(e)),
                None => None,
            }),
            r == language_of_path(path@),
    {
        let ext = match path_extension(path) {
            Some(e) => ascii_lower(e.as_str()),
            None => { return None; },
        };
        let e = ext.as_str();
        if str_eq(e, "rs") {
            Some(Language::Rust)
        } else if str_eq(e, "js") || str_eq(e, "mjs") || str_eq(e, "cjs") {
            Some(Language::JavaScript)
        } else if str_eq(e, "jsx") {
            Some(Language::Jsx)
        } else if str_eq(e, "ts") || str_eq(e, "mts") || str_eq(e, "cts") {
            Some(Language::TypeScript)
        } else if str_eq(e, "tsx") {
            Some(Language::Tsx)
        } else if str_eq(e, "py") || str_eq(e, "pyi") {
            Some(Language::Python)
        } else if str_eq(e, "java") {
            Some(Language::Java)
        } else if str_eq(e, "kt") || str_eq(e, "kts") {
            Some(Language::Kotlin)
        } else if str_eq(e, "vue") {
            Some(Language::Vue)
        } else if str_eq(e, "svelte") {
            Some(Language::Svelte)
        } else if str_eq(e, "go") {
            Some(Language::Go)
        } else if str_eq(e, "toml") {
            Some(Language::Toml)
        } else {
            None
        }
    }

    /// Coarse language group used for storage and `--language` filtering.
    pub fn group(&self) -> (r: &'static str)
        ensures
            r@ == group_of(*self),
    {
        match self {
            Language::Rust => "rust",
            Language::JavaScript | Language::Jsx => "javascript",
            Language::TypeScript | Language::Tsx => "typescript",
            Language::Python => "python",
            Language::Java => "java",
            Language::Kotlin => "kotlin",
            Language::Vue => "vue",
            Language::Svelte => "svelte",
            Language::Go => "go",
            Language::Toml => "toml",
        }
    }

    /// Whether an analyzer backend exists for this language: every variant has one.
    pub fn is_supported(&self) -> (r: bool)
        ensures
            r,
    {
        true
    }

    /// Match a user-supplied `--language` token (trimmed, any case) against
    /// this variant's group.
    pub fn matches_filter(&self, token: &str) -> (r: bool)
        ensures
            r == token_selects(lower_seq(trim(token@)), group_of(*self)),
    {
        let trimmed = crate::text::str_trim(token);
        let low = ascii_lower(trimmed.as_str());
        let t = low.as_str();
        let g = self.group();
        if str_eq(t, "js") {
            str_eq(g, "javascript")
        } else if str_eq(t, "ts") {
            str_eq(g, "typescript")
        } else if str_eq(t, "py") {
            str_eq(g, "python")
        } else if str_eq(t, "kt") {
            str_eq(g, "kotlin")
        } else if str_eq(t, "vue") {
            str_eq(g, "vue")
        } else if str_eq(t, "svelte") {
            str_eq(g, "svelte")
        } else {
            str_eq(t, g)
        }
    }
}

/// The language a path names by its extension, as [`Language::from_path`] gives it.
pub open spec fn language_of_path(path: Seq<char>) -> Option<Language> {
    match extension(path) {
        Some(e) => language_of_ext(lower_seq(e)),
        None => None,
    }
}

/// Python files are indexed: every path whose extension is `py` or `pyi`
/// in any case names Python, and no other language names a path with
/// such an extension.
pub proof fn law_python_paths(path: Seq<char>)
    ensures
        (extension(path) matches Some(e) && (lower_seq(e) == "py"@ || lower_seq(e) == "pyi"@))
            ==> language_of_path(path) == Some(Language::Python),
        language_of_path(path) == Some(Language::Python) ==>
            (extension(path) matches Some(e) && (lower_seq(e) == "py"@ || lower_seq(e) == "pyi"@)),
{
    lemma_extension_literals();
}

/// Each known extension names its language, whatever its case, and a path
/// without an extension names none.
pub proof fn law_extension_languages(path: Seq<char>)
    ensures
        (extension(path) matches Some(e) && lower_seq(e) == "rs"@) ==> language_of_path(path) == Some(Language::Rust),
        (extension(path) matches Some(e) && lower_seq(e) == "py"@) ==> language_of_path(path) == Some(Language::Python),
        (extension(path) matches Some(e) && lower_seq(e) == "go"@) ==> language_of_path(path) == Some(Language::Go),
        (extension(path) matches Some(e) && lower_seq(e) == "java"@) ==> language_of_path(path) == Some(Language::Java),
        (extension(path) matches Some(e) && lower_seq(e) == "ts"@) ==> language_of_path(path) == Some(Language::TypeScript),
        (extension(path) matches Some(e) && lower_seq(e) == "js"@) ==> language_of_path(path) == Some(Language::JavaScript),
        (extension(path) matches Some(e) && lower_seq(e) == "mjs"@) ==> language_of_path(path) == Some(Language::JavaScript),
        (extension(path) matches Some(e) && lower_seq(e) == "cjs"@) ==> language_of_path(path) == Some(Language::JavaScript),
        (extension(path) matches Some(e) && lower_seq(e) == "jsx"@) ==> language_of_path(path) == Some(Language::Jsx),
        (extension(path) matches Some(e) && lower_seq(e) == "mts"@) ==> language_of_path(path) == Some(Language::TypeScript),
        (extension(path) matches Some(e) && lower_seq(e) == "cts"@) ==> language_of_path(path) == Some(Language::TypeScript),
        (extension(path) matches Some(e) && lower_seq(e) == "tsx"@) ==> language_of_path(path) == Some(Language::Tsx),
        (extension(path) matches Some(e) && lower_seq(e) == "pyi"@) ==> language_of_path(path) == Some(Language::Python),
        (extension(path) matches Some(e) && lower_seq(e) == "kt"@) ==> language_of_path(path) == Some(Language::Kotlin),
        (extension(path) matches Some(e) && lower_seq(e) == "kts"@) ==> language_of_path(path) == Some(Language::Kotlin),
        (extension(path) matches Some(e) && lower_seq(e) == "vue"@) ==> language_of_path(path) == Some(Language::Vue),
        (extension(path) matches Some(e) && lower_seq(e) == "svelte"@) ==> language_of_path(path) == Some(Language::Svelte),
        (extension(path) matches Some(e) && lower_seq(e) == "toml"@) ==> language_of_path(path) == Some(Language::Toml),
        extension(path) is None ==> language_of_path(path) is None,
{
    lemma_extension_literals();
    assert("jsx"@ != "rs"@ && "jsx"@ != "js"@ && "jsx"@ != "mjs"@ && "jsx"@ != "cjs"@) by {
        reveal_strlit("jsx");
        reveal_strlit("mjs");
        reveal_strlit("cjs");
        reveal_strlit("rs");
        reveal_strlit("js");
        assert("jsx"@.len() == 3 && "rs"@.len() == 2 && "js"@.len() == 2);
        assert("jsx"@[0] != "mjs"@[0] && "jsx"@[0] != "cjs"@[0]);
    }
    assert("tsx"@ != "rs"@ && "tsx"@ != "js"@ && "tsx"@ != "mjs"@ && "tsx"@ != "cjs"@ && "tsx"@ != "jsx"@
        && "tsx"@ != "ts"@ && "tsx"@ != "mts"@ && "tsx"@ != "cts"@) by {
        reveal_strlit("tsx");
        reveal_strlit("jsx");
        reveal_strlit("mjs");
        reveal_strlit("cjs");
        reveal_strlit("mts");
        reveal_strlit("cts");
        reveal_strlit("rs");
        reveal_strlit("js");
        reveal_strlit("ts");
        assert("tsx"@.len() == 3 && "rs"@.len() == 2 && "js"@.len() == 2 && "ts"@.len() == 2);
        assert("tsx"@[0] != "mjs"@[0] && "tsx"@[0] != "cjs"@[0] && "tsx"@[0] != "jsx"@[0]);
        assert("tsx"@[0] != "mts"@[0] && "tsx"@[0] != "cts"@[0]);
    }
}

/// The extensions the languages are known by, letter by letter.
proof fn lemma_extension_literals()
    ensures
        "rs"@ == seq!['r', 's'],
        "js"@ == seq!['j', 's'],
        "mjs"@ == seq!['m', 'j', 's'],
        "cjs"@ == seq!['c', 'j', 's'],
        "jsx"@ == seq!['j', 's', 'x'],
        "ts"@ == seq!['t', 's'],
        "mts"@ == seq!['m', 't', 's'],
        "cts"@ == seq!['c', 't', 's'],
        "tsx"@ == seq!['t', 's', 'x'],
        "py"@ == seq!['p', 'y'],
        "pyi"@ == seq!['p', 'y', 'i'],
        "java"@ == seq!['j', 'a', 'v', 'a'],
        "kt"@ == seq!['k', 't'],
        "kts"@ == seq!['k', 't', 's'],
        "vue"@ == seq!['v', 'u', 'e'],
        "svelte"@ == seq!['s', 'v', 'e', 'l', 't', 'e'],
        "go"@ == seq!['g', 'o'],
        "toml"@ == seq!['t', 'o', 'm', 'l'],
{
    reveal_strlit("rs");
    assert("rs"@.len() == 2);
    assert("rs"@[0] == 'r');
    assert("rs"@[1] == 's');
    reveal_strlit("js");
    assert("js"@.len() == 2);
    assert("js"@[0] == 'j');
    assert("js"@[1] == 's');
    reveal_strlit("mjs");
    assert("mjs"@.len() == 3);
    assert("mjs"@[0] == 'm');
    assert("mjs"@[1] == 'j');
    assert("mjs"@[2] == 's');
    reveal_strlit("cjs");
    assert("cjs"@.len() == 3);
    assert("cjs"@[0] == 'c');
    assert("cjs"@[1] == 'j');
    assert("cjs"@[2] == 's');
    reveal_strlit("jsx");
    assert("jsx"@.len() == 3);
    assert("jsx"@[0] == 'j');
    assert("jsx"@[1] == 's');
    assert("jsx"@[2] == 'x');
    reveal_strlit("ts");
    assert("ts"@.len() == 2);
    assert("ts"@[0] == 't');
    assert("ts"@[1] == 's');
    reveal_strlit("mts");
    assert("mts"@.len() == 3);
    assert("mts"@[0] == 'm');
    assert("mts"@[1] == 't');
    assert("mts"@[2] == 's');
    reveal_strlit("cts");
    assert("cts"@.len() == 3);
    assert("cts"@[0] == 'c');
    assert("cts"@[1] == 't');
    assert("cts"@[2] == 's');
    reveal_strlit("tsx");
    assert("tsx"@.len() == 3);
    assert("tsx"@[0] == 't');
    assert("tsx"@[1] == 's');
    assert("tsx"@[2] == 'x');
    reveal_strlit("py");
    assert("py"@.len() == 2);
    assert("py"@[0] == 'p');
    assert("py"@[1] == 'y');
    reveal_strlit("pyi");
    assert("pyi"@.len() == 3);
    assert("pyi"@[0] == 'p');
    assert("pyi"@[1] == 'y');
    assert("pyi"@[2] == 'i');
    reveal_strlit("java");
    assert("java"@.len() == 4);
    assert("java"@[0] == 'j');
    assert("java"@[1] == 'a');
    assert("java"@[2] == 'v');
    assert("java"@[3] == 'a');
    reveal_strlit("kt");
    assert("kt"@.len() == 2);
    assert("kt"@[0] == 'k');
    assert("kt"@[1] == 't');
    reveal_strlit("kts");
    assert("kts"@.len() == 3);
    assert("kts"@[0] == 'k');
    assert("kts"@[1] == 't');
    assert("kts"@[2] == 's');
    reveal_strlit("vue");
    assert("vue"@.len() == 3);
    assert("vue"@[0] == 'v');
    assert("vue"@[1] == 'u');
    assert("vue"@[2] == 'e');
    reveal_strlit("svelte");
    assert("svelte"@.len() == 6);
    assert("svelte"@[0] == 's');
    assert("svelte"@[1] == 'v');
    assert("svelte"@[2] == 'e');
    assert("svelte"@[3] == 'l');
    assert("svelte"@[4] == 't');
    assert("svelte"@[5] == 'e');
    reveal_strlit("go");
    assert("go"@.len() == 2);
    assert("go"@[0] == 'g');
    assert("go"@[1] == 'o');
    reveal_strlit("toml");
    assert("toml"@.len() == 4);
    assert("toml"@[0] == 't');
    assert("toml"@[1] == 'o');
    assert("toml"@[2] == 'm');
    assert("toml"@[3] == 'l');
    
    assert("rs"@ =~= seq!['r', 's']);
    assert("js"@ =~= seq!['j', 's']);
    assert("mjs"@ =~= seq!['m', 'j', 's']);
    assert("cjs"@ =~= seq!['c', 'j', 's']);
    assert("jsx"@ =~= seq!['j', 's', 'x']);
    assert("ts"@ =~= seq!['t', 's']);
    assert("mts"@ =~= seq!['m', 't', 's']);
    assert("cts"@ =~= seq!['c', 't', 's']);
    assert("tsx"@ =~= seq!['t', 's', 'x']);
    assert("py"@ =~= seq!['p', 'y']);
    assert("pyi"@ =~= seq!['p', 'y', 'i']);
    assert("java"@ =~= seq!['j', 'a', 'v', 'a']);
    assert("kt"@ =~= seq!['k', 't']);
    assert("kts"@ =~= seq!['k', 't', 's']);
    assert("vue"@ =~= seq!['v', 'u', 'e']);
    assert("svelte"@ =~= seq!['s', 'v', 'e', 'l', 't', 'e']);
    assert("go"@ =~= seq!['g', 'o']);
    assert("toml"@ =~= seq!['t', 'o', 'm', 'l']);
}

} // verus!
