//! The assistant's `settings.json` session hook that `setup` maintains: a
//! handler that runs `setup --print-reminder` when a session starts. Adding
//! it refreshes a handler we already own or appends a group of its own;
//! removing it drops only our handlers (and whatever that leaves empty).
//! Every other setting and hook stays as it was. Reading and writing the
//! file, and converting it to and from [`Json`], happen outside the library.

use vstd::prelude::*;
use crate::commands::setup_integrations::{Change, shell_path, spec_shell_path};
use crate::text::{chars_of, concat, contains, contains_exec, str_eq};

verus! {

/// A JSON document. Numbers keep their text; an object keeps its entries in
/// order.
#[derive(Debug)]
pub enum Json {
    Null,
    Bool(bool),
    Number(String),
    Str(String),
    Array(Vec<Json>),
    Object(Vec<(String, Json)>),
}

/// The mathematical value of a [`Json`].
pub enum JsonV {
    Null,
    Bool(bool),
    Number(Seq<char>),
    Str(Seq<char>),
    Array(Seq<JsonV>),
    Object(Seq<(Seq<char>, JsonV)>),
}

pub open spec fn jv(j: Json) -> JsonV
    decreases j,
{
    match j {
        Json::Null => JsonV::Null,
        Json::Bool(b) => JsonV::Bool(b),
        Json::Number(n) => JsonV::Number(n@),
        Json::Str(s) => JsonV::Str(s@),
        Json::Array(v) => JsonV::Array(jvs(v@)),
        Json::Object(v) => JsonV::Object(jvo(v@)),
    }
}

pub open spec fn jvs(s: Seq<Json>) -> Seq<JsonV>
    decreases s,
{
    if s.len() == 0 {
        Seq::empty()
    } else {
        jvs(s.drop_last()).push(jv(s.last()))
    }
}

pub open spec fn jvo(s: Seq<(String, Json)>) -> Seq<(Seq<char>, JsonV)>
    decreases s,
{
    if s.len() == 0 {
        Seq::empty()
    } else {
        jvo(s.drop_last()).push((s.last().0@, jv(s.last().1)))
    }
}


pub proof fn lemma_jvs(s: Seq<Json>)
    ensures
        jvs(s).len() == s.len(),
        forall|i: int| 0 <= i < s.len() ==> #[trigger] jvs(s)[i] == jv(s[i]),
    decreases s.len(),
{
    if s.len() > 0 {
        lemma_jvs(s.drop_last());
    }
}

pub proof fn lemma_jvo(s: Seq<(String, Json)>)
    ensures
        jvo(s).len() == s.len(),
        forall|i: int| 0 <= i < s.len() ==> #[trigger] jvo(s)[i] == (s[i].0@, jv(s[i].1)),
    decreases s.len(),
{
    if s.len() > 0 {
        lemma_jvo(s.drop_last());
    }
}

/// The text that marks a handler as ours.
pub const HOOK_MARKER: &'static str = "setup --print-reminder";

/// `i` is the first entry of `es` with key `k`.
pub open spec fn is_first_key(es: Seq<(Seq<char>, JsonV)>, k: Seq<char>, i: int) -> bool {
    &&& 0 <= i < es.len()
    &&& es[i].0 == k
    &&& forall|j: int| 0 <= j < i ==> es[j].0 != k
}

/// Where key `k` sits in an object's entries (its first entry).
pub open spec fn field_at(es: Seq<(Seq<char>, JsonV)>, k: Seq<char>) -> Option<int> {
    if exists|i: int| is_first_key(es, k, i) {
        Some(choose|i: int| is_first_key(es, k, i))
    } else {
        None
    }
}

/// The entries with key `k` set to `v`: in place when present, else appended.
pub open spec fn set_field(es: Seq<(Seq<char>, JsonV)>, k: Seq<char>, v: JsonV) -> Seq<(Seq<char>, JsonV)> {
    match field_at(es, k) {
        Some(i) => es.update(i, (k, v)),
        None => es.push((k, v)),
    }
}

/// The entries without key `k`.
pub open spec fn remove_field(es: Seq<(Seq<char>, JsonV)>, k: Seq<char>) -> Seq<(Seq<char>, JsonV)> {
    match field_at(es, k) {
        Some(i) => es.remove(i),
        None => es,
    }
}

/// A handler is ours when its `command` is a string holding [`HOOK_MARKER`].
pub open spec fn is_ours(h: JsonV) -> bool {
    match h {
        JsonV::Object(es) => match field_at(es, "command"@) {
            Some(i) => match es[i].1 {
                JsonV::Str(c) => contains(c, HOOK_MARKER@),
                _ => false,
            },
            None => false,
        },
        _ => false,
    }
}

/// The command our handler runs: the quoted executable, then the marker.
pub open spec fn hook_command(exe: Seq<char>) -> Seq<char> {
    "\""@ + spec_shell_path(exe) + "\" "@ + HOOK_MARKER@
}

/// A command handler with a ten-second timeout.
pub open spec fn handler_with(cmd: Seq<char>) -> JsonV {
    JsonV::Object(seq![("command"@, JsonV::Str(cmd)), ("timeout"@, JsonV::Number("10"@)), ("type"@, JsonV::Str("command"@))])
}

/// A group's handler list and where it sits, when its `hooks` is an array.
pub open spec fn group_hooks(g: JsonV) -> Option<(int, Seq<JsonV>)> {
    match g {
        JsonV::Object(es) => match field_at(es, "hooks"@) {
            Some(i) => match es[i].1 {
                JsonV::Array(hs) => Some((i, hs)),
                _ => None,
            },
            None => None,
        },
        _ => None,
    }
}

/// The group with its handler list replaced by `hs`.
pub open spec fn with_hooks(g: JsonV, hs: Seq<JsonV>) -> JsonV {
    match (g, group_hooks(g)) {
        (JsonV::Object(es), Some((i, _))) => JsonV::Object(es.update(i, (es[i].0, JsonV::Array(hs)))),
        _ => g,
    }
}

/// Whether one of the group's handlers is ours.
pub open spec fn owns_handler(g: JsonV) -> bool {
    match group_hooks(g) {
        Some((_, hs)) => exists|k: int| 0 <= k < hs.len() && is_ours(#[trigger] hs[k]),
        None => false,
    }
}

pub open spec fn refreshed(hs: Seq<JsonV>, hd: JsonV) -> Seq<JsonV> {
    hs.map_values(|h: JsonV| if is_ours(h) { hd } else { h })
}

/// The group with each of our handlers replaced by `hd`.
pub open spec fn refresh_group(g: JsonV, hd: JsonV) -> JsonV {
    match group_hooks(g) {
        Some((_, hs)) => with_hooks(g, refreshed(hs, hd)),
        None => g,
    }
}

/// The group `setup` appends when it owns no handler yet.
pub open spec fn new_group(hd: JsonV) -> JsonV {
    JsonV::Object(seq![("hooks"@, JsonV::Array(seq![hd])), ("matcher"@, JsonV::Str("startup|resume|clear|compact"@))])
}

/// The session groups after installing `hd`: our handlers refreshed in
/// place, or a new group of ours appended when there were none.
pub open spec fn installed_groups(gs: Seq<JsonV>, hd: JsonV) -> Seq<JsonV> {
    let r = gs.map_values(|g: JsonV| refresh_group(g, hd));
    if exists|k: int| 0 <= k < gs.len() && owns_handler(#[trigger] gs[k]) { r } else { r.push(new_group(hd)) }
}

/// Why the settings cannot be edited safely.
#[derive(Debug, PartialEq, Eq, Clone, Copy, Structural)]
pub enum SettingsError {
    /// The file does not hold a JSON object.
    NotAnObject,
    /// Its `hooks` is not an object.
    HooksNotAnObject,
    /// Its `hooks.SessionStart` is not an array.
    SessionStartNotAnArray,
}

/// The settings after installing our handler (running `exe`), or why not.
pub open spec fn spec_install(root: JsonV, exe: Seq<char>) -> Result<JsonV, SettingsError> {
    match root {
        JsonV::Object(es) => {
            let hooks = match field_at(es, "hooks"@) { Some(i) => es[i].1, None => JsonV::Object(seq![]) };
            match hooks {
                JsonV::Object(hes) => {
                    let session = match field_at(hes, "SessionStart"@) { Some(i) => hes[i].1, None => JsonV::Array(seq![]) };
                    match session {
                        JsonV::Array(gs) => Ok(JsonV::Object(set_field(es, "hooks"@, JsonV::Object(set_field(hes, "SessionStart"@,
                            JsonV::Array(installed_groups(gs, handler_with(hook_command(exe))))))))),
                        _ => Err(SettingsError::SessionStartNotAnArray),
                    }
                },
                _ => Err(SettingsError::HooksNotAnObject),
            }
        },
        _ => Err(SettingsError::NotAnObject),
    }
}


/// A copy of a JSON value.
pub fn clone_json(j: &Json) -> (r: Json)
    ensures
        jv(r) == jv(*j),
    decreases j,
{
    match j {
        Json::Null => Json::Null,
        Json::Bool(b) => Json::Bool(*b),
        Json::Number(n) => Json::Number(n.clone()),
        Json::Str(x) => Json::Str(x.clone()),
        Json::Array(v) => Json::Array(clone_items(v)),
        Json::Object(v) => Json::Object(clone_entries(v)),
    }
}

fn clone_items(v: &Vec<Json>) -> (r: Vec<Json>)
    ensures
        jvs(r@) == jvs(v@),
    decreases v,
{
    let mut out: Vec<Json> = Vec::new();
    let mut i: usize = 0;
    while i < v.len()
        invariant
            0 <= i <= v@.len(),
            out@.len() == i,
            forall|k: int| 0 <= k < i ==> jv(#[trigger] out@[k]) == jv(v@[k]),
        decreases v@.len() - i,
    {
        assert(decreases_to!(v => v@[i as int]));
        let c = clone_json(&v[i]);
        out.push(c);
        i = i + 1;
    }
    proof {
        lemma_jvs(out@);
        lemma_jvs(v@);
        assert(jvs(out@) =~= jvs(v@));
    }
    out
}

fn clone_entries(v: &Vec<(String, Json)>) -> (r: Vec<(String, Json)>)
    ensures
        jvo(r@) == jvo(v@),
    decreases v,
{
    let mut out: Vec<(String, Json)> = Vec::new();
    let mut i: usize = 0;
    while i < v.len()
        invariant
            0 <= i <= v@.len(),
            out@.len() == i,
            forall|k: int| 0 <= k < i ==> (#[trigger] out@[k]).0@ == v@[k].0@ && jv(out@[k].1) == jv(v@[k].1),
        decreases v@.len() - i,
    {
        assert(decreases_to!(v => v@[i as int].1));
        let c = clone_json(&v[i].1);
        out.push((v[i].0.clone(), c));
        i = i + 1;
    }
    proof {
        lemma_jvo(out@);
        lemma_jvo(v@);
        assert(jvo(out@) =~= jvo(v@));
    }
    out
}

/// Whether two JSON values are equal.
pub fn json_eq(a: &Json, b: &Json) -> (r: bool)
    ensures
        r == (jv(*a) == jv(*b)),
    decreases a,
{
    match (a, b) {
        (Json::Null, Json::Null) => true,
        (Json::Bool(x), Json::Bool(y)) => *x == *y,
        (Json::Number(x), Json::Number(y)) => str_eq(x.as_str(), y.as_str()),
        (Json::Str(x), Json::Str(y)) => str_eq(x.as_str(), y.as_str()),
        (Json::Array(x), Json::Array(y)) => items_eq(x, y),
        (Json::Object(x), Json::Object(y)) => entries_eq(x, y),
        _ => false,
    }
}

fn items_eq(x: &Vec<Json>, y: &Vec<Json>) -> (r: bool)
    ensures
        r == (jvs(x@) == jvs(y@)),
    decreases x,
{
    proof {
        lemma_jvs(x@);
        lemma_jvs(y@);
    }
    if x.len() != y.len() {
        return false;
    }
    let mut i: usize = 0;
    while i < x.len()
        invariant
            0 <= i <= x@.len(),
            x@.len() == y@.len(),
            jvs(x@).len() == x@.len(),
            jvs(y@).len() == y@.len(),
            forall|k: int| 0 <= k < x@.len() ==> #[trigger] jvs(x@)[k] == jv(x@[k]),
            forall|k: int| 0 <= k < y@.len() ==> #[trigger] jvs(y@)[k] == jv(y@[k]),
            forall|k: int| 0 <= k < i ==> jv(#[trigger] x@[k]) == jv(y@[k]),
        decreases x@.len() - i,
    {
        assert(decreases_to!(x => x@[i as int]));
        if !json_eq(&x[i], &y[i]) {
            assert(jvs(x@)[i as int] != jvs(y@)[i as int]);
            return false;
        }
        i = i + 1;
    }
    assert(jvs(x@) =~= jvs(y@));
    true
}

fn entries_eq(x: &Vec<(String, Json)>, y: &Vec<(String, Json)>) -> (r: bool)
    ensures
        r == (jvo(x@) == jvo(y@)),
    decreases x,
{
    proof {
        lemma_jvo(x@);
        lemma_jvo(y@);
    }
    if x.len() != y.len() {
        return false;
    }
    let mut i: usize = 0;
    while i < x.len()
        invariant
            0 <= i <= x@.len(),
            x@.len() == y@.len(),
            jvo(x@).len() == x@.len(),
            jvo(y@).len() == y@.len(),
            forall|k: int| 0 <= k < x@.len() ==> #[trigger] jvo(x@)[k] == (x@[k].0@, jv(x@[k].1)),
            forall|k: int| 0 <= k < y@.len() ==> #[trigger] jvo(y@)[k] == (y@[k].0@, jv(y@[k].1)),
            forall|k: int| 0 <= k < i ==> (#[trigger] x@[k]).0@ == y@[k].0@ && jv(x@[k].1) == jv(y@[k].1),
        decreases x@.len() - i,
    {
        assert(decreases_to!(x => x@[i as int].1));
        if !str_eq(x[i].0.as_str(), y[i].0.as_str()) || !json_eq(&x[i].1, &y[i].1) {
            assert(jvo(x@)[i as int] != jvo(y@)[i as int]);
            return false;
        }
        i = i + 1;
    }
    assert(jvo(x@) =~= jvo(y@));
    true
}


/// Where key `k` sits among an object's entries.
pub fn field_index(es: &Vec<(String, Json)>, k: &str) -> (r: Option<usize>)
    ensures
        r matches Some(x) ==> field_at(jvo(es@), k@) == Some(x as int),
        r is None ==> field_at(jvo(es@), k@) is None,
{
    proof {
        lemma_jvo(es@);
    }
    let ghost ev = jvo(es@);
    let mut i: usize = 0;
    while i < es.len()
        invariant
            0 <= i <= es@.len(),
            ev == jvo(es@),
            ev.len() == es@.len(),
            forall|j: int| 0 <= j < es@.len() ==> #[trigger] ev[j] == (es@[j].0@, jv(es@[j].1)),
            forall|j: int| 0 <= j < i ==> ev[j].0 != k@,
        decreases es@.len() - i,
    {
        if str_eq(es[i].0.as_str(), k) {
            assert(is_first_key(ev, k@, i as int));
            proof {
                let c = choose|c: int| is_first_key(ev, k@, c);
                if c < i {
                } else if i < c {
                }
            }
            return Some(i);
        }
        i = i + 1;
    }
    None
}

/// Whether a handler is ours (see [`is_ours`]).
pub fn is_ours_exec(h: &Json) -> (r: bool)
    ensures
        r == is_ours(jv(*h)),
{
    match h {
        Json::Object(es) => {
            proof {
                lemma_jvo(es@);
            }
            match field_index(es, "command") {
                Some(i) => {
                assert(jvo(es@)[i as int] == (es@[i as int].0@, jv(es@[i as int].1)));
                match &es[i].1 {
                    Json::Str(c) => {
                        let cc = chars_of(c.as_str());
                        let m = chars_of(HOOK_MARKER);
                        assert(jv(es@[i as int].1) == JsonV::Str(c@));
                        assert(field_at(jvo(es@), "command"@) == Some(i as int));
                        assert(jv(*h) == JsonV::Object(jvo(es@)));
                        let r = contains_exec(cc.as_slice(), m.as_slice());
                        assert(r == contains(c@, HOOK_MARKER@));
                        r
                    },
                    _ => false,
                }
                },
                None => false,
            }
        },
        _ => false,
    }
}

/// The command our handler runs (see [`hook_command`]).
pub fn hook_command_exec(exe_cmd: &str) -> (r: String)
    ensures
        r@ == hook_command(exe_cmd@),
{
    let p = shell_path(exe_cmd);
    let a = concat("\"", p.as_str());
    let b = concat(a.as_str(), "\" ");
    concat(b.as_str(), HOOK_MARKER)
}

/// Our handler for a command (see [`handler_with`]).
pub fn make_handler(cmd: &str) -> (r: Json)
    ensures
        jv(r) == handler_with(cmd@),
{
    let mut es: Vec<(String, Json)> = Vec::new();
    es.push(("command".to_string(), Json::Str(cmd.to_string())));
    es.push(("timeout".to_string(), Json::Number("10".to_string())));
    es.push(("type".to_string(), Json::Str("command".to_string())));
    proof {
        lemma_jvo(es@);
        assert(jvo(es@) =~= seq![("command"@, JsonV::Str(cmd@)), ("timeout"@, JsonV::Number("10"@)), ("type"@, JsonV::Str("command"@))]);
    }
    Json::Object(es)
}

/// A copy of the entries with entry `i` replaced by `(k, v)`, or with
/// `(k, v)` appended when `i` is `None`.
fn put_entry(es: &Vec<(String, Json)>, i: Option<usize>, k: &str, v: Json) -> (r: Vec<(String, Json)>)
    requires
        i matches Some(x) ==> x < es@.len(),
    ensures
        jvo(r@) == match i {
            Some(x) => jvo(es@).update(x as int, (k@, jv(v))),
            None => jvo(es@).push((k@, jv(v))),
        },
{
    proof {
        lemma_jvo(es@);
    }
    let mut out: Vec<(String, Json)> = Vec::new();
    let mut j: usize = 0;
    let ghost vv = jv(v);
    let mut val: Option<Json> = Some(v);
    while j < es.len()
        invariant
            0 <= j <= es@.len(),
            out@.len() == j,
            i matches Some(x) ==> x < es@.len(),
            jvo(es@).len() == es@.len(),
            forall|q: int| 0 <= q < es@.len() ==> #[trigger] jvo(es@)[q] == (es@[q].0@, jv(es@[q].1)),
            forall|q: int| 0 <= q < j ==> (#[trigger] out@[q]).0@ == (if i == Some(q as usize) { k@ } else { es@[q].0@ })
                && jv(out@[q].1) == (if i == Some(q as usize) { vv } else { jv(es@[q].1) }),
            (match i { Some(x) => x >= j, None => true }) ==> (val matches Some(w) && jv(w) == vv),
        decreases es@.len() - j,
    {
        if i == Some(j) {
            let w = match val.take() { Some(w) => w, None => Json::Null };
            out.push((k.to_string(), w));
        } else {
            out.push((es[j].0.clone(), clone_json(&es[j].1)));
        }
        j = j + 1;
    }
    if i.is_none() {
        let w = match val.take() { Some(w) => w, None => Json::Null };
        out.push((k.to_string(), w));
    }
    proof {
        lemma_jvo(out@);
        match i {
            Some(x) => { assert(jvo(out@) =~= jvo(es@).update(x as int, (k@, vv))); },
            None => { assert(jvo(out@) =~= jvo(es@).push((k@, vv))); },
        }
    }
    out
}


/// The handlers with each of ours replaced by `hd`.
fn refresh_handlers_exec(hs: &Vec<Json>, hd: &Json) -> (r: Vec<Json>)
    ensures
        jvs(r@) == refreshed(jvs(hs@), jv(*hd)),
{
    proof {
        lemma_jvs(hs@);
    }
    let mut out: Vec<Json> = Vec::new();
    let mut i: usize = 0;
    while i < hs.len()
        invariant
            0 <= i <= hs@.len(),
            out@.len() == i,
            jvs(hs@).len() == hs@.len(),
            forall|q: int| 0 <= q < hs@.len() ==> #[trigger] jvs(hs@)[q] == jv(hs@[q]),
            forall|q: int| 0 <= q < i ==> jv(#[trigger] out@[q]) == (if is_ours(jv(hs@[q])) { jv(*hd) } else { jv(hs@[q]) }),
        decreases hs@.len() - i,
    {
        if is_ours_exec(&hs[i]) {
            out.push(clone_json(hd));
        } else {
            out.push(clone_json(&hs[i]));
        }
        i = i + 1;
    }
    proof {
        lemma_jvs(out@);
        assert(jvs(out@) =~= refreshed(jvs(hs@), jv(*hd)));
    }
    out
}

/// Whether one of the group's handlers is ours (see [`owns_handler`]).
fn owns_handler_exec(g: &Json) -> (r: bool)
    ensures
        r == owns_handler(jv(*g)),
{
    match g {
        Json::Object(es) => {
            proof {
                lemma_jvo(es@);
            }
            match field_index(es, "hooks") {
                Some(i) => {
                    assert(jvo(es@)[i as int] == (es@[i as int].0@, jv(es@[i as int].1)));
                    match &es[i].1 {
                        Json::Array(hs) => {
                            proof {
                                lemma_jvs(hs@);
                            }
                            assert(group_hooks(jv(*g)) == Some((i as int, jvs(hs@))));
                            let mut k: usize = 0;
                            while k < hs.len()
                                invariant
                                    0 <= k <= hs@.len(),
                                    jvs(hs@).len() == hs@.len(),
                                    forall|q: int| 0 <= q < hs@.len() ==> #[trigger] jvs(hs@)[q] == jv(hs@[q]),
                                    forall|q: int| 0 <= q < k ==> !is_ours(#[trigger] jvs(hs@)[q]),
                                    group_hooks(jv(*g)) == Some((i as int, jvs(hs@))),
                                decreases hs@.len() - k,
                            {
                                if is_ours_exec(&hs[k]) {
                                    assert(is_ours(jvs(hs@)[k as int]));
                                    assert(exists|q: int| 0 <= q < jvs(hs@).len() && is_ours(#[trigger] jvs(hs@)[q]));
                                    let ghost gg = group_hooks(jv(*g));
                                    assert(gg matches Some((_, x)) && x == jvs(hs@));
                                    return true;
                                }
                                k = k + 1;
                            }
                            false
                        },
                        _ => false,
                    }
                },
                None => false,
            }
        },
        _ => false,
    }
}

/// The group with each of our handlers replaced by `hd` (see [`refresh_group`]).
fn refresh_group_exec(g: &Json, hd: &Json) -> (r: Json)
    ensures
        jv(r) == refresh_group(jv(*g), jv(*hd)),
{
    match g {
        Json::Object(es) => {
            proof {
                lemma_jvo(es@);
            }
            match field_index(es, "hooks") {
                Some(i) => {
                    assert(jvo(es@)[i as int] == (es@[i as int].0@, jv(es@[i as int].1)));
                    match &es[i].1 {
                        Json::Array(hs) => {
                            assert(group_hooks(jv(*g)) == Some((i as int, jvs(hs@))));
                            let nhs = refresh_handlers_exec(hs, hd);
                            let ghost nv = jvs(nhs@);
                            let out = put_entry(es, Some(i), es[i].0.as_str(), Json::Array(nhs));
                            Json::Object(out)
                        },
                        _ => clone_json(g),
                    }
                },
                None => clone_json(g),
            }
        },
        _ => clone_json(g),
    }
}

/// The session groups after installing `hd` (see [`installed_groups`]).
fn install_groups_exec(gs: &Vec<Json>, hd: &Json) -> (r: Vec<Json>)
    ensures
        jvs(r@) == installed_groups(jvs(gs@), jv(*hd)),
{
    proof {
        lemma_jvs(gs@);
    }
    let ghost gv = jvs(gs@);
    let mut out: Vec<Json> = Vec::new();
    let mut found = false;
    let mut i: usize = 0;
    while i < gs.len()
        invariant
            0 <= i <= gs@.len(),
            out@.len() == i,
            gv == jvs(gs@),
            gv.len() == gs@.len(),
            forall|q: int| 0 <= q < gs@.len() ==> #[trigger] gv[q] == jv(gs@[q]),
            forall|q: int| 0 <= q < i ==> jv(#[trigger] out@[q]) == refresh_group(gv[q], jv(*hd)),
            found == exists|q: int| 0 <= q < i && owns_handler(#[trigger] gv[q]),
        decreases gs@.len() - i,
    {
        let owns = owns_handler_exec(&gs[i]);
        proof {
            assert(gv[i as int] == jv(gs@[i as int]));
            if owns {
                assert(owns_handler(gv[i as int]));
            }
            if !found && !owns {
                assert forall|q: int| 0 <= q < i + 1 implies !owns_handler(#[trigger] gv[q]) by {
                    if q < i {
                    }
                }
            }
        }
        if owns {
            found = true;
        }
        out.push(refresh_group_exec(&gs[i], hd));
        i = i + 1;
    }
    let ghost mapped = gv.map_values(|g: JsonV| refresh_group(g, jv(*hd)));
    proof {
        lemma_jvs(out@);
        assert(jvs(out@) =~= mapped);
    }
    if !found {
        let ghost before = out@;
        out.push(Json::Object(new_group_entries(hd)));
        proof {
            lemma_jvs(out@);
            lemma_jvs(before);
            assert(jvs(out@) =~= mapped.push(new_group(jv(*hd))));
        }
    }
    out
}

fn new_group_entries(hd: &Json) -> (r: Vec<(String, Json)>)
    ensures
        JsonV::Object(jvo(r@)) == new_group(jv(*hd)),
{
    let mut hs: Vec<Json> = Vec::new();
    hs.push(clone_json(hd));
    proof {
        lemma_jvs(hs@);
        assert(jvs(hs@) =~= seq![jv(*hd)]);
    }
    let mut es: Vec<(String, Json)> = Vec::new();
    es.push(("hooks".to_string(), Json::Array(hs)));
    es.push(("matcher".to_string(), Json::Str("startup|resume|clear|compact".to_string())));
    proof {
        lemma_jvo(es@);
        assert(jvo(es@) =~= seq![("hooks"@, JsonV::Array(seq![jv(*hd)])), ("matcher"@, JsonV::Str("startup|resume|clear|compact"@))]);
    }
    es
}

/// Add our session-start handler (running `exe_cmd`) to the settings, or
/// refresh the one already there; no file yet counts as `{}`. Every other
/// setting and hook is kept. The change is `Created` without a file,
/// `Unchanged` when the settings come out equal, `Updated` otherwise.
pub fn plan_session_hook(settings: Option<&Json>, exe_cmd: &str) -> (r: Result<(Json, Change), SettingsError>)
    ensures
        ({
            let root = match settings { Some(j) => jv(*j), None => JsonV::Object(seq![]) };
            match spec_install(root, exe_cmd@) {
                Err(e) => r == Err::<(Json, Change), SettingsError>(e),
                Ok(v) => r matches Ok((j, c)) && jv(j) == v && c == (match settings {
                    None => Change::Created,
                    Some(_) => if v == root { Change::Unchanged } else { Change::Updated },
                }),
            }
        }),
{
    let empty = Json::Object(Vec::new());
    let root: &Json = match settings { Some(j) => j, None => &empty };
    assert(jv(empty) == JsonV::Object(seq![])) by {
        assert(jvo(Seq::<(String, Json)>::empty()) =~= Seq::<(Seq<char>, JsonV)>::empty());
    }
    let es = match root {
        Json::Object(es) => es,
        _ => { return Err(SettingsError::NotAnObject); },
    };
    proof {
        lemma_jvo(es@);
    }
    let empty_h = Json::Object(Vec::new());
    assert(jv(empty_h) == JsonV::Object(seq![])) by {
        assert(jvo(Seq::<(String, Json)>::empty()) =~= Seq::<(Seq<char>, JsonV)>::empty());
    }
    let hi = field_index(es, "hooks");
    let hooks: &Json = match hi {
        Some(i) => {
            assert(jvo(es@)[i as int] == (es@[i as int].0@, jv(es@[i as int].1)));
            &es[i].1
        },
        None => &empty_h,
    };
    let hes = match hooks {
        Json::Object(h) => h,
        _ => { return Err(SettingsError::HooksNotAnObject); },
    };
    proof {
        lemma_jvo(hes@);
    }
    let empty_a = Json::Array(Vec::new());
    assert(jv(empty_a) == JsonV::Array(seq![])) by {
        assert(jvs(Seq::<Json>::empty()) =~= Seq::<JsonV>::empty());
    }
    let si = field_index(hes, "SessionStart");
    let session: &Json = match si {
        Some(i) => {
            assert(jvo(hes@)[i as int] == (hes@[i as int].0@, jv(hes@[i as int].1)));
            &hes[i].1
        },
        None => &empty_a,
    };
    let gs = match session {
        Json::Array(g) => g,
        _ => { return Err(SettingsError::SessionStartNotAnArray); },
    };
    let cmd = hook_command_exec(exe_cmd);
    let hd = make_handler(cmd.as_str());
    let new_gs = install_groups_exec(gs, &hd);
    let new_hes = put_entry(hes, si, "SessionStart", Json::Array(new_gs));
    let new_es = put_entry(es, hi, "hooks", Json::Object(new_hes));
    let out = Json::Object(new_es);
    let change = match settings {
        None => Change::Created,
        Some(_) => if json_eq(&out, root) { Change::Unchanged } else { Change::Updated },
    };
    Ok((out, change))
}


/// The handlers that are not ours.
pub open spec fn without_ours(hs: Seq<JsonV>) -> Seq<JsonV> {
    hs.filter(|h: JsonV| !is_ours(h))
}

/// The group with our handlers taken out.
pub open spec fn strip_group(g: JsonV) -> JsonV {
    match group_hooks(g) {
        Some((_, hs)) => with_hooks(g, without_ours(hs)),
        None => g,
    }
}

/// A group whose handler list is an empty array.
pub open spec fn emptied(g: JsonV) -> bool {
    group_hooks(g) matches Some((_, hs)) && hs.len() == 0
}

pub open spec fn stripped(gs: Seq<JsonV>) -> Seq<JsonV> {
    gs.map_values(|g: JsonV| strip_group(g))
}

/// The session groups after removing our handlers: each stripped, then
/// those left with an empty handler list dropped.
pub open spec fn removed_groups(gs: Seq<JsonV>) -> Seq<JsonV> {
    stripped(gs).filter(|g: JsonV| !emptied(g))
}

/// The settings' entries after removing our handlers: `None` when there is
/// none to remove; `Some` of the new top-level entries otherwise, with an
/// emptied `SessionStart`, and then an emptied `hooks`, taken out.
pub open spec fn spec_remove(root: JsonV) -> Result<Option<Seq<(Seq<char>, JsonV)>>, SettingsError> {
    match root {
        JsonV::Object(es) => match field_at(es, "hooks"@) {
            Some(i) => match es[i].1 {
                JsonV::Object(hes) => match field_at(hes, "SessionStart"@) {
                    Some(j) => match hes[j].1 {
                        JsonV::Array(gs) => if exists|k: int| 0 <= k < gs.len() && owns_handler(#[trigger] gs[k]) {
                            let kept = removed_groups(gs);
                            let hes2 = if kept.len() == 0 { hes.remove(j) } else { hes.update(j, (hes[j].0, JsonV::Array(kept))) };
                            Ok(Some(if hes2.len() == 0 { es.remove(i) } else { es.update(i, (es[i].0, JsonV::Object(hes2))) }))
                        } else {
                            Ok(None)
                        },
                        _ => Ok(None),
                    },
                    None => Ok(None),
                },
                _ => Ok(None),
            },
            None => Ok(None),
        },
        _ => Err(SettingsError::NotAnObject),
    }
}

/// What removing our handler does to the settings file.
#[derive(Debug)]
pub enum HookRemoval {
    /// No handler of ours: leave the file alone.
    NotPresent,
    /// Write these settings back.
    Write(Json),
    /// Nothing is left: delete the file.
    Delete,
}

fn without_ours_exec(hs: &Vec<Json>) -> (r: Vec<Json>)
    ensures
        jvs(r@) == without_ours(jvs(hs@)),
{
    broadcast use Seq::lemma_filter_push;
    proof {
        lemma_jvs(hs@);
    }
    let ghost hv = jvs(hs@);
    let ghost f = |h: JsonV| !is_ours(h);
    let mut out: Vec<Json> = Vec::new();
    let mut i: usize = 0;
    assert(hv.take(0) =~= Seq::<JsonV>::empty());
    assert(jvs(out@) =~= Seq::<JsonV>::empty());
    while i < hs.len()
        invariant
            0 <= i <= hs@.len(),
            hv == jvs(hs@),
            hv.len() == hs@.len(),
            f == (|h: JsonV| !is_ours(h)),
            forall|q: int| 0 <= q < hs@.len() ==> #[trigger] hv[q] == jv(hs@[q]),
            jvs(out@) == hv.take(i as int).filter(f),
        decreases hs@.len() - i,
    {
        let ghost before = out@;
        assert(hv.take(i + 1) =~= hv.take(i as int).push(hv[i as int]));
        proof {
            hv.take(i as int).lemma_filter_push(hv[i as int], f);
        }
        if !is_ours_exec(&hs[i]) {
            let c = clone_json(&hs[i]);
            out.push(c);
            assert(out@.drop_last() =~= before);
            assert(jvs(out@) == jvs(before).push(jv(c)));
        }
        i = i + 1;
    }
    assert(hv.take(hs@.len() as int) =~= hv);
    out
}

/// The group with our handlers taken out (see [`strip_group`]).
fn strip_group_exec(g: &Json) -> (r: Json)
    ensures
        jv(r) == strip_group(jv(*g)),
{
    match g {
        Json::Object(es) => {
            proof {
                lemma_jvo(es@);
            }
            match field_index(es, "hooks") {
                Some(i) => {
                    assert(jvo(es@)[i as int] == (es@[i as int].0@, jv(es@[i as int].1)));
                    match &es[i].1 {
                        Json::Array(hs) => {
                            assert(group_hooks(jv(*g)) == Some((i as int, jvs(hs@))));
                            let nhs = without_ours_exec(hs);
                            Json::Object(put_entry(es, Some(i), es[i].0.as_str(), Json::Array(nhs)))
                        },
                        _ => clone_json(g),
                    }
                },
                None => clone_json(g),
            }
        },
        _ => clone_json(g),
    }
}

/// Whether a group's handler list is an empty array (see [`emptied`]).
fn emptied_exec(g: &Json) -> (r: bool)
    ensures
        r == emptied(jv(*g)),
{
    match g {
        Json::Object(es) => {
            proof {
                lemma_jvo(es@);
            }
            match field_index(es, "hooks") {
                Some(i) => {
                    assert(jvo(es@)[i as int] == (es@[i as int].0@, jv(es@[i as int].1)));
                    match &es[i].1 {
                        Json::Array(hs) => {
                            proof {
                                lemma_jvs(hs@);
                            }
                            assert(group_hooks(jv(*g)) == Some((i as int, jvs(hs@))));
                            hs.len() == 0
                        },
                        _ => false,
                    }
                },
                None => false,
            }
        },
        _ => false,
    }
}

fn removed_groups_exec(gs: &Vec<Json>) -> (r: Vec<Json>)
    ensures
        jvs(r@) == removed_groups(jvs(gs@)),
{
    broadcast use Seq::lemma_filter_push;
    proof {
        lemma_jvs(gs@);
    }
    let ghost gv = jvs(gs@);
    let ghost f = |g: JsonV| !emptied(g);
    let mut out: Vec<Json> = Vec::new();
    let mut i: usize = 0;
    assert(stripped(gv.take(0)) =~= Seq::<JsonV>::empty());
    assert(jvs(out@) =~= Seq::<JsonV>::empty());
    while i < gs.len()
        invariant
            0 <= i <= gs@.len(),
            gv == jvs(gs@),
            gv.len() == gs@.len(),
            f == (|g: JsonV| !emptied(g)),
            forall|q: int| 0 <= q < gs@.len() ==> #[trigger] gv[q] == jv(gs@[q]),
            jvs(out@) == stripped(gv.take(i as int)).filter(f),
        decreases gs@.len() - i,
    {
        let ghost before = out@;
        let sg = strip_group_exec(&gs[i]);
        assert(stripped(gv.take(i + 1)) =~= stripped(gv.take(i as int)).push(strip_group(gv[i as int])));
        proof {
            stripped(gv.take(i as int)).lemma_filter_push(strip_group(gv[i as int]), f);
        }
        let ghost sgv = jv(sg);
        if !emptied_exec(&sg) {
            out.push(sg);
            assert(out@.drop_last() =~= before);
            assert(jvs(out@) == jvs(before).push(sgv));
        }
        i = i + 1;
    }
    assert(gv.take(gs@.len() as int) =~= gv);
    out
}

/// A copy of the entries without entry `i`.
fn drop_entry(es: &Vec<(String, Json)>, i: usize) -> (r: Vec<(String, Json)>)
    requires
        i < es@.len(),
    ensures
        jvo(r@) == jvo(es@).remove(i as int),
{
    proof {
        lemma_jvo(es@);
    }
    let mut out: Vec<(String, Json)> = Vec::new();
    let mut j: usize = 0;
    while j < es.len()
        invariant
            0 <= j <= es@.len(),
            i < es@.len(),
            out@.len() == (if j <= i { j as int } else { j - 1 }),
            jvo(es@).len() == es@.len(),
            forall|q: int| 0 <= q < es@.len() ==> #[trigger] jvo(es@)[q] == (es@[q].0@, jv(es@[q].1)),
            forall|q: int| 0 <= q < out@.len() ==> {
                let src = if q < i { q } else { q + 1 };
                (#[trigger] out@[q]).0@ == es@[src].0@ && jv(out@[q].1) == jv(es@[src].1)
            },
        decreases es@.len() - j,
    {
        if j != i {
            out.push((es[j].0.clone(), clone_json(&es[j].1)));
        }
        j = j + 1;
    }
    proof {
        lemma_jvo(out@);
        assert(jvo(out@) =~= jvo(es@).remove(i as int));
    }
    out
}

/// Take our session-start handler out of the settings (`None`: no file).
/// Only our handlers go, then groups left without handlers, then an empty
/// `SessionStart` and an empty `hooks`; the file goes when nothing is left.
pub fn plan_remove_session_hook(settings: Option<&Json>) -> (r: Result<HookRemoval, SettingsError>)
    ensures
        settings is None ==> r matches Ok(HookRemoval::NotPresent),
        settings matches Some(j) ==> match spec_remove(jv(*j)) {
            Err(e) => r == Err::<HookRemoval, SettingsError>(e),
            Ok(None) => r matches Ok(HookRemoval::NotPresent),
            Ok(Some(es)) => if es.len() == 0 {
                r matches Ok(HookRemoval::Delete)
            } else {
                r matches Ok(HookRemoval::Write(x)) && jv(x) == JsonV::Object(es)
            },
        },
{
    let root = match settings {
        Some(j) => j,
        None => { return Ok(HookRemoval::NotPresent); },
    };
    let es = match root {
        Json::Object(es) => es,
        _ => { return Err(SettingsError::NotAnObject); },
    };
    proof {
        lemma_jvo(es@);
    }
    let i = match field_index(es, "hooks") {
        Some(i) => i,
        None => { return Ok(HookRemoval::NotPresent); },
    };
    assert(jvo(es@)[i as int] == (es@[i as int].0@, jv(es@[i as int].1)));
    let hes = match &es[i].1 {
        Json::Object(h) => h,
        _ => { return Ok(HookRemoval::NotPresent); },
    };
    proof {
        lemma_jvo(hes@);
    }
    let j = match field_index(hes, "SessionStart") {
        Some(j) => j,
        None => { return Ok(HookRemoval::NotPresent); },
    };
    assert(jvo(hes@)[j as int] == (hes@[j as int].0@, jv(hes@[j as int].1)));
    let gs = match &hes[j].1 {
        Json::Array(g) => g,
        _ => { return Ok(HookRemoval::NotPresent); },
    };
    proof {
        lemma_jvs(gs@);
    }
    let ghost gv = jvs(gs@);
    let mut k: usize = 0;
    let mut any = false;
    while k < gs.len()
        invariant
            0 <= k <= gs@.len(),
            gv == jvs(gs@),
            gv.len() == gs@.len(),
            forall|q: int| 0 <= q < gs@.len() ==> #[trigger] gv[q] == jv(gs@[q]),
            !any ==> forall|q: int| 0 <= q < k ==> !owns_handler(#[trigger] gv[q]),
            any ==> exists|q: int| 0 <= q < gs@.len() && owns_handler(#[trigger] gv[q]),
        decreases gs@.len() - k,
    {
        if owns_handler_exec(&gs[k]) {
            assert(owns_handler(gv[k as int]));
            any = true;
        }
        k = k + 1;
    }
    if !any {
        return Ok(HookRemoval::NotPresent);
    }
    let kept = removed_groups_exec(gs);
    let new_hes = if kept.len() == 0 {
        proof {
            lemma_jvs(kept@);
        }
        drop_entry(hes, j)
    } else {
        proof {
            lemma_jvs(kept@);
        }
        put_entry(hes, Some(j), hes[j].0.as_str(), Json::Array(kept))
    };
    proof {
        lemma_jvo(new_hes@);
    }
    let new_es = if new_hes.len() == 0 {
        drop_entry(es, i)
    } else {
        put_entry(es, Some(i), es[i].0.as_str(), Json::Object(new_hes))
    };
    proof {
        lemma_jvo(new_es@);
    }
    if new_es.len() == 0 {
        Ok(HookRemoval::Delete)
    } else {
        Ok(HookRemoval::Write(Json::Object(new_es)))
    }
}

} // verus!
