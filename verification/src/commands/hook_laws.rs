//! Laws of installing the session hook: a second installation changes
//! nothing.

use vstd::prelude::*;
use crate::commands::hook_settings::{JsonV, HOOK_MARKER, field_at, is_first_key, set_field, is_ours, hook_command,
    handler_with, group_hooks, with_hooks, owns_handler, refreshed, refresh_group, new_group, installed_groups, spec_install};
use crate::text::{contains, occurs_at};

verus! {

/// An entry list has at most one first entry for a key.
pub proof fn lemma_first_key_unique(es: Seq<(Seq<char>, JsonV)>, k: Seq<char>, i: int, j: int)
    requires
        is_first_key(es, k, i),
        is_first_key(es, k, j),
    ensures
        i == j,
{
    if i < j {
        assert(es[i].0 == k);
    } else if j < i {
        assert(es[j].0 == k);
    }
}

/// A key that occurs has a first entry.
pub proof fn lemma_first_key_exists(es: Seq<(Seq<char>, JsonV)>, k: Seq<char>, j: int)
    requires
        0 <= j < es.len(),
        es[j].0 == k,
    ensures
        exists|i: int| is_first_key(es, k, i),
    decreases j,
{
    if exists|j2: int| 0 <= j2 < j && es[j2].0 == k {
        let j2 = choose|j2: int| 0 <= j2 < j && es[j2].0 == k;
        lemma_first_key_exists(es, k, j2);
    } else {
        assert(is_first_key(es, k, j));
    }
}

/// [`field_at`] finds exactly the first entry for the key.
pub proof fn lemma_field_at_is(es: Seq<(Seq<char>, JsonV)>, k: Seq<char>, i: int)
    requires
        is_first_key(es, k, i),
    ensures
        field_at(es, k) == Some(i),
{
    let j = choose|j: int| is_first_key(es, k, j);
    lemma_first_key_unique(es, k, i, j);
}

/// Changing the value of the first entry for `k` keeps it first.
pub proof fn lemma_field_at_update(es: Seq<(Seq<char>, JsonV)>, k: Seq<char>, i: int, v: JsonV)
    requires
        is_first_key(es, k, i),
    ensures
        field_at(es.update(i, (k, v)), k) == Some(i),
{
    let es2 = es.update(i, (k, v));
    assert(is_first_key(es2, k, i)) by {
        assert forall|j: int| 0 <= j < i implies es2[j].0 != k by {
            assert(es2[j] == es[j]);
        }
    }
    lemma_field_at_is(es2, k, i);
}

/// Setting `k` to `v` leaves an entry list whose first `k` entry holds `v`,
/// so setting it to `v` again changes nothing.
pub proof fn lemma_set_field_twice(es: Seq<(Seq<char>, JsonV)>, k: Seq<char>, v: JsonV)
    ensures
        ({
            let es2 = set_field(es, k, v);
            &&& field_at(es2, k) matches Some(j) && es2[j] == (k, v)
            &&& set_field(es2, k, v) == es2
        }),
{
    let es2 = set_field(es, k, v);
    match field_at(es, k) {
        Some(i) => {
            assert(is_first_key(es, k, i));
            lemma_field_at_update(es, k, i, v);
            assert(es2.update(i, (k, v)) =~= es2);
        },
        None => {
            let n = es.len() as int;
            assert(is_first_key(es2, k, n)) by {
                assert forall|j: int| 0 <= j < n implies es2[j].0 != k by {
                    if es2[j].0 == k {
                        assert(es[j].0 == k);
                        lemma_first_key_exists(es, k, j);
                    }
                }
            }
            lemma_field_at_is(es2, k, n);
            assert(es2.update(n, (k, v)) =~= es2);
        },
    }
}

/// Our handler is ours: its command ends with the marker.
pub proof fn lemma_handler_is_ours(exe: Seq<char>)
    ensures
        is_ours(handler_with(hook_command(exe))),
{
    let cmd = hook_command(exe);
    let es = seq![("command"@, JsonV::Str(cmd)), ("timeout"@, JsonV::Number("10"@)), ("type"@, JsonV::Str("command"@))];
    assert(is_first_key(es, "command"@, 0));
    lemma_field_at_is(es, "command"@, 0);
    let m = HOOK_MARKER@;
    let at = cmd.len() - m.len();
    assert(cmd.subrange(at, at + m.len()) =~= m);
    assert(occurs_at(cmd, m, at));
    assert(contains(cmd, m));
}

/// Refreshing a handler list twice is refreshing it once, when the new
/// handler is ours.
pub proof fn lemma_refreshed_twice(hs: Seq<JsonV>, hd: JsonV)
    requires
        is_ours(hd),
    ensures
        refreshed(refreshed(hs, hd), hd) == refreshed(hs, hd),
{
    assert(refreshed(refreshed(hs, hd), hd) =~= refreshed(hs, hd));
}

/// A refreshed group keeps its handler list where it was, with the list refreshed.
pub proof fn lemma_refresh_group_hooks(g: JsonV, hd: JsonV)
    ensures
        group_hooks(g) matches Some((i, hs)) ==> group_hooks(refresh_group(g, hd)) == Some((i, refreshed(hs, hd))),
        group_hooks(g) is None ==> refresh_group(g, hd) == g,
{
    match (g, group_hooks(g)) {
        (JsonV::Object(es), Some((i, hs))) => {
            assert(is_first_key(es, "hooks"@, i));
            assert(es[i].0 == "hooks"@);
            lemma_field_at_update(es, "hooks"@, i, JsonV::Array(refreshed(hs, hd)));
        },
        _ => {},
    }
}

/// Refreshing a group twice is refreshing it once, and it owns one of our
/// handlers afterwards exactly when it did before.
pub proof fn lemma_refresh_group_twice(g: JsonV, hd: JsonV)
    requires
        is_ours(hd),
    ensures
        refresh_group(refresh_group(g, hd), hd) == refresh_group(g, hd),
        owns_handler(refresh_group(g, hd)) == owns_handler(g),
{
    lemma_refresh_group_hooks(g, hd);
    match (g, group_hooks(g)) {
        (JsonV::Object(es), Some((i, hs))) => {
            let g1 = refresh_group(g, hd);
            let r = refreshed(hs, hd);
            lemma_refreshed_twice(hs, hd);
            let es1 = es.update(i, (es[i].0, JsonV::Array(r)));
            assert(g1 == JsonV::Object(es1));
            assert(es1.update(i, (es1[i].0, JsonV::Array(r))) =~= es1);
            if owns_handler(g) {
                let k = choose|k: int| 0 <= k < hs.len() && is_ours(#[trigger] hs[k]);
                assert(is_ours(r[k]));
            }
            if owns_handler(g1) {
                let k = choose|k: int| 0 <= k < r.len() && is_ours(#[trigger] r[k]);
                if !is_ours(hs[k]) {
                    assert(r[k] == hs[k]);
                }
            }
        },
        _ => {},
    }
}

/// The new group holds our handler.
pub proof fn lemma_new_group_owns(hd: JsonV)
    requires
        is_ours(hd),
    ensures
        owns_handler(new_group(hd)),
        refresh_group(new_group(hd), hd) == new_group(hd),
{
    let es = seq![("hooks"@, JsonV::Array(seq![hd])), ("matcher"@, JsonV::Str("startup|resume|clear|compact"@))];
    assert(is_first_key(es, "hooks"@, 0));
    lemma_field_at_is(es, "hooks"@, 0);
    assert(group_hooks(new_group(hd)) == Some((0int, seq![hd])));
    assert(is_ours(seq![hd][0]));
    assert(refreshed(seq![hd], hd) =~= seq![hd]);
    assert(es.update(0, (es[0].0, JsonV::Array(seq![hd]))) =~= es);
}

/// Installing into groups that already had our handler installed changes
/// nothing.
pub proof fn lemma_installed_groups_twice(gs: Seq<JsonV>, hd: JsonV)
    requires
        is_ours(hd),
    ensures
        installed_groups(installed_groups(gs, hd), hd) == installed_groups(gs, hd),
{
    let g1 = installed_groups(gs, hd);
    let r = gs.map_values(|g: JsonV| refresh_group(g, hd));
    assert forall|k: int| 0 <= k < gs.len() implies #[trigger] refresh_group(r[k], hd) == r[k]
        && owns_handler(r[k]) == owns_handler(gs[k]) by {
        lemma_refresh_group_twice(gs[k], hd);
    }
    if exists|k: int| 0 <= k < gs.len() && owns_handler(#[trigger] gs[k]) {
        let k = choose|k: int| 0 <= k < gs.len() && owns_handler(#[trigger] gs[k]);
        assert(g1 == r);
        assert(refresh_group(r[k], hd) == r[k]);
        assert(owns_handler(g1[k]));
        assert(g1.map_values(|g: JsonV| refresh_group(g, hd)) =~= g1);
    } else {
        assert(g1 == r.push(new_group(hd)));
        lemma_new_group_owns(hd);
        let n = gs.len() as int;
        assert(owns_handler(g1[n]));
        assert(g1.map_values(|g: JsonV| refresh_group(g, hd)) =~= g1);
    }
}

/// Installing the session hook a second time changes nothing: whenever a
/// first installation succeeds, installing into its result succeeds and
/// gives that result back.
pub proof fn law_install_is_idempotent(root: JsonV, exe: Seq<char>)
    requires
        spec_install(root, exe) is Ok,
    ensures
        spec_install(spec_install(root, exe).unwrap(), exe) == spec_install(root, exe),
{
    let hd = handler_with(hook_command(exe));
    lemma_handler_is_ours(exe);
    match root {
        JsonV::Object(es) => {
            let hooks = match field_at(es, "hooks"@) { Some(i) => es[i].1, None => JsonV::Object(seq![]) };
            match hooks {
                JsonV::Object(hes) => {
                    let session = match field_at(hes, "SessionStart"@) { Some(i) => hes[i].1, None => JsonV::Array(seq![]) };
                    match session {
                        JsonV::Array(gs) => {
                            let g1 = installed_groups(gs, hd);
                            lemma_installed_groups_twice(gs, hd);
                            let hes2 = set_field(hes, "SessionStart"@, JsonV::Array(g1));
                            lemma_set_field_twice(hes, "SessionStart"@, JsonV::Array(g1));
                            let es2 = set_field(es, "hooks"@, JsonV::Object(hes2));
                            lemma_set_field_twice(es, "hooks"@, JsonV::Object(hes2));
                            assert(spec_install(root, exe) == Ok::<JsonV, crate::commands::hook_settings::SettingsError>(JsonV::Object(es2)));
                        },
                        _ => {},
                    }
                },
                _ => {},
            }
        },
        _ => {},
    }
}

} // verus!
