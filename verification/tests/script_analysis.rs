use codebase_recall::analysis::lang::Language;
use codebase_recall::analysis::{javascript, parse_file, python, sfc};

#[test]
fn extracts_ts_symbols_imports_calls() {
    let src = r#"
import { CacheDb } from "./cache";
import helper from "../util/helper";
import * as fs from "node:fs";

export interface Options { depth: number; }

export class Builder {
    build(): void { helper(); this.step(); }
    step() { CacheDb.open(); }
}

export const run = () => {
    const b = new Builder();
    b.build();
};
"#;
    let p = javascript::parse(src, Language::TypeScript);
    assert!(p.parse_ok);

    let sym = |n: &str| p.symbols.iter().find(|s| s.name == n);
    assert_eq!(sym("Builder").unwrap().kind, "class");
    assert!(sym("Builder").unwrap().is_exported);
    assert_eq!(sym("build").unwrap().kind, "method");
    assert_eq!(sym("Options").unwrap().kind, "interface");
    assert_eq!(sym("run").unwrap().kind, "function");

    let spec = |s: &str| p.imports.iter().find(|i| i.raw_specifier == s);
    assert!(spec("./cache").unwrap().is_relative);
    assert_eq!(spec("./cache").unwrap().imported_name.as_deref(), Some("CacheDb"));
    assert_eq!(spec("../util/helper").unwrap().imported_name.as_deref(), Some("default"));
    assert!(!spec("node:fs").unwrap().is_relative);

    let calls: Vec<&str> = p.refs.iter().map(|r| r.name.as_str()).collect();
    assert!(calls.contains(&"helper"));
    assert!(calls.contains(&"build"));
    assert!(calls.contains(&"open"));
    assert!(calls.contains(&"Builder"));

    let helper_ref = p.refs.iter().find(|r| r.name == "helper").unwrap();
    assert!(!helper_ref.local_only);
    assert!(helper_ref.resolved_local_symbol_index.is_none());
}

#[test]
fn typed_class_fields_and_receiver_kinds() {
    let src = r#"
import { Pool } from "./pool";

class Server {
    private pool: Pool;
    name: string;

    handle(): void {
        this.pool.acquire();
        this.name;
    }
}
"#;
    let p = javascript::parse(src, Language::TypeScript);
    assert!(p.parse_ok);

    let pool_field = p
        .bindings
        .iter()
        .find(|b| b.binding_kind == "field" && b.name == "pool")
        .expect("pool field binding");
    assert_eq!(pool_field.type_expr.as_deref(), Some("Pool"));

    let acq = p.refs.iter().find(|r| r.name == "acquire").unwrap();
    assert_eq!(acq.receiver.as_deref(), Some("this.pool"));
    assert_eq!(acq.receiver_kind, "value");

    let handle = p.symbols.iter().find(|s| s.name == "handle").unwrap();
    assert_eq!(handle.kind, "method");
    assert_eq!(handle.owner_type.as_deref(), Some("Server"));
}

#[test]
fn extracts_python_symbols_imports_calls() {
    let src = r#"
import os
import numpy as np
from .cache import CacheDb
from ..util import helper, other as o

MAX_SIZE = 512

class Builder:
    def build(self):
        helper()
        self.step()

    def step(self):
        CacheDb.open()

def run():
    b = Builder()
    b.build()
"#;
    let p = python::parse(src);
    assert!(p.parse_ok);

    let sym = |n: &str| p.symbols.iter().find(|s| s.name == n);
    assert_eq!(sym("Builder").unwrap().kind, "class");
    assert_eq!(sym("build").unwrap().kind, "method");
    assert_eq!(sym("run").unwrap().kind, "function");
    assert_eq!(sym("MAX_SIZE").unwrap().kind, "variable");

    let spec = |s: &str, n: &str| {
        p.imports
            .iter()
            .find(|i| i.raw_specifier == s && i.imported_name.as_deref() == Some(n))
    };
    assert!(spec(".cache", "CacheDb").unwrap().is_relative);
    assert!(spec("..util", "helper").unwrap().is_relative);
    assert_eq!(spec("..util", "other").unwrap().alias.as_deref(), Some("o"));
    assert!(p
        .imports
        .iter()
        .any(|i| i.raw_specifier == "numpy" && i.alias.as_deref() == Some("np")));

    let calls: Vec<&str> = p.refs.iter().map(|r| r.name.as_str()).collect();
    assert!(calls.contains(&"helper"));
    assert!(calls.contains(&"build"));
    assert!(calls.contains(&"open"));
    assert!(calls.contains(&"Builder"));
}

#[test]
fn extracts_vue_script_setup_and_components() {
    let vue_src = r#"<template>
  <div class="user-card">
    <HeaderBar title="Profile" />
    <!-- <OldComponent /> -->
    <UserAvatar :url="avatarUrl" />
    <h1>{{ name }}</h1>
    <button @click="sayHi">Hello</button>
  </div>
</template>

<script setup lang="ts">
import HeaderBar from './HeaderBar.vue';
import UserAvatar from './UserAvatar.vue';

const name = "Alice";
function sayHi() {
    console.log("hi");
}
</script>

<style>
.user-card { padding: 16px; }
</style>
"#;

    let parsed = sfc::parse(vue_src, Language::Vue);
    assert!(parsed.parse_ok);

    assert_eq!(parsed.imports.len(), 2);
    assert_eq!(parsed.imports[0].raw_specifier, "./HeaderBar.vue");
    assert_eq!(parsed.imports[1].raw_specifier, "./UserAvatar.vue");

    let sym_names: Vec<&str> = parsed.symbols.iter().map(|s| s.name.as_str()).collect();
    assert!(sym_names.contains(&"sayHi"));
    assert!(sym_names.contains(&"name"));
    assert!(sym_names.contains(&"default"));

    let ref_names: Vec<&str> = parsed.refs.iter().map(|r| r.name.as_str()).collect();
    assert!(ref_names.contains(&"HeaderBar"));
    assert!(ref_names.contains(&"UserAvatar"));
    assert!(!ref_names.contains(&"OldComponent"));

    let say_hi = parsed.symbols.iter().find(|s| s.name == "sayHi").unwrap();
    assert_eq!(say_hi.start_line, 16);
}

#[test]
fn extracts_svelte_script_and_components() {
    let svelte_src = r#"<script lang="ts">
  import ItemView from './ItemView.svelte';
  export let count = 0;

  function increment() {
    count += 1;
  }
</script>

<div class="counter">
  <button on:click={increment}>Count: {count}</button>
  <ItemView {count} />
</div>
"#;

    let parsed = sfc::parse(svelte_src, Language::Svelte);
    assert!(parsed.parse_ok);

    assert_eq!(parsed.imports.len(), 1);
    assert_eq!(parsed.imports[0].raw_specifier, "./ItemView.svelte");

    let sym_names: Vec<&str> = parsed.symbols.iter().map(|s| s.name.as_str()).collect();
    assert!(sym_names.contains(&"increment"));
    assert!(sym_names.contains(&"count"));
    assert!(sym_names.contains(&"default"));

    let ref_names: Vec<&str> = parsed.refs.iter().map(|r| r.name.as_str()).collect();
    assert!(ref_names.contains(&"ItemView"));
}

#[test]
fn sfc_without_script_is_one_default_component() {
    let parsed = sfc::parse("<div>\n  <Card />\n</div>\n", Language::Svelte);
    assert!(parsed.parse_ok);
    assert_eq!(parsed.symbols.len(), 1);
    assert_eq!(parsed.symbols[0].name, "default");
    assert_eq!(parsed.symbols[0].kind, "component");
    assert_eq!(parsed.symbols[0].end_line, 3);
    assert_eq!(parsed.refs.len(), 1);
    assert_eq!(parsed.refs[0].name, "Card");
    assert_eq!(parsed.refs[0].ref_kind, "component");
    assert_eq!(parsed.refs[0].start_line, 2);
    assert_eq!(parsed.refs[0].start_byte, 8);
}

#[test]
fn sfc_components_inside_style_and_comments_are_skipped() {
    let src = "<style>\n<Hidden/>\n</style>\n<!-- <Gone/> -->\n<Shown/>\n";
    let parsed = sfc::parse(src, Language::Vue);
    let names: Vec<&str> = parsed.refs.iter().map(|r| r.name.as_str()).collect();
    assert_eq!(names, vec!["Shown"]);
    assert_eq!(parsed.refs[0].start_line, 5);
}

#[test]
fn parse_file_dispatches_by_language() {
    let toml = parse_file(Language::Toml, "[server]\nport = 80\n");
    assert!(toml.parse_ok);
    assert!(toml.symbols.is_empty());
    let keys: Vec<&str> = toml.string_literals.iter().map(|l| l.value.as_str()).collect();
    assert_eq!(keys, vec!["server.port"]);

    let rs = parse_file(Language::Rust, "fn main() {}\n");
    assert_eq!(rs.symbols[0].name, "main");

    let py = parse_file(Language::Python, "def f():\n    pass\n");
    assert_eq!(py.symbols[0].name, "f");

    let vue = parse_file(Language::Vue, "<template><Nav/></template>\n");
    assert!(vue.symbols.iter().any(|s| s.name == "default" && s.is_exported));
}
