use codebase_recall::analysis::rust::helpers::simple_type_name;
use codebase_recall::analysis::rust::parse;

fn call_names(src: &str) -> Vec<String> {
    parse(src)
        .refs
        .into_iter()
        .filter(|r| r.ref_kind == "call")
        .map(|r| r.name)
        .collect()
}

#[test]
fn rust_extracts_functions_structs_and_methods() {
    let src = r#"
pub struct Widget { size: u32 }

impl Widget {
    pub fn new() -> Self { Widget { size: 0 } }
    fn grow(&mut self) { self.size += 1; }
}

fn helper() {}

pub fn run() {
    let w = Widget::new();
    helper();
}
"#;
    let p = parse(src);
    assert!(p.parse_ok);

    let by_name = |n: &str| p.symbols.iter().find(|s| s.name == n);
    assert_eq!(by_name("Widget").unwrap().kind, "struct");
    assert!(by_name("Widget").unwrap().is_exported);
    assert_eq!(by_name("new").unwrap().kind, "method");
    assert_eq!(by_name("grow").unwrap().kind, "method");
    assert_eq!(by_name("helper").unwrap().kind, "function");
    assert!(!by_name("helper").unwrap().is_exported);
    assert_eq!(by_name("run").unwrap().kind, "function");

    let impl_idx = p.symbols.iter().position(|s| s.kind == "impl").unwrap();
    assert_eq!(by_name("new").unwrap().parent_index, Some(impl_idx));

    let call_names: Vec<&str> = p.refs.iter().map(|r| r.name.as_str()).collect();
    assert!(call_names.contains(&"new"));
    assert!(call_names.contains(&"helper"));
}

#[test]
fn rust_flattens_use_declarations() {
    let src = r#"
use std::collections::{HashMap, HashSet};
use crate::cache::CacheDb;
use super::walker as w;
use anyhow::*;
"#;
    let p = parse(src);
    let spec = |s: &str| p.imports.iter().find(|i| i.raw_specifier == s);

    assert!(spec("std::collections::HashMap").is_some());
    assert!(spec("std::collections::HashSet").is_some());
    let cc = spec("crate::cache::CacheDb").unwrap();
    assert!(cc.is_relative);
    assert_eq!(cc.imported_name.as_deref(), Some("CacheDb"));
    let sup = spec("super::walker").unwrap();
    assert_eq!(sup.alias.as_deref(), Some("w"));
    assert!(p.imports.iter().any(|i| i.raw_specifier == "anyhow"));
}

#[test]
fn mod_extracts_functions_structs_and_methods() {
    let src = r#"
pub struct Widget { size: u32 }

impl Widget {
    pub fn new() -> Self { Widget { size: 0 } }
    fn grow(&mut self) { self.size += 1; }
}

fn helper() {}

pub fn run() {
    let w = Widget::new();
    helper();
}
"#;
    let p = parse(src);
    assert!(p.parse_ok);

    let by_name = |n: &str| p.symbols.iter().find(|s| s.name == n);
    assert_eq!(by_name("Widget").unwrap().kind, "struct");
    assert!(by_name("Widget").unwrap().is_exported);
    assert_eq!(by_name("new").unwrap().kind, "method");
    assert_eq!(by_name("new").unwrap().owner_type.as_deref(), Some("Widget"));
    assert_eq!(by_name("grow").unwrap().kind, "method");
    assert_eq!(by_name("helper").unwrap().kind, "function");
    assert!(!by_name("helper").unwrap().is_exported);
    assert_eq!(by_name("run").unwrap().kind, "function");

    let impl_idx = p.symbols.iter().position(|s| s.kind == "impl").unwrap();
    assert_eq!(by_name("new").unwrap().parent_index, Some(impl_idx));

    let call_names: Vec<&str> = p.refs.iter().map(|r| r.name.as_str()).collect();
    assert!(call_names.contains(&"new"));
    assert!(call_names.contains(&"helper"));

    let helper_ref = p.refs.iter().find(|r| r.name == "helper").unwrap();
    assert!(helper_ref.resolved_local_symbol_index.is_some());
}

#[test]
fn struct_fields_become_typed_bindings() {
    let src = r#"
struct Pool;
struct Server { pool: Pool, name: String }
"#;
    let p = parse(src);
    let field = p
        .bindings
        .iter()
        .find(|b| b.binding_kind == "field" && b.name == "pool")
        .expect("pool field binding");
    assert_eq!(field.type_expr.as_deref(), Some("Pool"));
}

#[test]
fn mod_flattens_use_declarations() {
    let src = r#"
use std::collections::{HashMap, HashSet};
use crate::cache::CacheDb;
use super::walker as w;
use anyhow::*;
"#;
    let p = parse(src);
    let spec = |s: &str| p.imports.iter().find(|i| i.raw_specifier == s);

    assert!(spec("std::collections::HashMap").is_some());
    assert!(spec("std::collections::HashSet").is_some());
    let cc = spec("crate::cache::CacheDb").unwrap();
    assert!(cc.is_relative);
    assert_eq!(cc.imported_name.as_deref(), Some("CacheDb"));
    let sup = spec("super::walker").unwrap();
    assert_eq!(sup.alias.as_deref(), Some("w"));
    assert!(p.imports.iter().any(|i| i.raw_specifier == "anyhow"));

    assert!(p.bindings.iter().any(|b| b.binding_kind == "import" && b.name == "w"));
    assert!(p.bindings.iter().any(|b| b.binding_kind == "namespace" && b.name == "anyhow"));
}

#[test]
fn signature_types_become_type_refs() {
    let src = r#"
struct RunArgs;
enum CommandError {}

pub fn cmd_run(args: &RunArgs) -> Result<(), CommandError> { todo!() }
"#;
    let p = parse(src);
    let type_ref = |n: &str| p.refs.iter().find(|r| r.ref_kind == "type" && r.name == n);

    let args = type_ref("RunArgs").expect("param type ref");
    assert!(!args.local_only);
    assert!(args.resolved_local_symbol_index.is_some());

    assert!(type_ref("CommandError").is_some(), "return type ref");
}

#[test]
fn type_refs_point_at_the_type_token() {
    let src = "struct RunArgs;\nfn f(args: &RunArgs) {}\n";
    let p = parse(src);
    let r = p
        .refs
        .iter()
        .find(|r| r.ref_kind == "type" && r.name == "RunArgs" && r.start_line == 2)
        .expect("param type ref");
    let at = r.name_start_byte.expect("name_start_byte") as usize;
    assert_eq!(&src[at..at + "RunArgs".len()], "RunArgs");
}

#[test]
fn generic_parameters_are_not_mistaken_for_types() {
    let src = "struct T;\nfn identity<T>(value: T) -> T { value }\n";
    let p = parse(src);
    assert!(
        !p.refs.iter().any(|r| r.ref_kind == "type" && r.name == "T"),
        "generic placeholder T should not become a type ref"
    );
}

#[test]
fn struct_fields_and_enum_payloads_become_type_refs() {
    let src = r#"
struct Pool;
struct RunArgs;
struct Server { pool: Pool }
struct Wrapper(Pool);
enum Command { Run(RunArgs) }
"#;
    let p = parse(src);
    let has = |n: &str| p.refs.iter().any(|r| r.ref_kind == "type" && r.name == n);

    assert!(has("Pool"), "named field type");
    assert!(has("RunArgs"), "enum variant payload type");

    assert!(
        p.bindings.iter().any(|b| b.binding_kind == "field" && b.name == "pool"),
        "field binding regressed"
    );
}

#[test]
fn a_local_does_not_shadow_a_type_of_the_same_name() {
    let src = r#"
struct Config;
fn load(cfg: &Config) {
    let Config = 1;
}
"#;
    let p = parse(src);
    let r = p
        .refs
        .iter()
        .find(|r| r.ref_kind == "type" && r.name == "Config")
        .expect("param type ref");
    assert!(!r.local_only, "type ref must skip local bindings");
    assert!(r.resolved_local_symbol_index.is_some());
}

#[test]
fn calls_inside_macro_arguments_are_found() {
    let src = r#"
async fn run_inner(x: u32) -> u32 { x }

async fn cmd_run() {
    futures::try_join!(
        async { run_inner(1).await },
        async { other().await },
    );
}

async fn other() -> u32 { 0 }
"#;
    let names = call_names(src);
    assert!(names.contains(&"run_inner".to_string()), "got {names:?}");
    assert!(names.contains(&"other".to_string()), "got {names:?}");

    let p = parse(src);
    let r = p
        .refs
        .iter()
        .find(|r| r.name == "run_inner" && r.ref_kind == "call")
        .unwrap();
    assert!(!r.local_only);
    assert!(r.resolved_local_symbol_index.is_some());
}

#[test]
fn a_macro_call_keeps_pointing_at_the_real_source_offsets() {
    let src = "fn helper() {}\nfn f() {\n    assert!(helper() == 1);\n}\n";
    let p = parse(src);
    let r = p
        .refs
        .iter()
        .find(|r| r.name == "helper" && r.ref_kind == "call")
        .expect("call inside assert!");
    let at = r.name_start_byte.expect("name_start_byte") as usize;
    assert_eq!(&src[at..at + "helper".len()], "helper");
    assert_eq!(r.start_line, 3, "line must be the real source line");
}

#[test]
fn block_bodied_macros_are_read_as_statements() {
    let src = "fn f() {\n    tokio::select! {\n        a = poll() => {}\n    }\n}\n";
    let names = call_names(src);
    assert!(names.contains(&"poll".to_string()), "got {names:?}");
}

#[test]
fn macros_nested_in_macros_are_followed() {
    let src = "fn g() -> u32 { 1 }\nfn f() {\n    assert!(matches!(g(), 1));\n}\n";
    let names = call_names(src);
    assert!(names.contains(&"g".to_string()), "got {names:?}");
}

#[test]
fn a_macro_that_is_not_rust_is_skipped_rather_than_guessed() {
    let src = "fn f() {\n    weird_dsl! { < > < > @@ ## => => };\n}\n";
    let p = parse(src);
    assert!(p.parse_ok);
    let names = call_names(src);
    assert!(names.contains(&"weird_dsl!".to_string()), "got {names:?}");
}

#[test]
fn collects_string_literals_from_calls_and_macros() {
    let src = r#"
fn test_func() {
    let flag = matches.get_bool("verbose");
    println!("hello {}", "world_target");
}
"#;
    let p = parse(src);
    assert!(p.parse_ok);
    let vals: Vec<&str> = p.string_literals.iter().map(|s| s.value.as_str()).collect();
    assert!(vals.contains(&"verbose"), "should index 'verbose' call arg");
    assert!(vals.contains(&"world_target"), "should index 'world_target' macro arg");
}

#[test]
fn a_mod_declaration_is_an_import_and_a_module() {
    let p = parse("mod walker;\n");
    let m = p.imports.iter().find(|i| i.raw_specifier == "self::walker").unwrap();
    assert!(m.is_relative);
    assert_eq!(m.imported_name.as_deref(), Some("walker"));
    assert!(p.symbols.iter().any(|s| s.kind == "module" && s.name == "walker"));
    assert!(p.bindings.iter().any(|b| b.binding_kind == "namespace" && b.name == "walker"));
}

#[test]
fn a_param_call_is_local_only() {
    let p = parse("fn f(g: u32) { g(); }\n");
    let r = p.refs.iter().find(|r| r.name == "g" && r.ref_kind == "call").unwrap();
    assert!(r.local_only);
    assert!(r.resolved_local_symbol_index.is_none());
}

#[test]
fn a_trait_impl_is_named_after_trait_and_type() {
    let p = parse("struct A;\ntrait T { fn m(&self); }\nimpl T for A { fn m(&self) {} }\n");
    assert!(p.symbols.iter().any(|s| s.kind == "impl" && s.name == "T for A"));
    let m = p.symbols.iter().filter(|s| s.name == "m").last().unwrap();
    assert_eq!(m.kind, "method");
    assert_eq!(m.owner_type.as_deref(), Some("A"));
    assert_eq!(m.param_count, Some(1));
}

#[test]
fn type_names_lose_references_lifetimes_and_generics() {
    assert_eq!(simple_type_name("&mut Vec<Foo>"), "Vec");
    assert_eq!(simple_type_name("crate::a::Bar"), "Bar");
    assert_eq!(simple_type_name("&'a mut Vec<Foo>"), "Vec");
    assert_eq!(simple_type_name("&'static str"), "str");
}
