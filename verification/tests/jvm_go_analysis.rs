use codebase_recall::analysis::{go, java, kotlin};

#[test]
fn extracts_java_symbols_imports_calls() {
    let src = r#"
package com.example.app;

import com.example.util.Greeter;
import com.example.data.*;
import static com.example.util.Helpers.log;

public class App {
    private Greeter greeter;

    public static void main(String[] args) {
        Greeter g = new Greeter("hi");
        g.greet();
        helper();
        log("done");
    }

    void helper() {}
}
"#;
    let p = java::parse(src);
    assert!(p.parse_ok);

    let sym = |n: &str| p.symbols.iter().find(|s| s.name == n);
    assert_eq!(sym("App").unwrap().kind, "class");
    assert!(sym("App").unwrap().is_exported);
    assert_eq!(sym("main").unwrap().kind, "method");
    assert_eq!(sym("main").unwrap().owner_type.as_deref(), Some("App"));
    assert_eq!(sym("helper").unwrap().kind, "method");
    assert!(!sym("helper").unwrap().is_exported);

    let spec = |s: &str| p.imports.iter().find(|i| i.raw_specifier == s);
    assert_eq!(
        spec("com.example.util.Greeter").unwrap().imported_name.as_deref(),
        Some("Greeter")
    );
    assert!(!spec("com.example.util.Greeter").unwrap().is_relative);
    assert!(spec("com.example.data").unwrap().imported_name.is_none());
    assert_eq!(
        spec("com.example.util.Helpers.log").unwrap().imported_name.as_deref(),
        Some("log")
    );

    let calls: Vec<&str> = p.refs.iter().map(|r| r.name.as_str()).collect();
    assert!(calls.contains(&"greet"));
    assert!(calls.contains(&"helper"));
    assert!(calls.contains(&"log"));
    assert!(calls.contains(&"Greeter"));

    let helper_ref = p.refs.iter().find(|r| r.name == "helper").unwrap();
    assert_eq!(helper_ref.receiver, None, "bare call should have no receiver");

    let g_field = p.bindings.iter().find(|b| b.binding_kind == "local" && b.name == "g");
    assert_eq!(g_field.unwrap().type_expr.as_deref(), Some("Greeter"));
    let greet = p.refs.iter().find(|r| r.name == "greet").unwrap();
    assert_eq!(greet.receiver.as_deref(), Some("g"));
    assert_eq!(greet.receiver_kind, "value");
}

#[test]
fn field_declarations_become_typed_bindings() {
    let src = r#"
class Server {
    private Pool pool;
    String name;
}
"#;
    let p = java::parse(src);
    let field = p
        .bindings
        .iter()
        .find(|b| b.binding_kind == "field" && b.name == "pool")
        .expect("pool field binding");
    assert_eq!(field.type_expr.as_deref(), Some("Pool"));
}

#[test]
fn java_type_names_drop_generics_arrays_and_packages() {
    assert_eq!(java::simple_type_name(" java.util.Map<String, T>[] "), "Map");
    assert_eq!(java::simple_type_name("int[]"), "int");
    assert_eq!(java::simple_type_name("Pool"), "Pool");
}

#[test]
fn java_this_calls_are_self_calls_and_sibling_calls_resolve() {
    let src = "class A {\n  void a() { this.b(); b(); }\n  void b() {}\n}\n";
    let p = java::parse(src);
    let calls: Vec<_> = p.refs.iter().filter(|r| r.name == "b").collect();
    assert_eq!(calls.len(), 2);
    assert_eq!(calls[0].receiver_kind, "self");
    assert_eq!(calls[1].receiver_kind, "none");
}

#[test]
fn extracts_go_symbols_imports_calls() {
    let src = r#"
package main

import (
    "fmt"
    "net/http"
    custom "github.com/example/pkg"
)

// Server handles HTTP traffic
type Server struct {
    port int
}

type Router interface {
    Route(path string)
}

func (s *Server) Start() error {
    fmt.Println("starting server")
    custom.Init()
    s.handle()
    return nil
}

func (s *Server) handle() {
}

func main() {
    srv := &Server{port: 8080}
    srv.Start()
}
"#;
    let res = go::parse(src);
    assert!(res.parse_ok);

    let sym_names: Vec<&str> = res.symbols.iter().map(|s| s.name.as_str()).collect();
    assert!(sym_names.contains(&"Server"));
    assert!(sym_names.contains(&"Router"));
    assert!(sym_names.contains(&"Start"));
    assert!(sym_names.contains(&"handle"));
    assert!(sym_names.contains(&"main"));

    let imports: Vec<&str> = res.imports.iter().map(|i| i.raw_specifier.as_str()).collect();
    assert!(imports.contains(&"fmt"));
    assert!(imports.contains(&"net/http"));
    assert!(imports.contains(&"github.com/example/pkg"));

    let call_names: Vec<&str> = res.refs.iter().map(|r| r.name.as_str()).collect();
    assert!(call_names.contains(&"Println"));
    assert!(call_names.contains(&"Init"));
    assert!(call_names.contains(&"Start"));
    assert!(call_names.contains(&"handle"));
}

#[test]
fn go_methods_carry_receiver_type_signature_and_export() {
    let src = "package p\n\nimport _ \"embed\"\n\nfunc (s *Server) Start(a int, b string) error {\n\treturn nil\n}\n\nfunc helper() {}\n";
    let res = go::parse(src);
    let start = res.symbols.iter().find(|s| s.name == "Start").unwrap();
    assert_eq!(start.kind, "method");
    assert_eq!(start.owner_type.as_deref(), Some("Server"));
    assert_eq!(start.param_count, Some(2));
    assert!(start.is_exported);
    assert_eq!(start.signature.as_deref(), Some("func (s *Server) Start(a int, b string) error"));
    let helper = res.symbols.iter().find(|s| s.name == "helper").unwrap();
    assert_eq!(helper.kind, "function");
    assert!(!helper.is_exported);
    // a blank import is recorded but binds no name
    assert_eq!(res.imports[0].raw_specifier, "embed");
    assert_eq!(res.imports[0].alias.as_deref(), Some("_"));
    assert!(!res.bindings.iter().any(|b| b.binding_kind == "import"));
}

#[test]
fn go_import_paths_lose_their_quotes() {
    assert_eq!(go::import_path("\"net/http\""), "net/http");
    assert_eq!(go::import_path("`raw/path`"), "raw/path");
}

#[test]
fn extracts_kotlin_symbols_imports_calls() {
    let src = r#"
package com.example.app

import com.example.util.Greeter
import com.example.util.Helpers.log as logIt
import com.example.data.*

class Screen(val greeter: Greeter) {
    fun render() {
        val g = Greeter("hi")
        g.greet()
        helper()
        logIt("x")
    }
    fun helper() {}
}

@Composable
fun Content() {
    val s = Screen(Greeter())
    s.render()
}

val TOP = 42
"#;
    let p = kotlin::parse(src);
    assert!(p.parse_ok);

    let sym = |n: &str| p.symbols.iter().find(|s| s.name == n);
    assert_eq!(sym("Screen").unwrap().kind, "class");
    assert_eq!(sym("render").unwrap().kind, "method");
    assert_eq!(sym("render").unwrap().owner_type.as_deref(), Some("Screen"));
    assert_eq!(sym("Content").unwrap().kind, "function");
    assert_eq!(sym("TOP").unwrap().kind, "variable");

    let spec = |s: &str| p.imports.iter().find(|i| i.raw_specifier == s);
    assert_eq!(
        spec("com.example.util.Greeter").unwrap().imported_name.as_deref(),
        Some("Greeter")
    );
    assert_eq!(
        spec("com.example.util.Helpers.log").unwrap().alias.as_deref(),
        Some("logIt")
    );
    assert!(spec("com.example.data").unwrap().imported_name.is_none());

    let calls: Vec<&str> = p.refs.iter().map(|r| r.name.as_str()).collect();
    assert!(calls.contains(&"greet"));
    assert!(calls.contains(&"helper"));
    assert!(calls.contains(&"render"));
    assert!(calls.contains(&"Greeter"));

    let greeter_field = p
        .bindings
        .iter()
        .find(|b| b.binding_kind == "field" && b.name == "greeter")
        .expect("greeter field binding");
    assert_eq!(greeter_field.type_expr.as_deref(), Some("Greeter"));

    let g_local = p
        .bindings
        .iter()
        .find(|b| b.binding_kind == "local" && b.name == "g")
        .expect("g local binding");
    assert_eq!(g_local.type_expr.as_deref(), Some("Greeter"));

    let greet = p.refs.iter().find(|r| r.name == "greet").unwrap();
    assert_eq!(greet.receiver.as_deref(), Some("g"));
    assert_eq!(greet.receiver_kind, "value");
}

#[test]
fn kotlin_type_names_drop_nullability_generics_and_packages() {
    assert_eq!(kotlin::simple_type_name(" com.example.Foo<Bar>? "), "Foo");
    assert_eq!(kotlin::simple_type_name("String?"), "String");
}

#[test]
fn kotlin_private_declarations_are_not_exported() {
    let p = kotlin::parse("private fun hidden() {}\nfun shown() {}\ninterface Api {}\n");
    let sym = |n: &str| p.symbols.iter().find(|s| s.name == n).unwrap();
    assert!(!sym("hidden").is_exported);
    assert!(sym("shown").is_exported);
    assert_eq!(sym("Api").kind, "interface");
}
