#![allow(dead_code)]
use swc_macro::ast::{Category, Kind, Node};
use swc_macro::error::WebpackGraphError;
use swc_macro::graph::ModuleGraph;
use swc_macro::parser::WebpackBundleParser;
use swc_macro::span::Span;

fn none() -> Span {
    Span::new(0, 0)
}

fn expr(kind: Kind, children: Vec<Node>) -> Node {
    Node::new(Category::Expr, kind, none(), children)
}

fn part(kind: Kind, children: Vec<Node>) -> Node {
    Node::new(Category::Part, kind, none(), children)
}

fn stmt(kind: Kind, children: Vec<Node>) -> Node {
    Node::new(Category::Stmt, kind, none(), children)
}

fn ident(name: &str) -> Node {
    Node::leaf(Category::Expr, Kind::Ident, none(), name.to_string(), 0)
}

fn binding(name: &str) -> Node {
    Node::leaf(Category::Part, Kind::Ident, none(), name.to_string(), 0)
}

fn num(value: u32) -> Node {
    Node::leaf(Category::Expr, Kind::Num, none(), value.to_string(), (value as f64).to_bits())
}

fn num_key(value: u32) -> Node {
    Node::leaf(Category::Part, Kind::Num, none(), value.to_string(), (value as f64).to_bits())
}

fn text(value: &str) -> Node {
    Node::leaf(Category::Expr, Kind::Str, none(), value.to_string(), 0)
}

fn require(id: u32) -> Node {
    expr(Kind::Call, vec![ident("__webpack_require__"), num(id)])
}

fn require_stmt(id: u32) -> Node {
    stmt(Kind::ExprStmt, vec![require(id)])
}

fn var_decl(keyword: &str, name: &str, init: Node) -> Node {
    let declarator = part(Kind::Declarator, vec![binding(name), init]);
    Node {
        category: Category::Stmt,
        kind: Kind::Other,
        span: none(),
        text: keyword.to_string(),
        bits: 0,
        children: vec![declarator],
    }
}

fn require_var(name: &str, id: u32) -> Node {
    var_decl("var", name, require(id))
}

fn log(message: &str) -> Node {
    let callee = expr(Kind::Member, vec![ident("console"), binding("log")]);
    stmt(Kind::ExprStmt, vec![expr(Kind::Call, vec![callee, text(message)])])
}

fn function(params: &[&str], body: Vec<Node>) -> Node {
    let mut children: Vec<Node> = params.iter().map(|p| binding(p)).collect();
    children.push(part(Kind::Block, body));
    expr(Kind::Function, children)
}

fn paren(inner: Node) -> Node {
    expr(Kind::Paren, vec![inner])
}

/// `id: (function (module, exports, __webpack_require__) { body })`
fn module(id: u32, body: Vec<Node>) -> Node {
    let f = function(&["module", "exports", "__webpack_require__"], body);
    part(Kind::KeyValue, vec![num_key(id), paren(f)])
}

/// `id: (function(m,e,__webpack_require__){ __webpack_require__(d); ... })`
fn chain(id: u32, deps: &[u32]) -> Node {
    module(id, deps.iter().map(|d| require_stmt(*d)).collect())
}

/// `var __webpack_modules__ = ({ modules });`
fn table(modules: Vec<Node>) -> Node {
    var_decl("var", "__webpack_modules__", paren(expr(Kind::Object, modules)))
}

fn program(items: Vec<Node>) -> Node {
    part(Kind::Program, items)
}

/// `(function() { body })();`
fn iife(body: Vec<Node>) -> Node {
    stmt(Kind::ExprStmt, vec![expr(Kind::Call, vec![paren(function(&[], body))])])
}

fn parse(program: &Node) -> Result<ModuleGraph, WebpackGraphError> {
    WebpackBundleParser::new().expect("Failed to create parser").parse_bundle(program)
}

fn has(list: &[String], id: &str) -> bool {
    list.iter().any(|s| s == id)
}

/// A bundle with the modules and edges of the all-features bundle: two
/// features with their utilities and a debug module, all loaded from the
/// bootstrap code.
fn all_features_bundle() -> Node {
    program(vec![
        table(vec![
            module(418, vec![log("dataProcessor")]),
            module(422, vec![log("debugUtils")]),
            module(803, vec![log("expensiveUIUtils")]),
            module(153, vec![require_var("heavyMathUtils", 78), require_var("dataProcessor", 418), log("featureA")]),
            module(722, vec![require_var("expensiveUIUtils", 803), require_var("networkUtils", 812), log("featureB")]),
            module(78, vec![log("heavyMathUtils")]),
            module(812, vec![log("networkUtils")]),
        ]),
        iife(vec![
            require_var("featureA", 153),
            require_var("featureB", 722),
            require_var("debugUtils", 422),
        ]),
    ])
}

#[test]
fn test_parse_webpack_bundle() {
    let graph = parse(&all_features_bundle()).expect("Failed to parse bundle");
    assert!(!graph.modules.is_empty(), "Graph should contain modules");
    let expected_modules = vec!["418", "422", "803", "153", "722", "78", "812"];
    for module_id in &expected_modules {
        assert!(graph.get_module(module_id).is_some(), "Module {} should exist in the graph", module_id);
    }
}

#[test]
fn test_module_dependencies() {
    let graph = parse(&all_features_bundle()).expect("Failed to parse bundle");
    let module_153 = graph.get_module("153").expect("Module 153 should exist");
    assert!(has(&module_153.dependencies, "78"), "Module 153 should depend on module 78 (heavyMathUtils)");
    assert!(has(&module_153.dependencies, "418"), "Module 153 should depend on module 418 (dataProcessor)");
    let module_722 = graph.get_module("722").expect("Module 722 should exist");
    assert!(has(&module_722.dependencies, "803"), "Module 722 should depend on module 803 (expensiveUIUtils)");
    assert!(has(&module_722.dependencies, "812"), "Module 722 should depend on module 812 (networkUtils)");
}

#[test]
fn test_entry_points() {
    let graph = parse(&all_features_bundle()).expect("Failed to parse bundle");
    assert!(!graph.entry_points.is_empty(), "Graph should have entry points");
    let reachable = graph.get_reachable_modules();
    assert!(has(&reachable, "153"), "Module 153 should be reachable from entry points");
    assert!(has(&reachable, "722"), "Module 722 should be reachable from entry points");
    assert!(has(&reachable, "422"), "Module 422 should be reachable from entry points");
}

#[test]
fn test_dependency_chain() {
    let graph = parse(&all_features_bundle()).expect("Failed to parse bundle");
    assert!(graph.get_module("153").is_some());
    let chain = graph.get_dependency_chain("153");
    assert!(chain.contains(&"153".to_string()), "Chain should contain the starting module");
    assert!(
        chain.contains(&"78".to_string()) || chain.contains(&"418".to_string()),
        "Chain should contain at least one dependency"
    );
    assert_eq!(chain[0], "153");
    assert_eq!(chain.len(), 3);
}

#[test]
fn test_graph_structure() {
    let graph = parse(&all_features_bundle()).expect("Failed to parse bundle");
    for module in &graph.modules {
        for dep_id in &module.dependencies {
            if let Some(dep_module) = graph.get_module(dep_id) {
                assert!(
                    has(&dep_module.dependents, &module.id),
                    "Module {} should be in dependents of module {}",
                    module.id,
                    dep_id
                );
            }
        }
    }
}

#[test]
fn test_unreachable_modules() {
    let graph = parse(&all_features_bundle()).expect("Failed to parse bundle");
    let unreachable = graph.get_unreachable_modules();
    assert!(unreachable.len() <= graph.modules.len(), "Unreachable modules should not exceed total modules");
    assert!(unreachable.is_empty());
}

#[test]
fn test_module_content_extraction() {
    let graph = parse(&all_features_bundle()).expect("Failed to parse bundle");
    let module = graph.get_module("153").expect("Module 153 should exist");
    assert!(!module.source.is_empty(), "Module source should not be empty");
    assert!(
        module.source.contains("featureA") || module.source.contains("__webpack_require__"),
        "Module source should contain expected patterns"
    );
    assert_eq!(module.source, "function() { __webpack_require__(78); __webpack_require__(418) }");
    assert_eq!(graph.get_module("78").unwrap().source, "function() {  }");
}

#[test]
fn test_simplified_webpack_bundle() {
    let simplified_bundle = program(vec![
        table(vec![
            module(100, vec![require_var("dep", 200), log("Module 100")]),
            module(200, vec![log("Module 200 - leaf module")]),
            module(300, vec![log("Module 300 - another leaf")]),
        ]),
        Node::new(
            Category::Stmt,
            Kind::Function,
            none(),
            vec![binding("__webpack_require__"), binding("moduleId"), Node::new(Category::Part, Kind::Block, none(), vec![])],
        ),
        iife(vec![require_var("main", 100), require_var("other", 300)]),
    ]);
    let graph = parse(&simplified_bundle).expect("Failed to parse bundle");
    assert!(!graph.entry_points.is_empty(), "Should find entry points");
    assert!(graph.entry_points.contains(&"100".to_string()), "Module 100 should be entry point");
    assert!(graph.entry_points.contains(&"300".to_string()), "Module 300 should be entry point");
    assert!(!graph.entry_points.contains(&"200".to_string()), "Module 200 should NOT be entry point");
    let module_100 = graph.get_module("100").expect("Module 100 should exist");
    assert!(has(&module_100.dependencies, "200"), "Module 100 should depend on 200");
}

#[test]
fn test_various_webpack_formats() {
    let test_cases = vec![
        (
            "var_declaration",
            program(vec![
                var_decl(
                    "var",
                    "__webpack_modules__",
                    paren(expr(Kind::Object, vec![module(100, vec![require_var("dep", 200)]), module(200, vec![log("leaf")])])),
                ),
                iife(vec![require_stmt(100)]),
            ]),
        ),
        (
            "let_declaration",
            program(vec![
                var_decl(
                    "let",
                    "__webpack_modules__",
                    paren(expr(Kind::Object, vec![module(300, vec![require_var("dep", 400)]), module(400, vec![log("leaf")])])),
                ),
                require_stmt(300),
            ]),
        ),
        (
            "const_declaration",
            program(vec![
                var_decl(
                    "const",
                    "__webpack_modules__",
                    paren(expr(Kind::Object, vec![module(500, vec![require_var("dep", 600)]), module(600, vec![log("leaf")])])),
                ),
                iife(vec![require_var("entry", 500)]),
            ]),
        ),
        (
            "no_parentheses",
            program(vec![
                var_decl(
                    "var",
                    "__webpack_modules__",
                    expr(
                        Kind::Object,
                        vec![part(
                            Kind::KeyValue,
                            vec![num_key(700), function(&["module", "exports", "__webpack_require__"], vec![log("test")])],
                        )],
                    ),
                ),
                require_stmt(700),
            ]),
        ),
    ];
    for (test_name, bundle) in test_cases {
        match parse(&bundle) {
            Ok(graph) => {
                assert!(!graph.modules.is_empty(), "Should find modules in {}", test_name);
                assert!(!graph.entry_points.is_empty(), "Should find entry points in {}", test_name);
            }
            Err(e) => panic!("Failed to parse {}: {:?}", test_name, e),
        }
    }
}

#[test]
fn test_invalid_webpack_formats() {
    let invalid_cases = vec![
        (
            "webpack_modules",
            program(vec![
                var_decl(
                    "var",
                    "webpack_modules",
                    paren(expr(Kind::Object, vec![module(100, vec![log("test")])])),
                ),
                require_stmt(100),
            ]),
        ),
        ("no_entry_points", program(vec![table(vec![module(100, vec![log("test")])])])),
    ];
    for (test_name, bundle) in invalid_cases {
        let graph = parse(&bundle).expect("a unit that is no bundle is no failure");
        assert!(graph.entry_points.is_empty(), "Should find no entry points in {}", test_name);
        if test_name == "webpack_modules" {
            assert!(graph.modules.is_empty(), "Should find no modules in {}", test_name);
        } else {
            assert_eq!(graph.modules.len(), 1);
            assert_eq!(graph.get_unreachable_modules(), vec!["100".to_string()]);
        }
    }
}

#[test]
fn test_complex_dependency_graph() {
    let complex_bundle = program(vec![
        table(vec![
            module(100, vec![require_var("auth", 101), require_var("utils", 102), require_var("components", 103), log("Main app loaded")]),
            module(200, vec![require_var("adminUtils", 201), require_var("utils", 102), require_var("components", 103), log("Admin panel loaded")]),
            module(101, vec![require_var("crypto", 104), require_var("userApi", 105), log("Auth module")]),
            module(102, vec![require_var("common", 106), log("Utils module")]),
            module(103, vec![require_var("common", 106), require_var("uiLib", 107), log("Components module")]),
            module(201, vec![require_var("crypto", 104), require_var("uiLib", 107), log("Admin utils module")]),
            module(104, vec![require_var("hash", 108), log("Crypto module")]),
            module(105, vec![require_var("common", 106), require_var("hash", 108), log("User API module")]),
            module(106, vec![log("Common utils - no dependencies")]),
            module(107, vec![require_var("common", 106), log("UI library module")]),
            module(108, vec![log("Hash functions - no dependencies")]),
        ]),
        iife(vec![require_var("mainApp", 100)]),
        iife(vec![require_var("adminPanel", 200)]),
    ]);
    let graph = parse(&complex_bundle).expect("Failed to parse complex bundle");

    assert_eq!(graph.modules.len(), 11, "Should have 11 modules total");
    assert_eq!(graph.entry_points.len(), 2, "Should have 2 entry points");
    assert!(graph.entry_points.contains(&"100".to_string()), "Module 100 should be entry point");
    assert!(graph.entry_points.contains(&"200".to_string()), "Module 200 should be entry point");

    let main_app = graph.get_module("100").expect("Module 100 should exist");
    assert_eq!(main_app.dependencies.len(), 3, "Main app should have 3 direct dependencies");
    assert!(has(&main_app.dependencies, "101"), "Main app should depend on auth");
    assert!(has(&main_app.dependencies, "102"), "Main app should depend on utils");
    assert!(has(&main_app.dependencies, "103"), "Main app should depend on components");

    let admin_panel = graph.get_module("200").expect("Module 200 should exist");
    assert_eq!(admin_panel.dependencies.len(), 3, "Admin panel should have 3 direct dependencies");
    assert!(has(&admin_panel.dependencies, "201"), "Admin panel should depend on admin utils");
    assert!(has(&admin_panel.dependencies, "102"), "Admin panel should share utils with main");
    assert!(has(&admin_panel.dependencies, "103"), "Admin panel should share components with main");

    let utils = graph.get_module("102").expect("Module 102 should exist");
    assert_eq!(utils.dependents.len(), 2, "Utils should be used by 2 modules");
    assert!(has(&utils.dependents, "100"), "Utils used by main app");
    assert!(has(&utils.dependents, "200"), "Utils used by admin panel");

    let components = graph.get_module("103").expect("Module 103 should exist");
    assert_eq!(components.dependents.len(), 2, "Components should be used by 2 modules");
    assert!(has(&components.dependents, "100"), "Components used by main app");
    assert!(has(&components.dependents, "200"), "Components used by admin panel");

    let crypto = graph.get_module("104").expect("Module 104 should exist");
    assert_eq!(crypto.dependents.len(), 2, "Crypto should be used by 2 modules");
    assert!(has(&crypto.dependents, "101"), "Crypto used by auth");
    assert!(has(&crypto.dependents, "201"), "Crypto used by admin utils");

    let common = graph.get_module("106").expect("Module 106 should exist");
    assert_eq!(common.dependencies.len(), 0, "Common utils should be leaf node");
    assert_eq!(common.dependents.len(), 4, "Common utils should be used by 4 modules");
    assert!(has(&common.dependents, "102"), "Common used by utils");
    assert!(has(&common.dependents, "103"), "Common used by components");
    assert!(has(&common.dependents, "105"), "Common used by user API");
    assert!(has(&common.dependents, "107"), "Common used by UI lib");

    let hash = graph.get_module("108").expect("Module 108 should exist");
    assert_eq!(hash.dependencies.len(), 0, "Hash functions should be leaf node");
    assert_eq!(hash.dependents.len(), 2, "Hash functions should be used by 2 modules");
    assert!(has(&hash.dependents, "104"), "Hash used by crypto");
    assert!(has(&hash.dependents, "105"), "Hash used by user API");

    let reachable = graph.get_reachable_modules();
    assert_eq!(reachable.len(), 11, "All 11 modules should be reachable from entry points");

    let main_chain = graph.get_dependency_chain("100");
    assert!(main_chain.len() >= 4, "Main app chain should be at least 4 levels deep");
    assert!(main_chain.contains(&"100".to_string()), "Chain should include entry point");
    assert!(main_chain.contains(&"106".to_string()), "Chain should reach common utils");
    assert!(main_chain.contains(&"108".to_string()), "Chain should reach hash functions");
}
