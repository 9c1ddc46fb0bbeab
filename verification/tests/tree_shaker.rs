#![allow(dead_code)]
use swc_macro::ast::{Category, Kind, Node};
use swc_macro::error::WebpackGraphError;
use swc_macro::graph::ModuleGraph;
use swc_macro::parser::WebpackBundleParser;
use swc_macro::span::Span;
use swc_macro::tree_shaker::TreeShaker;

fn none() -> Span {
    Span::new(0, 0)
}

fn expr(kind: Kind, children: Vec<Node>) -> Node {
    Node::new(Category::Expr, kind, none(), children)
}

fn part(kind: Kind, children: Vec<Node>) -> Node {
    Node::new(Category::Part, kind, none(), children)
}

fn stmt(kind: Kind, children: Vec<Node>) -> Node {
    Node::new(Category::Stmt, kind, none(), children)
}

fn ident(name: &str) -> Node {
    Node::leaf(Category::Expr, Kind::Ident, none(), name.to_string(), 0)
}

fn binding(name: &str) -> Node {
    Node::leaf(Category::Part, Kind::Ident, none(), name.to_string(), 0)
}

fn num(value: u32) -> Node {
    Node::leaf(Category::Expr, Kind::Num, none(), value.to_string(), (value as f64).to_bits())
}

fn num_key(value: u32) -> Node {
    Node::leaf(Category::Part, Kind::Num, none(), value.to_string(), (value as f64).to_bits())
}

fn text(value: &str) -> Node {
    Node::leaf(Category::Expr, Kind::Str, none(), value.to_string(), 0)
}

fn require(id: u32) -> Node {
    expr(Kind::Call, vec![ident("__webpack_require__"), num(id)])
}

fn require_stmt(id: u32) -> Node {
    stmt(Kind::ExprStmt, vec![require(id)])
}

fn var_decl(keyword: &str, name: &str, init: Node) -> Node {
    let declarator = part(Kind::Declarator, vec![binding(name), init]);
    Node {
        category: Category::Stmt,
        kind: Kind::Other,
        span: none(),
        text: keyword.to_string(),
        bits: 0,
        children: vec![declarator],
    }
}

fn require_var(name: &str, id: u32) -> Node {
    var_decl("var", name, require(id))
}

fn log(message: &str) -> Node {
    let callee = expr(Kind::Member, vec![ident("console"), binding("log")]);
    stmt(Kind::ExprStmt, vec![expr(Kind::Call, vec![callee, text(message)])])
}

fn function(params: &[&str], body: Vec<Node>) -> Node {
    let mut children: Vec<Node> = params.iter().map(|p| binding(p)).collect();
    children.push(part(Kind::Block, body));
    expr(Kind::Function, children)
}

fn paren(inner: Node) -> Node {
    expr(Kind::Paren, vec![inner])
}

/// `id: (function (module, exports, __webpack_require__) { body })`
fn module(id: u32, body: Vec<Node>) -> Node {
    let f = function(&["module", "exports", "__webpack_require__"], body);
    part(Kind::KeyValue, vec![num_key(id), paren(f)])
}

/// `id: (function(m,e,__webpack_require__){ __webpack_require__(d); ... })`
fn chain(id: u32, deps: &[u32]) -> Node {
    module(id, deps.iter().map(|d| require_stmt(*d)).collect())
}

/// `var __webpack_modules__ = ({ modules });`
fn table(modules: Vec<Node>) -> Node {
    var_decl("var", "__webpack_modules__", paren(expr(Kind::Object, modules)))
}

fn program(items: Vec<Node>) -> Node {
    part(Kind::Program, items)
}

/// `(function() { body })();`
fn iife(body: Vec<Node>) -> Node {
    stmt(Kind::ExprStmt, vec![expr(Kind::Call, vec![paren(function(&[], body))])])
}

fn parse(program: &Node) -> Result<ModuleGraph, WebpackGraphError> {
    WebpackBundleParser::new().expect("Failed to create parser").parse_bundle(program)
}

fn has(list: &[String], id: &str) -> bool {
    list.iter().any(|s| s == id)
}

fn ids(list: &[&str]) -> Vec<String> {
    list.iter().map(|s| s.to_string()).collect()
}

#[test]
fn test_shake_simple_bundle() {
    let bundle = program(vec![
        table(vec![
            module(100, vec![require_var("dep", 200)]),
            module(200, vec![log("Module 200")]),
            module(300, vec![log("Module 300 - unreachable")]),
        ]),
        require_stmt(100),
    ]);
    let mut graph = parse(&bundle).unwrap();

    assert_eq!(graph.modules.len(), 3);
    assert!(graph.get_module("300").is_some());

    let shaken_ids = TreeShaker::new(&mut graph).shake();

    assert_eq!(shaken_ids, vec!["300".to_string()]);
    assert_eq!(graph.modules.len(), 2);
    assert!(graph.get_module("100").is_some());
    assert!(graph.get_module("200").is_some());
    assert!(graph.get_module("300").is_none());
}

#[test]
fn test_shake_dependency_chain_with_dead_branch() {
    let bundle = program(vec![
        table(vec![chain(1, &[2]), chain(2, &[3]), chain(3, &[]), chain(4, &[5]), chain(5, &[])]),
        require_stmt(1),
    ]);
    let mut graph = parse(&bundle).unwrap();

    assert_eq!(graph.modules.len(), 5);
    let mut unreachable = graph.get_unreachable_modules();
    unreachable.sort();
    assert_eq!(unreachable, vec!["4".to_string(), "5".to_string()]);

    let mut shaken_ids = TreeShaker::new(&mut graph).shake();
    shaken_ids.sort();

    assert_eq!(shaken_ids, vec!["4".to_string(), "5".to_string()]);
    assert_eq!(graph.modules.len(), 3);
    assert!(graph.get_module("1").is_some());
    assert!(graph.get_module("2").is_some());
    assert!(graph.get_module("3").is_some());
    assert!(graph.get_module("4").is_none());
    assert!(graph.get_module("5").is_none());
}

#[test]
fn test_shake_no_unreachable_modules() {
    let bundle = program(vec![
        table(vec![chain(1, &[2, 3]), chain(2, &[]), chain(3, &[])]),
        require_stmt(1),
    ]);
    let mut graph = parse(&bundle).unwrap();

    assert_eq!(graph.modules.len(), 3);
    assert!(graph.get_unreachable_modules().is_empty());

    let shaken_ids = TreeShaker::new(&mut graph).shake();
    assert!(shaken_ids.is_empty());
    assert_eq!(graph.modules.len(), 3);
}

#[test]
fn test_remove_module_and_check_graph_integrity() {
    let bundle = program(vec![
        table(vec![chain(10, &[20, 30]), chain(20, &[40]), chain(30, &[40]), chain(40, &[])]),
        require_stmt(10),
    ]);
    let mut graph = parse(&bundle).unwrap();

    assert_eq!(graph.modules.len(), 4);
    let module_c = graph.get_module("40").unwrap();
    assert_eq!(module_c.dependents.len(), 2);
    assert!(has(&module_c.dependents, "20"));
    assert!(has(&module_c.dependents, "30"));

    let removed = TreeShaker::new(&mut graph).remove_module("20");
    assert!(removed);
    assert_eq!(graph.modules.len(), 3);
    assert!(graph.get_module("20").is_none());

    let module_c_after_a = graph.get_module("40").unwrap();
    assert_eq!(module_c_after_a.dependents.len(), 1);
    assert!(has(&module_c_after_a.dependents, "30"));

    assert!(graph.get_unreachable_modules().is_empty(), "C should still be reachable via B");

    let removed_b = TreeShaker::new(&mut graph).remove_module("30");
    assert!(removed_b);

    let mut unreachable = graph.get_unreachable_modules();
    unreachable.sort();
    assert_eq!(unreachable, vec!["40".to_string()]);

    let mut shaken_ids = TreeShaker::new(&mut graph).shake();
    shaken_ids.sort();
    assert_eq!(shaken_ids, vec!["40".to_string()]);
    assert_eq!(graph.modules.len(), 1);
    assert!(graph.get_module("10").is_some());
    assert!(graph.get_module("30").is_none());
    assert!(graph.get_module("40").is_none());
}

#[test]
fn test_shake_complex_graph_with_dead_branches() {
    let complex_bundle = program(vec![
        table(vec![
            chain(100, &[300, 400]),
            chain(200, &[300, 500]),
            chain(300, &[600]),
            chain(400, &[600]),
            chain(500, &[600]),
            chain(600, &[]),
            chain(700, &[800]),
            chain(800, &[]),
            chain(900, &[]),
        ]),
        require_stmt(100),
        require_stmt(200),
    ]);
    let mut graph = parse(&complex_bundle).unwrap();

    assert_eq!(graph.modules.len(), 9, "Should parse all 9 modules");
    assert_eq!(graph.entry_points.len(), 2, "Should have 2 entry points");

    let mut unreachable = graph.get_unreachable_modules();
    unreachable.sort();
    assert_eq!(
        unreachable,
        vec!["700", "800", "900"],
        "Should identify the dead branch and the isolated module as unreachable"
    );

    let mut shaken_ids = TreeShaker::new(&mut graph).shake();
    shaken_ids.sort();

    assert_eq!(shaken_ids, vec!["700", "800", "900"], "Should report the correct shaken module IDs");

    assert_eq!(graph.modules.len(), 6, "Graph should have 6 modules remaining");
    assert!(graph.get_module("700").is_none());
    assert!(graph.get_module("800").is_none());
    assert!(graph.get_module("900").is_none());

    let common_lib = graph.get_module("600").unwrap();
    assert_eq!(
        common_lib.dependents.len(),
        3,
        "common_lib should still have 3 dependents (shared_utils, feature_A, feature_B)"
    );
    assert!(has(&common_lib.dependents, "300"));
    assert!(has(&common_lib.dependents, "400"));
    assert!(has(&common_lib.dependents, "500"));

    let shared_utils = graph.get_module("300").unwrap();
    assert_eq!(shared_utils.dependents.len(), 2, "shared_utils should have 2 dependents (main, admin)");
    assert!(has(&shared_utils.dependents, "100"));
    assert!(has(&shared_utils.dependents, "200"));
}

#[test]
fn test_debug_tree_shaking_process() {
    let complex_bundle = program(vec![
        table(vec![
            module(100, vec![log("Entry point main"), require_stmt(300)]),
            module(300, vec![log("Shared utils"), require_stmt(600)]),
            module(600, vec![log("Common lib - leaf")]),
            module(700, vec![log("Dead feature"), require_stmt(800)]),
            module(800, vec![log("Dead utility")]),
            module(900, vec![log("Isolated dead module")]),
        ]),
        require_stmt(100),
    ]);
    let mut graph = parse(&complex_bundle).unwrap();

    let reachable = graph.get_reachable_modules();
    let mut unreachable = graph.get_unreachable_modules();
    unreachable.sort();
    assert_eq!(reachable, ids(&["100", "300", "600"]));

    let mut shaken_ids = TreeShaker::new(&mut graph).shake();
    shaken_ids.sort();

    let final_reachable = graph.get_reachable_modules();
    let final_unreachable = graph.get_unreachable_modules();

    assert_eq!(shaken_ids, vec!["700", "800", "900"]);
    assert_eq!(graph.modules.len(), 3);
    assert!(final_unreachable.is_empty());
    assert_eq!(final_reachable.len(), 3);
}

#[test]
fn test_circular_dependencies() {
    let bundle = program(vec![
        table(vec![chain(1, &[2]), chain(2, &[3]), chain(3, &[2]), chain(4, &[])]),
        require_stmt(1),
    ]);
    let mut graph = parse(&bundle).unwrap();

    assert!(has(&graph.get_module("2").unwrap().dependencies, "3"));
    assert!(has(&graph.get_module("3").unwrap().dependencies, "2"));
    assert!(has(&graph.get_module("2").unwrap().dependents, "3"));
    assert!(has(&graph.get_module("3").unwrap().dependents, "2"));

    let mut unreachable = graph.get_unreachable_modules();
    unreachable.sort();
    assert_eq!(unreachable, vec!["4"]);

    let shaken_ids = TreeShaker::new(&mut graph).shake();
    assert_eq!(shaken_ids, vec!["4".to_string()]);
    assert_eq!(graph.modules.len(), 3);
}

#[test]
fn test_entry_point_as_dependency() {
    let bundle = program(vec![
        table(vec![chain(100, &[200]), chain(200, &[]), chain(300, &[])]),
        require_stmt(100),
        require_stmt(200),
    ]);
    let mut graph = parse(&bundle).unwrap();

    assert_eq!(graph.entry_points.len(), 2);
    assert!(graph.entry_points.contains(&"100".to_string()));
    assert!(graph.entry_points.contains(&"200".to_string()));

    assert!(has(&graph.get_module("100").unwrap().dependencies, "200"));
    assert!(has(&graph.get_module("200").unwrap().dependents, "100"));

    let unreachable = graph.get_unreachable_modules();
    assert_eq!(unreachable, vec!["300".to_string()]);

    let shaken_ids = TreeShaker::new(&mut graph).shake();
    assert_eq!(shaken_ids, vec!["300".to_string()]);
    assert_eq!(graph.modules.len(), 2);
}

#[test]
fn test_cascading_tree_shaking() {
    let bundle = program(vec![
        table(vec![
            chain(1, &[2]),
            chain(2, &[3]),
            chain(3, &[4]),
            chain(4, &[5]),
            chain(5, &[]),
            chain(6, &[7]),
            chain(7, &[]),
        ]),
        require_stmt(1),
    ]);
    let mut graph = parse(&bundle).unwrap();

    let mut unreachable = graph.get_unreachable_modules();
    unreachable.sort();
    assert_eq!(unreachable, vec!["6", "7"]);

    TreeShaker::new(&mut graph).remove_module("2");

    let mut new_unreachable = graph.get_unreachable_modules();
    new_unreachable.sort();
    assert_eq!(new_unreachable, vec!["3", "4", "5", "6", "7"]);

    let mut final_shaken = TreeShaker::new(&mut graph).shake();
    final_shaken.sort();
    assert_eq!(final_shaken, vec!["3", "4", "5", "6", "7"]);
    assert_eq!(graph.modules.len(), 1);
}

#[test]
fn test_diamond_dependency_pattern() {
    let bundle = program(vec![
        table(vec![chain(1, &[2, 3]), chain(2, &[4]), chain(3, &[4]), chain(4, &[]), chain(5, &[])]),
        require_stmt(1),
    ]);
    let mut graph = parse(&bundle).unwrap();

    let module_d = graph.get_module("4").unwrap();
    assert_eq!(module_d.dependents.len(), 2);
    assert!(has(&module_d.dependents, "2"));
    assert!(has(&module_d.dependents, "3"));

    let unreachable = graph.get_unreachable_modules();
    assert_eq!(unreachable, vec!["5".to_string()]);

    TreeShaker::new(&mut graph).remove_module("2");

    assert!(graph.get_unreachable_modules().is_empty() || graph.get_unreachable_modules() == vec!["5".to_string()]);

    TreeShaker::new(&mut graph).remove_module("3");

    let mut new_unreachable = graph.get_unreachable_modules();
    new_unreachable.sort();
    assert_eq!(new_unreachable, vec!["4", "5"]);
}

#[test]
fn test_deep_dependency_chain() {
    let bundle = program(vec![
        table(vec![
            chain(1, &[2]),
            chain(2, &[3]),
            chain(3, &[4]),
            chain(4, &[5]),
            chain(5, &[6]),
            chain(6, &[7]),
            chain(7, &[8]),
            chain(8, &[]),
            chain(9, &[]),
        ]),
        require_stmt(1),
    ]);
    let mut graph = parse(&bundle).unwrap();

    let dependency_chain = graph.get_dependency_chain("1");
    assert!(dependency_chain.len() >= 8);
    assert_eq!(dependency_chain, ids(&["1", "2", "3", "4", "5", "6", "7", "8"]));

    let unreachable = graph.get_unreachable_modules();
    assert_eq!(unreachable, vec!["9".to_string()]);

    TreeShaker::new(&mut graph).remove_module("4");

    let mut new_unreachable = graph.get_unreachable_modules();
    new_unreachable.sort();
    assert_eq!(new_unreachable, vec!["5", "6", "7", "8", "9"]);

    let mut shaken = TreeShaker::new(&mut graph).shake();
    shaken.sort();
    assert_eq!(shaken, vec!["5", "6", "7", "8", "9"]);
    assert_eq!(graph.modules.len(), 3);
}

#[test]
fn shaking_twice_removes_nothing_more() {
    let bundle = program(vec![
        table(vec![chain(1, &[2]), chain(2, &[]), chain(3, &[1])]),
        require_stmt(1),
    ]);
    let mut graph = parse(&bundle).unwrap();
    let first = TreeShaker::new(&mut graph).shake();
    assert_eq!(first, ids(&["3"]));
    let second = TreeShaker::new(&mut graph).shake();
    assert!(second.is_empty());
    assert_eq!(graph.get_reachable_modules(), ids(&["1", "2"]));
    assert!(graph.get_module("1").unwrap().dependents.is_empty());
}

#[test]
fn removing_an_unknown_module_changes_nothing() {
    let bundle = program(vec![table(vec![chain(1, &[])]), require_stmt(1)]);
    let mut graph = parse(&bundle).unwrap();
    assert!(!TreeShaker::new(&mut graph).remove_module("2"));
    assert_eq!(graph.modules.len(), 1);
    assert_eq!(graph.entry_points, ids(&["1"]));
}

#[test]
fn removing_an_entry_point_forgets_it() {
    let bundle = program(vec![table(vec![chain(1, &[2]), chain(2, &[])]), require_stmt(1)]);
    let mut graph = parse(&bundle).unwrap();
    assert!(TreeShaker::new(&mut graph).remove_module("1"));
    assert!(graph.entry_points.is_empty());
    assert!(graph.get_module("2").unwrap().dependents.is_empty());
    assert_eq!(graph.get_unreachable_modules(), ids(&["2"]));
}

#[test]
fn a_graph_that_names_an_identifier_twice_is_not_well_formed() {
    let bundle = program(vec![table(vec![chain(1, &[2, 2]), chain(2, &[])]), require_stmt(1), require_stmt(1)]);
    let mut graph = parse(&bundle).unwrap();
    assert!(graph.is_well_formed());
    assert_eq!(graph.modules[0].dependencies, ids(&["2"]));
    assert_eq!(graph.entry_points, ids(&["1"]));
    graph.entry_points.push("1".to_string());
    assert!(!graph.is_well_formed());
    graph.entry_points.pop();
    graph.modules[1].dependents.push("1".to_string());
    assert!(!graph.is_well_formed());
    graph.modules[1].dependents.pop();
    assert!(graph.is_well_formed());
    let copy = swc_macro::graph::ModuleNode::new("2".to_string(), String::new());
    graph.modules.push(copy);
    assert!(!graph.is_well_formed());
}

#[test]
fn graphs_are_built_by_hand() {
    let mut graph = ModuleGraph::new();
    graph.add_module(swc_macro::graph::ModuleNode::new("a".to_string(), "first".to_string()));
    graph.add_module(swc_macro::graph::ModuleNode::new("b".to_string(), String::new()));
    graph.add_module(swc_macro::graph::ModuleNode::new("a".to_string(), "second".to_string()));
    assert_eq!(graph.modules.len(), 2);
    assert_eq!(graph.get_module("a").unwrap().source, "second");
    graph.add_dependency("a", "b");
    graph.add_dependency("a", "b");
    graph.add_dependency("a", "missing");
    graph.add_dependency("missing", "b");
    assert_eq!(graph.get_module("a").unwrap().dependencies, ids(&["b"]));
    assert_eq!(graph.get_module("b").unwrap().dependents, ids(&["a"]));
    graph.add_entry_point("a".to_string());
    graph.add_entry_point("a".to_string());
    assert_eq!(graph.entry_points, ids(&["a"]));
    assert_eq!(graph.get_reachable_modules(), ids(&["a", "b"]));
    assert!(graph.get_unreachable_modules().is_empty());
    if let Some(m) = graph.get_module_mut("b") {
        m.add_dependency("a".to_string());
        m.add_dependent("z".to_string());
    }
    assert_eq!(graph.get_module("b").unwrap().dependencies, ids(&["a"]));
    assert!(graph.get_module_mut("nowhere").is_none());
    assert_eq!(graph.get_dependency_chain("b"), ids(&["b", "a"]));
    assert!(graph.get_dependency_chain("missing").is_empty());
    if let Some(m) = graph.get_module_mut("a") {
        m.add_dependency("missing".to_string());
    }
    assert_eq!(graph.get_reachable_modules(), ids(&["a", "b", "missing"]));
    assert!(graph.get_unreachable_modules().is_empty());
}
