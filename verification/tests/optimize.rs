#![allow(dead_code)]
#![allow(unused_imports)]
#![allow(dead_code)]
use swc_macro::ast::{Category, Kind, Node};
use swc_macro::bundle::BundleFormat;
use swc_macro::directive::DirectiveError;
use swc_macro::error::WebpackGraphError;
use swc_macro::graph::ModuleGraph;
use swc_macro::json::{Json, Member, Number};
use swc_macro::macro_parser::{Attached, Comment, Comments};
use swc_macro::optimize::{optimize, optimize_with};
use swc_macro::parser::{analyze, WebpackBundleParser};
use swc_macro::span::Span;
use swc_macro::webpack_module_graph::WebpackModuleGraph;
use swc_macro::webpack_tree_shaker::{
    get_safely_removable_modules, perform_webpack_tree_shaking, shake_tree, Deleted,
    WebpackModuleTreeShaker,
};

fn none() -> Span {
    Span::new(0, 0)
}

fn expr(kind: Kind, children: Vec<Node>) -> Node {
    Node::new(Category::Expr, kind, none(), children)
}

fn part(kind: Kind, children: Vec<Node>) -> Node {
    Node::new(Category::Part, kind, none(), children)
}

fn stmt(kind: Kind, children: Vec<Node>) -> Node {
    Node::new(Category::Stmt, kind, none(), children)
}

fn ident(name: &str) -> Node {
    Node::leaf(Category::Expr, Kind::Ident, none(), name.to_string(), 0)
}

fn binding(name: &str) -> Node {
    Node::leaf(Category::Part, Kind::Ident, none(), name.to_string(), 0)
}

fn num(value: u32) -> Node {
    Node::leaf(Category::Expr, Kind::Num, none(), value.to_string(), (value as f64).to_bits())
}

fn num_key(value: u32) -> Node {
    Node::leaf(Category::Part, Kind::Num, none(), value.to_string(), (value as f64).to_bits())
}

fn text(value: &str) -> Node {
    Node::leaf(Category::Expr, Kind::Str, none(), value.to_string(), 0)
}

fn require(id: u32) -> Node {
    expr(Kind::Call, vec![ident("__webpack_require__"), num(id)])
}

fn require_stmt(id: u32) -> Node {
    stmt(Kind::ExprStmt, vec![require(id)])
}

fn var_decl(keyword: &str, name: &str, init: Node) -> Node {
    let declarator = part(Kind::Declarator, vec![binding(name), init]);
    Node {
        category: Category::Stmt,
        kind: Kind::Other,
        span: none(),
        text: keyword.to_string(),
        bits: 0,
        children: vec![declarator],
    }
}

fn require_var(name: &str, id: u32) -> Node {
    var_decl("var", name, require(id))
}

fn log(message: &str) -> Node {
    let callee = expr(Kind::Member, vec![ident("console"), binding("log")]);
    stmt(Kind::ExprStmt, vec![expr(Kind::Call, vec![callee, text(message)])])
}

fn function(params: &[&str], body: Vec<Node>) -> Node {
    let mut children: Vec<Node> = params.iter().map(|p| binding(p)).collect();
    children.push(part(Kind::Block, body));
    expr(Kind::Function, children)
}

fn paren(inner: Node) -> Node {
    expr(Kind::Paren, vec![inner])
}

/// `id: (function (module, exports, __webpack_require__) { body })`
fn module(id: u32, body: Vec<Node>) -> Node {
    let f = function(&["module", "exports", "__webpack_require__"], body);
    part(Kind::KeyValue, vec![num_key(id), paren(f)])
}

/// `id: (function(m,e,__webpack_require__){ __webpack_require__(d); ... })`
fn chain(id: u32, deps: &[u32]) -> Node {
    module(id, deps.iter().map(|d| require_stmt(*d)).collect())
}

/// `var __webpack_modules__ = ({ modules });`
fn table(modules: Vec<Node>) -> Node {
    var_decl("var", "__webpack_modules__", paren(expr(Kind::Object, modules)))
}

fn program(items: Vec<Node>) -> Node {
    part(Kind::Program, items)
}

/// `(function() { body })();`
fn iife(body: Vec<Node>) -> Node {
    stmt(Kind::ExprStmt, vec![expr(Kind::Call, vec![paren(function(&[], body))])])
}

fn parse(program: &Node) -> Result<ModuleGraph, WebpackGraphError> {
    WebpackBundleParser::new().expect("Failed to create parser").parse_bundle(program)
}

fn has(list: &[String], id: &str) -> bool {
    list.iter().any(|s| s == id)
}

fn ids(list: &[&str]) -> Vec<String> {
    list.iter().map(|s| s.to_string()).collect()
}

fn at(span: Span, mut node: Node) -> Node {
    node.span = span;
    node
}

fn object(members: Vec<(&str, Json)>) -> Json {
    Json::Object(members.into_iter().map(|(k, v)| Member { key: k.to_string(), value: v }).collect())
}

fn leading(groups: Vec<(u32, &str)>) -> Comments {
    Comments {
        leading: groups
            .into_iter()
            .map(|(pos, text)| Attached {
                pos,
                comments: vec![Comment { span: Span::new(pos, pos), text: text.to_string() }],
            })
            .collect(),
        trailing: vec![],
    }
}

fn no_comments() -> Comments {
    Comments { leading: vec![], trailing: vec![] }
}

/// `var __webpack_modules__ = { modules };` with function values that are
/// not in parentheses.
fn plain_module(id: u32, body: Vec<Node>) -> Node {
    part(Kind::KeyValue, vec![num_key(id), function(&["module", "exports", "__webpack_require__"], body)])
}

fn plain_table(modules: Vec<Node>) -> Node {
    var_decl("var", "__webpack_modules__", expr(Kind::Object, modules))
}

fn arrow(body: Vec<Node>) -> Node {
    expr(Kind::Arrow, vec![part(Kind::Block, body)])
}

/// `(()=>{ body })();`
fn arrow_iife(body: Vec<Node>) -> Node {
    stmt(Kind::ExprStmt, vec![expr(Kind::Call, vec![paren(arrow(body))])])
}

/// The properties of the modules table bound to `__webpack_modules__`
/// among the statements given.
fn table_keys(statements: &[Node]) -> Option<Vec<String>> {
    for s in statements {
        if s.kind == Kind::Other && s.children.len() == 1 && s.children[0].kind == Kind::Declarator {
            let d = &s.children[0];
            if d.children[0].text == "__webpack_modules__" {
                let mut value = &d.children[1];
                if value.kind == Kind::Paren {
                    value = &value.children[0];
                }
                return Some(value.children.iter().map(|p| p.children[0].text.clone()).collect());
            }
        }
    }
    None
}

#[test]
fn empty_unit_stays_empty() {
    let (tree, rest) = optimize(&program(vec![]), &no_comments(), object(vec![])).expect("a tree");
    assert_eq!(tree.kind, Kind::Program);
    assert!(tree.children.is_empty());
    assert!(rest.leading.is_empty());
    assert!(rest.trailing.is_empty());
}

#[test]
fn false_conditional_removes_its_statement() {
    let x = at(Span::new(30, 32), stmt(Kind::ExprStmt, vec![at(Span::new(30, 31), ident("X"))]));
    let y = at(Span::new(53, 55), stmt(Kind::ExprStmt, vec![at(Span::new(53, 54), ident("Y"))]));
    let comments = leading(vec![(30, " @ns:if [condition=\"a.b\"] "), (53, " @ns:endif ")]);
    let meta = object(vec![("a", object(vec![("b", Json::Bool(false))]))]);
    let fmt = BundleFormat::webpack();
    let (tree, rest) = optimize_with(&program(vec![x, y]), &comments, meta, "ns", &fmt).expect("a tree");
    assert_eq!(tree.children.len(), 1);
    assert_eq!(tree.children[0].children[0].text, "Y");
    assert!(rest.leading.iter().all(|g| g.comments.is_empty()));
}

#[test]
fn value_directive_replaces_the_placeholder() {
    let placeholder = at(Span::new(44, 55), ident("PLACEHOLDER"));
    let decl = at(Span::new(1, 56), var_decl("var", "x", placeholder));
    let comments = leading(vec![(44, " @ns:define-inline [value=\"v\"] ")]);
    let meta = object(vec![("v", Json::Number(Number { bits: 42f64.to_bits(), text: "42".to_string() }))]);
    let fmt = BundleFormat::webpack();
    let (tree, _) = optimize_with(&program(vec![decl]), &comments, meta, "ns", &fmt).expect("a tree");
    let init = &tree.children[0].children[0].children[1];
    assert_eq!(init.kind, Kind::Num);
    assert_eq!(init.text, "42");
    assert_eq!(init.bits, 42f64.to_bits());
    assert_eq!(tree.children[0].children[0].children[0].text, "x");
}

fn nested(outer: bool, inner: bool) -> Node {
    let a = at(Span::new(70, 72), stmt(Kind::ExprStmt, vec![at(Span::new(70, 71), ident("A"))]));
    let b = at(Span::new(92, 94), stmt(Kind::ExprStmt, vec![at(Span::new(92, 93), ident("B"))]));
    let end = at(Span::new(120, 122), stmt(Kind::ExprStmt, vec![at(Span::new(120, 121), ident("END"))]));
    let comments = Comments {
        leading: vec![
            Attached {
                pos: 70,
                comments: vec![
                    Comment { span: Span::new(1, 30), text: " @ns:if [condition=\"outer\"] ".to_string() },
                    Comment { span: Span::new(31, 60), text: " @ns:if [condition=\"inner\"] ".to_string() },
                ],
            },
            Attached { pos: 92, comments: vec![Comment { span: Span::new(73, 90), text: " @ns:endif ".to_string() }] },
            Attached { pos: 120, comments: vec![Comment { span: Span::new(95, 110), text: " @ns:endif ".to_string() }] },
        ],
        trailing: vec![],
    };
    let meta = object(vec![("outer", Json::Bool(outer)), ("inner", Json::Bool(inner))]);
    let fmt = BundleFormat::webpack();
    optimize_with(&program(vec![a, b, end]), &comments, meta, "ns", &fmt).expect("a tree").0
}

fn top_names(tree: &Node) -> Vec<String> {
    tree.children.iter().map(|s| s.children[0].text.clone()).collect()
}

#[test]
fn nested_conditionals() {
    assert_eq!(top_names(&nested(true, false)), ids(&["B", "END"]));
    assert_eq!(top_names(&nested(false, true)), ids(&["END"]));
    assert_eq!(top_names(&nested(false, false)), ids(&["END"]));
    assert_eq!(top_names(&nested(true, true)), ids(&["A", "B", "END"]));
}

#[test]
fn unpaired_directive_fails_the_pass() {
    let comments = leading(vec![(5, "@common:endif")]);
    match optimize(&program(vec![]), &comments, object(vec![])) {
        Err(DirectiveError::UnpairedDirective { pos, directive }) => {
            assert_eq!(pos, 5);
            assert_eq!(directive, "endif");
        }
        _ => panic!("expected a failure"),
    }
}

fn small_bundle(extra: Vec<Node>) -> Node {
    let mut items = vec![table(vec![chain(100, &[200]), chain(200, &[]), chain(300, &[])]), require_stmt(100)];
    items.extend(extra);
    program(items)
}

#[test]
fn unreachable_module_is_shaken_off() {
    let mut tree = small_bundle(vec![]);
    let stats = perform_webpack_tree_shaking(&mut tree);
    assert_eq!(table_keys(&tree.children), Some(ids(&["100", "200"])));
    assert_eq!(tree.children.len(), 2);
    assert_eq!(stats.total_modules, 3);
    assert_eq!(stats.used_modules, 2);
    assert_eq!(stats.unused_modules, 1);
    assert_eq!(stats.entry_modules, 1);
    assert_eq!(stats.unused_module_ids, ids(&["300"]));
    assert_eq!(stats.removed_bare_calls, 0);
    assert_eq!(stats.removal_rate_bp(), 3333);
}

#[test]
fn a_declarator_that_loads_a_module_keeps_it() {
    let mut tree = small_bundle(vec![require_var("d", 300)]);
    let stats = perform_webpack_tree_shaking(&mut tree);
    assert_eq!(table_keys(&tree.children), Some(ids(&["100", "200", "300"])));
    assert_eq!(tree.children.len(), 3);
    assert_eq!(tree.children[2].children[0].children[0].text, "d");
    assert_eq!(stats.unused_modules, 0);
    assert_eq!(stats.entry_modules, 2);
}

#[test]
fn cycles_are_reachable_as_a_whole() {
    let mut tree = program(vec![table(vec![chain(1, &[2]), chain(2, &[1]), chain(3, &[])]), require_stmt(1)]);
    let graph = analyze(&tree, &BundleFormat::webpack());
    assert_eq!(graph.get_reachable_modules(), ids(&["1", "2"]));
    let mut shaker = WebpackModuleTreeShaker::new();
    assert!(!shaker.has_changed());
    shaker.visit_mut_program(&mut tree);
    assert!(shaker.has_changed());
    assert_eq!(table_keys(&tree.children), Some(ids(&["1", "2"])));
    assert_eq!(shaker.deleted.definitions, ids(&["3"]));
    assert_eq!(shaker.get_stats().unused_module_ids, ids(&["3"]));
}

#[test]
fn a_bundle_without_dead_modules_is_left_as_it_is() {
    let mut tree = program(vec![table(vec![module(7, vec![log("only")])]), require_stmt(7)]);
    let mut shaker = WebpackModuleTreeShaker::new();
    shaker.visit_mut_program(&mut tree);
    assert!(!shaker.has_changed());
    assert_eq!(table_keys(&tree.children), Some(ids(&["7"])));
    assert_eq!(tree.children.len(), 2);
    let body = &tree.children[0].children[0].children[1].children[0].children[0].children[1].children[0];
    assert_eq!(body.kind, Kind::Function);
    assert_eq!(body.children.len(), 4);
}

#[test]
fn without_entry_points_every_definition_goes_and_the_table_stays() {
    let mut tree = program(vec![table(vec![chain(1, &[2]), chain(2, &[])])]);
    let stats = perform_webpack_tree_shaking(&mut tree);
    assert_eq!(table_keys(&tree.children), Some(vec![]));
    assert_eq!(tree.children.len(), 1);
    assert_eq!(tree.children[0].children[0].children[1].kind, Kind::Paren);
    assert_eq!(stats.unused_module_ids, ids(&["1", "2"]));
    assert_eq!(stats.removal_rate_bp(), 10000);
}

#[test]
fn a_unit_that_is_no_bundle_is_left_alone() {
    let mut tree = program(vec![log("hello"), require_var("x", 5)]);
    let stats = perform_webpack_tree_shaking(&mut tree);
    assert_eq!(tree.children.len(), 2);
    assert_eq!(stats.total_modules, 0);
    assert_eq!(stats.removal_rate_bp(), 0);
    let graph = analyze(&tree, &BundleFormat::webpack());
    assert!(graph.modules.is_empty());
    assert!(graph.entry_points.is_empty());
}

#[test]
fn bare_calls_of_dead_modules_leave_their_sequence() {
    let tree = program(vec![
        table(vec![chain(1, &[]), chain(2, &[])]),
        require_stmt(1),
        require_stmt(2),
        require_var("kept", 2),
        iife(vec![require_stmt(2), log("stays")]),
        stmt(Kind::Other, vec![require_stmt(2)]),
    ]);
    let mut deleted = Deleted { definitions: vec![], calls: vec![] };
    let out = shake_tree(&tree, &ids(&["2"]), &BundleFormat::webpack(), &mut deleted);
    assert_eq!(table_keys(&out.children), Some(ids(&["1"])));
    assert_eq!(out.children.len(), 5);
    assert_eq!(deleted.definitions, ids(&["2"]));
    assert_eq!(deleted.calls, ids(&["2"]));
    let inner = &out.children[3].children[0].children[0].children[0].children[0];
    assert_eq!(inner.kind, Kind::Block);
    assert_eq!(inner.children.len(), 2);
    assert_eq!(out.children[4].children.len(), 1);
}

#[test]
fn a_table_is_known_by_its_shape() {
    let shaped = |functions: usize, others: usize| {
        let mut props = Vec::new();
        for i in 0..functions {
            props.push(part(Kind::KeyValue, vec![num_key(i as u32), arrow(vec![])]));
        }
        for i in 0..others {
            props.push(part(Kind::KeyValue, vec![num_key(100 + i as u32), num(1)]));
        }
        program(vec![var_decl("var", "chunk", expr(Kind::Object, props)), require_stmt(0)])
    };
    let fmt = BundleFormat::webpack();
    assert_eq!(analyze(&shaped(3, 2), &fmt).modules.len(), 5);
    assert_eq!(analyze(&shaped(2, 2), &fmt).modules.len(), 0);
    assert_eq!(analyze(&shaped(1, 0), &fmt).modules.len(), 1);
    assert_eq!(analyze(&shaped(0, 0), &fmt).modules.len(), 0);
    assert_eq!(analyze(&shaped(0, 1), &fmt).modules.len(), 0);
    assert_eq!(analyze(&shaped(3, 2), &fmt).entry_points, ids(&["0"]));
}

#[test]
fn keys_are_taken_in_canonical_form() {
    let key = |text: &str| Node::leaf(Category::Part, Kind::Num, none(), text.to_string(), 0);
    let skey = |text: &str| Node::leaf(Category::Part, Kind::Str, none(), text.to_string(), 0);
    let ikey = |text: &str| Node::leaf(Category::Part, Kind::Ident, none(), text.to_string(), 0);
    let f = || function(&[], vec![]);
    let tree = program(vec![plain_table(vec![
        part(Kind::KeyValue, vec![key("100.0"), f()]),
        part(Kind::KeyValue, vec![key("1.5"), f()]),
        part(Kind::KeyValue, vec![skey("./src/a.js"), f()]),
        part(Kind::KeyValue, vec![skey("7.0"), f()]),
        part(Kind::KeyValue, vec![ikey("name"), f()]),
        part(Kind::KeyValue, vec![key(".0"), f()]),
    ])]);
    let graph = analyze(&tree, &BundleFormat::webpack());
    let keys: Vec<String> = graph.modules.iter().map(|m| m.id.clone()).collect();
    assert_eq!(keys, ids(&["100", "1.5", "./src/a.js", "7.0", ""]));
}

#[test]
fn a_later_definition_replaces_an_earlier_one() {
    let tree = program(vec![plain_table(vec![chain_plain(1, &[2]), chain_plain(2, &[]), chain_plain(1, &[3])]), require_stmt(1)]);
    let graph = analyze(&tree, &BundleFormat::webpack());
    let keys: Vec<String> = graph.modules.iter().map(|m| m.id.clone()).collect();
    assert_eq!(keys, ids(&["1", "2"]));
    assert_eq!(graph.modules[0].dependencies, ids(&["3"]));
    assert!(graph.modules[1].dependents.is_empty());
    assert_eq!(graph.get_unreachable_modules(), ids(&["2"]));
}

fn chain_plain(id: u32, deps: &[u32]) -> Node {
    plain_module(id, deps.iter().map(|d| require_stmt(*d)).collect())
}

#[test]
fn other_names_for_the_bundle() {
    let fmt = BundleFormat::new("load".to_string(), "table".to_string());
    let load = |id: u32| stmt(Kind::ExprStmt, vec![expr(Kind::Call, vec![ident("load"), num(id)])]);
    let no_function = part(Kind::KeyValue, vec![num_key(1), num(0)]);
    let tree = program(vec![
        Node::new(Category::Stmt, Kind::ExprStmt, none(), vec![expr(Kind::Assign, vec![ident("table"), expr(Kind::Object, vec![no_function])])]),
        load(1),
        require_stmt(1),
    ]);
    let graph = analyze(&tree, &fmt);
    assert_eq!(graph.modules.len(), 1);
    assert_eq!(graph.entry_points, ids(&["1"]));
    assert!(analyze(&tree, &BundleFormat::webpack()).modules.is_empty());
}

#[test]
fn string_identifiers_load_modules_too() {
    let load = |id: &str| stmt(Kind::ExprStmt, vec![expr(Kind::Call, vec![ident("__webpack_require__"), text(id)])]);
    let skey = |text: &str| Node::leaf(Category::Part, Kind::Str, none(), text.to_string(), 0);
    let tree = program(vec![
        plain_table(vec![
            part(Kind::KeyValue, vec![skey("a"), function(&[], vec![load("b"), load("b"), load("zz")])]),
            part(Kind::KeyValue, vec![skey("b"), function(&[], vec![])]),
        ]),
        load("a"),
        load("a"),
        load("unknown"),
        stmt(Kind::ExprStmt, vec![expr(Kind::Call, vec![ident("__webpack_require__"), ident("dynamic")])]),
    ]);
    let graph = analyze(&tree, &BundleFormat::webpack());
    assert_eq!(graph.entry_points, ids(&["a"]));
    assert_eq!(graph.modules[0].dependencies, ids(&["b", "zz"]));
    assert_eq!(graph.modules[1].dependents, ids(&["a"]));
    assert_eq!(graph.modules[0].source, "function() { __webpack_require__(b); __webpack_require__(zz) }");
    assert_eq!(graph.get_reachable_modules(), ids(&["a", "b", "zz"]));
    assert!(graph.get_unreachable_modules().is_empty());
}

#[test]
fn the_shaker_graph_records_exports_and_effects() {
    let member = |object: &str, name: &str| expr(Kind::Member, vec![ident(object), binding(name)]);
    let assign = |target: Node, value: Node| stmt(Kind::ExprStmt, vec![expr(Kind::Assign, vec![target, value])]);
    let tree = program(vec![
        plain_table(vec![
            plain_module(1, vec![assign(member("exports", "a"), num(1)), assign(member("__webpack_exports__", "b"), num(2)), assign(member("exports", "a"), num(3)), require_stmt(2)]),
            plain_module(2, vec![require_var("x", 3)]),
            plain_module(3, vec![stmt(Kind::ExprStmt, vec![expr(Kind::Update, vec![ident("n")])])]),
            plain_module(4, vec![stmt(Kind::ExprStmt, vec![expr(Kind::Call, vec![ident("helper")])])]),
        ]),
        stmt(Kind::ExprStmt, vec![expr(Kind::Call, vec![member("__webpack_require__", "r"), ident("x")])]),
        assign(member("__webpack_require__", "d"), num(0)),
        stmt(Kind::ExprStmt, vec![member("__webpack_require__", "r")]),
        require_stmt(1),
    ]);
    let mut graph = WebpackModuleGraph::new();
    graph.hydrate_module_graph_from_chunk(&tree);
    assert_eq!(graph.modules.len(), 4);
    assert_eq!(graph.modules[0].exports, ids(&["a", "b"]));
    assert_eq!(graph.modules[0].get_dependency_ids(), ids(&["2"]));
    assert!(graph.modules[0].is_entry);
    assert!(graph.modules[0].has_side_effects);
    assert!(!graph.modules[1].is_entry);
    assert!(!graph.modules[1].has_side_effects);
    assert!(graph.modules[2].has_side_effects);
    assert!(graph.modules[3].has_side_effects);
    assert!(graph.modules[1].exports.is_empty());
    assert_eq!(graph.entry_modules, ids(&["1"]));
    assert_eq!(graph.reachable_modules, ids(&["1", "2", "3"]));
    assert_eq!(graph.runtime_functions, ids(&["r", "d"]));
    assert_eq!(graph.get_unused_modules(), ids(&["4"]));
    assert!(graph.get_unused_requires(&tree).is_empty());
    graph.reachable_modules = ids(&["2"]);
    assert_eq!(graph.get_unused_requires(&tree), ids(&["1"]));
}

#[test]
fn modules_whose_value_is_assigned_are_held_back() {
    let tree = program(vec![
        plain_table(vec![chain_plain(1, &[]), plain_module(2, vec![require_var("x", 3)]), chain_plain(3, &[]), chain_plain(4, &[])]),
        stmt(Kind::ExprStmt, vec![expr(Kind::Assign, vec![ident("y"), require(4)])]),
    ]);
    let out = get_safely_removable_modules(&tree, &ids(&["1", "2", "3", "4"]), &BundleFormat::webpack());
    assert_eq!(out, ids(&["1", "2"]));
}

/// The statements of the first bundle: the table, the runtime function and
/// the inner function that loads the entry between the two directives.
fn entry_bundle() -> Vec<Node> {
    let entry = at(Span::new(500, 527), require_stmt(100));
    let close = at(Span::new(560, 561), stmt(Kind::Empty, vec![]));
    vec![
        stmt(Kind::ExprStmt, vec![text("use strict")]),
        plain_table(vec![
            plain_module(100, vec![log("Entry module"), require_stmt(200)]),
            plain_module(200, vec![log("Used dependency")]),
            plain_module(300, vec![log("Unused module - should be tree shaken")]),
        ]),
        Node::new(
            Category::Stmt,
            Kind::Function,
            none(),
            vec![binding("__webpack_require__"), binding("moduleId"), part(Kind::Block, vec![stmt(Kind::Other, vec![expr(Kind::Object, vec![])])])],
        ),
        arrow_iife(vec![entry, close]),
    ]
}

fn entry_bundle_comments() -> Comments {
    leading(vec![
        (500, " @common:if [condition=\"features.enableWebpackEntry\"] "),
        (560, " @common:endif "),
    ])
}

fn entry_bundle_config() -> Json {
    object(vec![("features", object(vec![("enableWebpackEntry", Json::Bool(false))]))])
}

/// The block of `(()=>{ block })();`.
fn block_of(wrapper: &Node) -> &Node {
    &wrapper.children[0].children[0].children[0].children[0]
}

#[test]
fn test_webpack_tree_shaking_integration() {
    let tree = program(vec![arrow_iife(entry_bundle())]);
    let (result, rest) = optimize(&tree, &entry_bundle_comments(), entry_bundle_config()).expect("a tree");

    // The false condition takes the entry call away: nothing loads a module.
    let body = &block_of(&result.children[0]).children;
    let inner = block_of(&body[3]);
    assert_eq!(inner.kind, Kind::Block);
    assert_eq!(inner.children.len(), 1);
    assert_eq!(inner.children[0].kind, Kind::Empty);
    let graph = analyze(&result, &BundleFormat::webpack());
    assert!(graph.entry_points.is_empty());
    assert!(rest.leading.iter().all(|g| g.comments.is_empty()));
    // The declaration stands in a function body, not at the top level of
    // the unit: it is no table of the unit, and is left to the clean-up of
    // unused declarations that follows the pass.
    assert!(graph.modules.is_empty());
    assert_eq!(table_keys(body), Some(ids(&["100", "200", "300"])));
}

#[test]
fn without_its_entry_a_bundle_at_the_top_level_loses_every_module() {
    let tree = program(entry_bundle());
    let (result, rest) = optimize(&tree, &entry_bundle_comments(), entry_bundle_config()).expect("a tree");

    let body = &result.children;
    let keys = table_keys(body).expect("the modules table");
    assert!(!keys.contains(&"100".to_string()), "Module 100 should be tree shaken");
    assert!(!keys.contains(&"200".to_string()), "Module 200 should be tree shaken");
    assert!(!keys.contains(&"300".to_string()), "Module 300 should be tree shaken");
    assert!(keys.is_empty());
    let inner = block_of(&body[3]);
    assert_eq!(inner.kind, Kind::Block);
    assert_eq!(inner.children.len(), 1);
    assert_eq!(inner.children[0].kind, Kind::Empty);
    assert!(rest.leading.iter().all(|g| g.comments.is_empty()));
}

/// The statements of the second bundle: the entry module loads two modules
/// between directives, and the inner function loads the entry between two
/// more.
fn feature_bundle() -> Vec<Node> {
    let feature_a = at(Span::new(200, 224), require_stmt(200));
    let feature_b = at(Span::new(300, 324), require_stmt(300));
    let end_of_module = at(Span::new(350, 351), stmt(Kind::Empty, vec![]));
    let entry = at(Span::new(700, 727), require_stmt(100));
    let close = at(Span::new(760, 761), stmt(Kind::Empty, vec![]));
    vec![
        stmt(Kind::ExprStmt, vec![text("use strict")]),
        plain_table(vec![
            plain_module(100, vec![log("Entry module"), feature_a, feature_b, end_of_module]),
            plain_module(200, vec![log("Feature A module")]),
            plain_module(300, vec![log("Feature B module")]),
            plain_module(400, vec![log("Completely unused module")]),
        ]),
        arrow_iife(vec![entry, close]),
    ]
}

fn feature_bundle_comments() -> Comments {
    leading(vec![
        (200, " @common:if [condition=\"features.enableFeatureA\"] "),
        (300, " @common:endif "),
        (300, " @common:if [condition=\"features.enableFeatureB\"] "),
        (350, " @common:endif "),
        (700, " @common:if [condition=\"features.enableEntryPoint\"] "),
        (760, " @common:endif "),
    ])
}

fn feature_bundle_config() -> Json {
    object(vec![(
        "features",
        object(vec![
            ("enableFeatureA", Json::Bool(false)),
            ("enableFeatureB", Json::Bool(false)),
            ("enableEntryPoint", Json::Bool(false)),
        ]),
    )])
}

#[test]
fn test_webpack_tree_shaking_with_macro_conditions() {
    let tree = program(vec![arrow_iife(feature_bundle())]);
    let (result, _) = optimize(&tree, &feature_bundle_comments(), feature_bundle_config()).expect("a tree");

    // Every load call stood between directives whose condition is false.
    let body = &block_of(&result.children[0]).children;
    let graph = analyze(&result, &BundleFormat::webpack());
    assert!(graph.entry_points.is_empty());
    assert_eq!(block_of(&body[2]).children.len(), 1);
    // Below the top level the declaration is no table of the unit: its
    // properties stay, the entry module without the calls that were removed.
    assert!(graph.modules.is_empty());
    assert_eq!(table_keys(body), Some(ids(&["100", "200", "300", "400"])));
    let entry_module = &body[1].children[0].children[1].children[0].children[1];
    assert_eq!(entry_module.kind, Kind::Function);
    assert_eq!(entry_module.children[3].children.len(), 2);
}

#[test]
fn without_entry_and_features_a_bundle_at_the_top_level_loses_every_module() {
    let tree = program(feature_bundle());
    let (result, _) = optimize(&tree, &feature_bundle_comments(), feature_bundle_config()).expect("a tree");
    let body = &result.children;
    let keys = table_keys(body).expect("the modules table");
    assert!(!keys.contains(&"100".to_string()), "Entry module should be tree shaken");
    assert!(!keys.contains(&"200".to_string()), "Feature A module should be tree shaken");
    assert!(!keys.contains(&"300".to_string()), "Feature B module should be tree shaken");
    assert!(!keys.contains(&"400".to_string()), "Unused module should be tree shaken");
}

#[test]
fn conditions_decide_which_modules_stay() {
    let feature_a = at(Span::new(200, 224), require_stmt(200));
    let feature_b = at(Span::new(300, 324), require_stmt(300));
    let end_of_module = at(Span::new(350, 351), stmt(Kind::Empty, vec![]));
    let tree = program(vec![
        plain_table(vec![
            plain_module(100, vec![feature_a, feature_b, end_of_module]),
            plain_module(200, vec![]),
            plain_module(300, vec![]),
        ]),
        require_stmt(100),
    ]);
    let comments = leading(vec![
        (200, "@common:if [condition=\"a\"]"),
        (300, "@common:endif"),
        (300, "@common:if [condition=\"b\"]"),
        (350, "@common:endif"),
    ]);
    let config = object(vec![("a", Json::Bool(true)), ("b", Json::Bool(false))]);
    let (result, _) = optimize(&tree, &comments, config).expect("a tree");
    assert_eq!(table_keys(&result.children), Some(ids(&["100", "200"])));
}

#[test]
fn optimizing_twice_changes_nothing() {
    let feature_a = at(Span::new(200, 224), require_stmt(200));
    let end_of_module = at(Span::new(350, 351), stmt(Kind::Empty, vec![]));
    let placeholder = at(Span::new(544, 555), ident("PLACEHOLDER"));
    let tree = program(vec![
        plain_table(vec![
            plain_module(100, vec![feature_a, end_of_module]),
            plain_module(200, vec![]),
            plain_module(300, vec![]),
        ]),
        require_stmt(100),
        at(Span::new(501, 556), var_decl("var", "x", placeholder)),
    ]);
    let comments = leading(vec![
        (200, "@common:if [condition=\"a\"]"),
        (350, "@common:endif"),
        (544, "@common:define-inline [value=\"list\"]"),
        (600, "an ordinary comment"),
    ]);
    let config = || {
        object(vec![("a", Json::Bool(false)), ("list", Json::Array(vec![Json::Null, Json::Bool(true)]))])
    };
    let (once, rest) = optimize(&tree, &comments, config()).expect("a tree");
    assert_eq!(table_keys(&once.children), Some(ids(&["100"])));
    let (twice, rest_again) = optimize(&once, &rest, config()).expect("a tree");
    assert_eq!(format!("{:?}", twice), format!("{:?}", once));
    assert_eq!(format!("{:?}", rest_again), format!("{:?}", rest));
    assert_eq!(rest.leading[3].comments[0].text, "an ordinary comment");
    assert_ne!(format!("{:?}", once), format!("{:?}", tree));
}

#[test]
fn truthy_conditions_leave_the_unit_as_it_is() {
    let a = at(Span::new(70, 72), stmt(Kind::ExprStmt, vec![at(Span::new(70, 71), ident("A"))]));
    let b = at(Span::new(92, 94), stmt(Kind::ExprStmt, vec![at(Span::new(92, 93), ident("B"))]));
    let tree = program(vec![a, b, plain_table(vec![plain_module(1, vec![])]), require_stmt(1)]);
    let comments = leading(vec![(70, "@common:if [condition=\"on\"]"), (92, "@common:endif")]);
    let (out, _) = optimize(&tree, &comments, object(vec![("on", Json::Bool(true))])).expect("a tree");
    assert_eq!(format!("{:?}", out), format!("{:?}", tree));
}

#[test]
fn a_table_below_the_top_level_is_no_table_of_the_unit() {
    let wrapped = program(vec![arrow_iife(vec![
        plain_table(vec![plain_module(1, vec![]), plain_module(2, vec![])]),
        require_stmt(1),
    ])]);
    let fmt = BundleFormat::webpack();
    let graph = analyze(&wrapped, &fmt);
    assert!(graph.modules.is_empty());
    assert!(graph.entry_points.is_empty());
    let mut tree = wrapped.clone();
    let stats = perform_webpack_tree_shaking(&mut tree);
    assert_eq!(format!("{:?}", tree), format!("{:?}", wrapped));
    assert_eq!(stats.total_modules, 0);
}

#[test]
fn the_shape_counts_only_where_the_symbol_is_not_bound() {
    let shaped = || var_decl("var", "other", expr(Kind::Object, vec![plain_module(7, vec![]), plain_module(8, vec![])]));
    let fmt = BundleFormat::webpack();
    let both = program(vec![plain_table(vec![plain_module(1, vec![])]), shaped(), require_stmt(7), require_stmt(1)]);
    let graph = analyze(&both, &fmt);
    let keys: Vec<String> = graph.modules.iter().map(|m| m.id.clone()).collect();
    assert_eq!(keys, ids(&["1"]));
    assert_eq!(graph.entry_points, ids(&["1"]));
    let mut deleted = Deleted { definitions: vec![], calls: vec![] };
    let out = shake_tree(&both, &ids(&["7", "8", "1"]), &fmt, &mut deleted);
    assert_eq!(deleted.definitions, ids(&["1"]));
    assert_eq!(out.children[1].children[0].children[1].children.len(), 2);

    let alone = program(vec![shaped(), require_stmt(7)]);
    let graph = analyze(&alone, &fmt);
    let keys: Vec<String> = graph.modules.iter().map(|m| m.id.clone()).collect();
    assert_eq!(keys, ids(&["7", "8"]));
    assert_eq!(graph.get_unreachable_modules(), ids(&["8"]));
}

#[test]
fn a_shaped_literal_in_a_function_or_an_argument_is_no_table() {
    let shaped = || expr(Kind::Object, vec![plain_module(7, vec![require_stmt(9)]), plain_module(8, vec![])]);
    let fmt = BundleFormat::webpack();
    let in_body = program(vec![iife(vec![stmt(Kind::ExprStmt, vec![shaped()])]), require_stmt(7)]);
    assert!(analyze(&in_body, &fmt).modules.is_empty());
    let as_argument = program(vec![stmt(Kind::ExprStmt, vec![expr(Kind::Call, vec![ident("boot"), shaped()])])]);
    assert!(analyze(&as_argument, &fmt).modules.is_empty());
    let at_top = program(vec![stmt(Kind::ExprStmt, vec![paren(shaped())]), require_stmt(7)]);
    let graph = analyze(&at_top, &fmt);
    assert_eq!(graph.modules.len(), 2);
    assert_eq!(graph.entry_points, ids(&["7"]));
    assert_eq!(graph.get_reachable_modules(), ids(&["7", "9"]));
    let mut deleted = Deleted { definitions: vec![], calls: vec![] };
    let out = shake_tree(&in_body, &ids(&["7", "8"]), &fmt, &mut deleted);
    assert!(deleted.definitions.is_empty());
    assert_eq!(deleted.calls, ids(&["7"]));
    assert_eq!(out.children.len(), 1);
}

#[test]
fn a_table_that_loses_its_shape_is_left_alone_the_second_time() {
    let other = |name: &str, value: u32| part(Kind::KeyValue, vec![binding(name), num(value)]);
    let shaped = var_decl(
        "var",
        "t",
        expr(
            Kind::Object,
            vec![
                plain_module(1, vec![require_stmt(9)]),
                plain_module(2, vec![]),
                plain_module(3, vec![]),
                other("x", 1),
                other("y", 2),
            ],
        ),
    );
    let tree = program(vec![shaped, require_stmt(1)]);
    let fmt = BundleFormat::webpack();
    let graph = analyze(&tree, &fmt);
    assert_eq!(graph.modules.len(), 3);
    assert_eq!(graph.get_unreachable_modules(), ids(&["2", "3"]));
    assert_eq!(graph.get_reachable_modules(), ids(&["1", "9"]));

    let (once, rest) = optimize(&tree, &no_comments(), object(vec![])).expect("a tree");
    let literal = &once.children[0].children[0].children[1];
    assert_eq!(literal.kind, Kind::Object);
    assert_eq!(literal.children.len(), 3);
    // One property in three has the shape of a definition: the literal is
    // no table any more, and what its function loads is loaded by the unit.
    let graph = analyze(&once, &fmt);
    assert!(graph.modules.is_empty());
    assert!(graph.entry_points.is_empty());
    let (twice, _) = optimize(&once, &rest, object(vec![])).expect("a tree");
    assert_eq!(format!("{:?}", twice), format!("{:?}", once));
}
