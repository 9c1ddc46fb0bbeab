#![allow(dead_code)]
use swc_macro::ast::{Category, Kind, Node};
use swc_macro::directive::{pair_directives, Directive, DirectiveError};
use swc_macro::grammar::{find_attr, scan_attrs};
use swc_macro::json::{Json, Member, Number};
use swc_macro::macro_parser::{Attached, Comment, Comments, MacroNode, MacroParser};
use swc_macro::meta_data::{Metadata, ToSwcAst};
use swc_macro::span::Span;
use swc_macro::transform::{condition_transform, Decision, RemoveReplaceTransformer};

fn sp(lo: u32, hi: u32) -> Span {
    Span::new(lo, hi)
}

fn comment(text: &str) -> Comment {
    Comment { span: sp(1, 2), text: text.to_string() }
}

fn at(pos: u32, texts: &[&str]) -> Attached {
    Attached { pos, comments: texts.iter().map(|t| comment(t)).collect() }
}

fn object(members: Vec<(&str, Json)>) -> Json {
    Json::Object(members.into_iter().map(|(k, v)| Member { key: k.to_string(), value: v }).collect())
}

fn number(value: f64) -> Json {
    Json::Number(Number { bits: value.to_bits(), text: value.to_string() })
}

fn text(value: &str) -> Json {
    Json::Text(value.to_string())
}

fn ident(name: &str, span: Span) -> Node {
    Node::leaf(Category::Expr, Kind::Ident, span, name.to_string(), 0)
}

fn item(name: &str, lo: u32, hi: u32) -> Node {
    Node::new(Category::ModuleItem, Kind::ExprStmt, sp(lo, hi), vec![ident(name, sp(lo, hi - 1))])
}

fn program(items: Vec<Node>) -> Node {
    Node::new(Category::Part, Kind::Program, sp(1, 1000), items)
}

fn names(program: &Node) -> Vec<String> {
    program.children.iter().map(|s| s.children[0].text.clone()).collect()
}

fn parse_one(text: &str) -> Option<MacroNode> {
    MacroParser::new("ns").parse_macro(&comment(text))
}

fn pairs(attrs: &[swc_macro::grammar::Attr]) -> Vec<(String, String)> {
    attrs.iter().map(|a| (a.key.clone(), a.value.clone())).collect()
}

fn pair(k: &str, v: &str) -> (String, String) {
    (k.to_string(), v.to_string())
}

#[test]
fn annotation_with_attributes() {
    let m = parse_one(" @ns:if [condition=\"a.b\"] ").expect("an annotation");
    assert_eq!(m.namespace, "ns");
    assert_eq!(m.directive, "if");
    assert_eq!(pairs(&m.attrs), vec![pair("condition", "a.b")]);
    assert_eq!(m.span, sp(1, 2));
}

#[test]
fn annotation_without_attributes() {
    let m = parse_one("@ns:endif").expect("an annotation");
    assert_eq!(m.directive, "endif");
    assert!(m.attrs.is_empty());
}

#[test]
fn annotation_of_another_namespace_is_not_ours() {
    assert!(parse_one("@other:if [condition=\"x\"]").is_none());
    assert!(MacroParser::new("other").parse_macro(&comment("@other:endif")).is_some());
}

#[test]
fn only_the_first_annotation_of_a_comment_counts() {
    assert!(parse_one("@other:x @ns:if [condition=\"c\"]").is_none());
    let m = parse_one("@ns:endif @ns:if [condition=\"c\"]").unwrap();
    assert_eq!(m.directive, "endif");
}

#[test]
fn text_that_is_no_annotation() {
    assert!(parse_one("").is_none());
    assert!(parse_one("plain words").is_none());
    assert!(parse_one("@ns").is_none());
    assert!(parse_one("@ns:").is_none());
    assert!(parse_one("@ns: if").is_none());
    assert!(parse_one("@:if").is_none());
    assert!(parse_one("@ ns:if").is_none());
}

#[test]
fn namespace_may_hold_an_at_sign() {
    let m = MacroParser::new("a@b").parse_macro(&comment("@a@b:c")).unwrap();
    assert_eq!(m.namespace, "a@b");
    assert_eq!(m.directive, "c");
}

#[test]
fn unclosed_block_gives_no_attributes() {
    let m = parse_one("@ns:if [condition=\"c\"").unwrap();
    assert_eq!(m.directive, "if");
    assert!(m.attrs.is_empty());
}

#[test]
fn block_may_follow_white_space() {
    let m = parse_one("@ns:define-inline \t[value=\"v\", default=\"d\"]").unwrap();
    assert_eq!(m.directive, "define-inline");
    assert_eq!(pairs(&m.attrs), vec![pair("value", "v"), pair("default", "d")]);
}

#[test]
fn attributes_are_separated_by_commas_or_spaces() {
    assert_eq!(pairs(&scan_attrs("a=\"1\",b=\"2\"")), vec![pair("a", "1"), pair("b", "2")]);
    assert_eq!(pairs(&scan_attrs("a=\"1\" b=\"2\"")), vec![pair("a", "1"), pair("b", "2")]);
    assert_eq!(pairs(&scan_attrs("a = \"1\" ,, b= \"\"")), vec![pair("a", "1"), pair("b", "")]);
    assert_eq!(pairs(&scan_attrs("junk a=\"1\"")), vec![pair("a", "1")]);
    assert_eq!(pairs(&scan_attrs("a=1 b=\"2\"")), vec![pair("b", "2")]);
    assert!(scan_attrs("a=\"unclosed").is_empty());
    assert!(scan_attrs("").is_empty());
}

#[test]
fn a_repeated_attribute_takes_its_last_value() {
    let attrs = scan_attrs("k=\"1\" k=\"2\"");
    assert_eq!(find_attr(&attrs, "k"), Some(&"2".to_string()));
    assert_eq!(find_attr(&attrs, "other"), None);
}

#[test]
fn scanning_takes_annotated_comments_out_of_the_stream() {
    let mut comments = Comments {
        leading: vec![at(10, &["keep me", "@ns:if [condition=\"c\"]"]), at(30, &["@other:if", "@ns:endif"])],
        trailing: vec![at(20, &["@ns:define-inline [value=\"v\"]", "tail"])],
    };
    let macros = MacroParser::new("ns").parse(&mut comments);
    let found: Vec<(u32, String)> = macros.iter().map(|(p, m)| (*p, m.directive.clone())).collect();
    assert_eq!(
        found,
        vec![(10, "if".to_string()), (30, "endif".to_string()), (20, "define-inline".to_string())]
    );
    let left: Vec<Vec<String>> =
        comments.leading.iter().map(|g| g.comments.iter().map(|c| c.text.clone()).collect()).collect();
    assert_eq!(left, vec![vec!["keep me".to_string()], vec!["@other:if".to_string()]]);
    assert_eq!(comments.trailing[0].comments.len(), 1);
    assert_eq!(comments.trailing[0].comments[0].text, "tail");
    assert_eq!(comments.leading[0].pos, 10);

    let again = MacroParser::new("ns").parse(&mut comments);
    assert!(again.is_empty());
    assert_eq!(comments.leading[1].comments[0].text, "@other:if");
}

fn macro_at(pos: u32, text: &str) -> (u32, MacroNode) {
    (pos, parse_one(text).expect("an annotation"))
}

#[test]
fn pairing_orders_by_position_and_nests() {
    let macros = vec![
        macro_at(40, "@ns:endif"),
        macro_at(10, "@ns:if [condition=\"outer\"]"),
        macro_at(30, "@ns:endif"),
        macro_at(20, "@ns:if [condition=\"inner\"]"),
        macro_at(25, "@ns:unknown"),
    ];
    let directives = pair_directives(&macros).expect("paired");
    assert_eq!(directives.len(), 2);
    match &directives[0] {
        Directive::If(d) => {
            assert_eq!(d.range, sp(20, 30));
            assert_eq!(d.condition, "inner");
        }
        _ => panic!("expected a conditional"),
    }
    match &directives[1] {
        Directive::If(d) => {
            assert_eq!(d.range, sp(10, 40));
            assert_eq!(d.condition, "outer");
        }
        _ => panic!("expected a conditional"),
    }
}

#[test]
fn annotations_at_one_position_keep_their_order() {
    let macros = vec![
        macro_at(5, "@ns:if [condition=\"c\"]"),
        macro_at(5, "@ns:endif"),
        macro_at(5, "@ns:define-inline [value=\"v\" default=\"d\"]"),
    ];
    let directives = pair_directives(&macros).expect("paired");
    assert_eq!(directives.len(), 2);
    assert!(matches!(&directives[0], Directive::If(d) if d.range == sp(5, 5)));
    match &directives[1] {
        Directive::DefineInline(d) => {
            assert_eq!(d.pos, 5);
            assert_eq!(d.value, "v");
            assert_eq!(d.default, Some("d".to_string()));
        }
        _ => panic!("expected a value directive"),
    }
}

#[test]
fn stray_endif_is_unpaired() {
    let macros = vec![macro_at(7, "@ns:endif"), macro_at(9, "@ns:if [condition=\"c\"]")];
    match pair_directives(&macros) {
        Err(DirectiveError::UnpairedDirective { pos, directive }) => {
            assert_eq!(pos, 7);
            assert_eq!(directive, "endif");
        }
        other => panic!("unexpected {:?}", other.map(|d| d.len())),
    }
}

#[test]
fn open_if_is_unpaired() {
    let macros = vec![macro_at(3, "@ns:if [condition=\"a\"]"), macro_at(9, "@ns:if [condition=\"b\"]"), macro_at(12, "@ns:endif")];
    match pair_directives(&macros) {
        Err(DirectiveError::UnpairedDirective { pos, directive }) => {
            assert_eq!(pos, 3);
            assert_eq!(directive, "if");
        }
        other => panic!("unexpected {:?}", other.map(|d| d.len())),
    }
}

#[test]
fn missing_attributes_are_malformed() {
    match pair_directives(&vec![macro_at(4, "@ns:if [cond=\"a\"]")]) {
        Err(DirectiveError::MalformedDirective { pos, directive }) => {
            assert_eq!(pos, 4);
            assert_eq!(directive, "if");
        }
        other => panic!("unexpected {:?}", other.map(|d| d.len())),
    }
    match pair_directives(&vec![macro_at(6, "@ns:define-inline [default=\"a\"]")]) {
        Err(DirectiveError::MalformedDirective { pos, directive }) => {
            assert_eq!(pos, 6);
            assert_eq!(directive, "define-inline");
        }
        other => panic!("unexpected {:?}", other.map(|d| d.len())),
    }
}

#[test]
fn query_descends_through_objects_only() {
    let doc = object(vec![
        ("a", object(vec![("b", Json::Bool(false)), ("", number(1.0))])),
        ("list", Json::Array(vec![Json::Null])),
        ("a.b", Json::Bool(true)),
    ]);
    assert!(matches!(doc.query("a.b"), Some(Json::Bool(false))));
    assert!(matches!(doc.query("a."), Some(Json::Number(_))));
    assert!(matches!(doc.query("a"), Some(Json::Object(_))));
    assert!(doc.query("a.c").is_none());
    assert!(doc.query("a.b.c").is_none());
    assert!(doc.query("list.0").is_none());
    assert!(doc.query("").is_none());
    assert!(Json::Null.query("a").is_none());
    assert!(matches!(Metadata::query(&doc, "list"), Some(Json::Array(_))));
}

#[test]
fn conditions_are_true_for_the_boolean_true_only() {
    let doc = object(vec![
        ("yes", Json::Bool(true)),
        ("no", Json::Bool(false)),
        ("text", text("true")),
        ("one", number(1.0)),
        ("obj", object(vec![("k", Json::Null)])),
    ]);
    assert!(doc.evaluate_bool("yes"));
    assert!(!doc.evaluate_bool("no"));
    assert!(!doc.evaluate_bool("text"));
    assert!(!doc.evaluate_bool("one"));
    assert!(!doc.evaluate_bool("obj"));
    assert!(!doc.evaluate_bool("missing"));
    assert!(Metadata::evaluate_bool(&doc, "yes"));
}

#[test]
fn truthiness_follows_the_kind_of_value() {
    assert!(!Json::Null.is_truthy());
    assert!(Json::Bool(true).is_truthy());
    assert!(!Json::Bool(false).is_truthy());
    assert!(text("x").is_truthy());
    assert!(!text("").is_truthy());
    assert!(Json::Array(vec![Json::Null]).is_truthy());
    assert!(!Json::Array(vec![]).is_truthy());
    assert!(object(vec![("k", Json::Null)]).is_truthy());
    assert!(!object(vec![]).is_truthy());
    assert!(number(1.5).is_truthy());
    assert!(number(-2.0).is_truthy());
    assert!(number(5e-324).is_truthy());
    assert!(!number(0.0).is_truthy());
    assert!(!number(-0.0).is_truthy());
    assert!(!number(f64::INFINITY).is_truthy());
    assert!(!number(f64::NEG_INFINITY).is_truthy());
    assert!(!number(f64::NAN).is_truthy());
}

#[test]
fn values_are_rendered_as_literals() {
    let doc = object(vec![
        ("n", Json::Null),
        ("list", Json::Array(vec![Json::Bool(true), number(42.0), text("s")])),
    ]);
    let node = doc.to_ast();
    assert_eq!(node.kind, Kind::Object);
    assert_eq!(node.category, Category::Expr);
    assert_eq!(node.span, sp(0, 0));
    assert_eq!(node.children.len(), 2);
    let first = &node.children[0];
    assert_eq!(first.kind, Kind::KeyValue);
    assert_eq!(first.children[0].kind, Kind::Str);
    assert_eq!(first.children[0].category, Category::Part);
    assert_eq!(first.children[0].text, "n");
    assert_eq!(first.children[1].kind, Kind::Null);
    let list = &node.children[1].children[1];
    assert_eq!(list.kind, Kind::Array);
    assert_eq!(list.children[0].kind, Kind::Bool);
    assert_eq!(list.children[0].bits, 1);
    assert_eq!(list.children[1].kind, Kind::Num);
    assert_eq!(list.children[1].bits, 42f64.to_bits());
    assert_eq!(list.children[1].text, "42");
    assert_eq!(list.children[2].kind, Kind::Str);
    assert_eq!(list.children[2].text, "s");
    let s = "plain".to_string().to_ast();
    assert_eq!(s.kind, Kind::Str);
    assert_eq!(s.text, "plain");
    assert_eq!(Json::Bool(false).to_ast().bits, 0);
}

fn lists(remove: Vec<Span>, replace: Vec<(u32, Node)>) -> RemoveReplaceTransformer {
    RemoveReplaceTransformer { remove_list: remove, replace_expr_list: replace }
}

#[test]
fn a_statement_within_a_false_range_leaves_its_sequence() {
    let t = lists(vec![sp(30, 53)], vec![]);
    let out = t.rewrite(&program(vec![item("X", 30, 32), item("Y", 53, 55)]));
    assert_eq!(names(&out), vec!["Y".to_string()]);
}

#[test]
fn a_statement_that_only_overlaps_a_range_stays() {
    let t = lists(vec![sp(30, 53)], vec![]);
    let out = t.rewrite(&program(vec![item("W", 28, 31), item("Z", 52, 54)]));
    assert_eq!(out.children.len(), 2);
    assert_eq!(out.children[0].children[0].text, "W");
    assert_eq!(out.children[1].kind, Kind::ExprStmt);
    assert_eq!(out.children[1].span, sp(52, 54));
    assert_eq!(out.children[1].children[0].kind, Kind::Null);
}

#[test]
fn a_removed_expression_leaves_null() {
    let t = lists(vec![sp(10, 20)], vec![]);
    let call = Node::new(
        Category::Expr,
        Kind::Call,
        sp(5, 30),
        vec![ident("f", sp(5, 6)), ident("gone", sp(12, 16)), ident("kept", sp(22, 26))],
    );
    let out = t.rewrite(&call);
    assert_eq!(out.children.len(), 3);
    assert_eq!(out.children[1].kind, Kind::Null);
    assert_eq!(out.children[1].span, sp(0, 0));
    assert_eq!(out.children[2].text, "kept");
}

#[test]
fn a_removed_statement_outside_a_sequence_leaves_an_empty_statement() {
    let t = lists(vec![sp(10, 20)], vec![]);
    let body = Node::new(Category::Stmt, Kind::ExprStmt, sp(12, 18), vec![ident("x", sp(12, 13))]);
    let branch = Node::new(Category::Stmt, Kind::Other, sp(5, 18), vec![ident("c", sp(8, 9)), body]);
    let out = t.rewrite(&branch);
    assert_eq!(out.children.len(), 2);
    assert_eq!(out.children[1].kind, Kind::Empty);
    assert_eq!(out.children[1].category, Category::Stmt);
}

#[test]
fn removal_comes_before_replacement_and_parts_are_left_alone() {
    let literal = Node::leaf(Category::Expr, Kind::Num, sp(0, 0), "7".to_string(), 7f64.to_bits());
    let t = lists(vec![sp(10, 20)], vec![(12, literal.clone()), (40, literal)]);
    assert!(matches!(t.decide(Category::Expr, sp(12, 14)), Decision::Remove));
    assert!(matches!(t.decide(Category::Expr, sp(40, 44)), Decision::Replace(_)));
    assert!(matches!(t.decide(Category::Stmt, sp(40, 44)), Decision::Descend));
    assert!(matches!(t.decide(Category::Part, sp(12, 14)), Decision::Descend));
    assert!(matches!(t.decide(Category::ModuleItem, sp(10, 20)), Decision::Remove));
    assert!(matches!(t.decide(Category::Expr, sp(41, 44)), Decision::Descend));
}

#[test]
fn the_first_replacement_for_a_position_counts() {
    let a = Node::leaf(Category::Expr, Kind::Str, sp(0, 0), "a".to_string(), 0);
    let b = Node::leaf(Category::Expr, Kind::Str, sp(0, 0), "b".to_string(), 0);
    let t = lists(vec![], vec![(9, a), (9, b)]);
    let mut node = ident("P", sp(9, 10));
    t.visit_mut_expr(&mut node);
    assert_eq!(node.kind, Kind::Str);
    assert_eq!(node.text, "a");
}

#[test]
fn empty_lists_change_nothing() {
    let t = lists(vec![], vec![]);
    let tree = program(vec![item("X", 1, 3), item("Y", 4, 6)]);
    let mut copy = tree.clone();
    t.visit_mut_module_item(&mut copy);
    assert_eq!(names(&copy), names(&tree));
    let mut s = item("S", 7, 9);
    t.visit_mut_stmt(&mut s);
    assert_eq!(s.children[0].text, "S");
}

#[test]
fn false_conditions_fill_the_remove_list() {
    let doc = object(vec![("on", Json::Bool(true)), ("off", Json::Bool(false)), ("v", number(42.0))]);
    let macros = vec![
        macro_at(1, "@ns:if [condition=\"on\"]"),
        macro_at(5, "@ns:endif"),
        macro_at(6, "@ns:if [condition=\"off\"]"),
        macro_at(9, "@ns:endif"),
        macro_at(11, "@ns:define-inline [value=\"v\"]"),
        macro_at(12, "@ns:define-inline [value=\"w\" default=\"none\"]"),
    ];
    let t = condition_transform(doc, macros).expect("lists");
    assert_eq!(t.remove_list, vec![sp(6, 9)]);
    assert_eq!(t.replace_expr_list.len(), 2);
    assert_eq!(t.replace_expr_list[0].0, 11);
    assert_eq!(t.replace_expr_list[0].1.kind, Kind::Num);
    assert_eq!(t.replace_expr_list[0].1.text, "42");
    assert_eq!(t.replace_expr_list[1].0, 12);
    assert_eq!(t.replace_expr_list[1].1.kind, Kind::Str);
    assert_eq!(t.replace_expr_list[1].1.text, "none");
}

#[test]
fn a_value_without_path_or_default_is_unresolved() {
    let doc = object(vec![]);
    match condition_transform(doc, vec![macro_at(8, "@ns:define-inline [value=\"a.b\"]")]) {
        Err(DirectiveError::UnresolvedValueInline { pos, path }) => {
            assert_eq!(pos, 8);
            assert_eq!(path, "a.b");
        }
        _ => panic!("expected a failure"),
    }
}

#[test]
fn a_path_to_null_gives_the_null_literal() {
    let doc = object(vec![("v", Json::Null)]);
    let t = condition_transform(doc, vec![macro_at(8, "@ns:define-inline [value=\"v\" default=\"d\"]")]).unwrap();
    assert_eq!(t.replace_expr_list[0].1.kind, Kind::Null);
}

#[test]
fn failures_describe_themselves() {
    let malformed = DirectiveError::MalformedDirective { pos: 4, directive: "if".to_string() };
    assert_eq!(malformed.message(), "Malformed directive 'if' at position 4: a required attribute is missing");
    assert_eq!(malformed.position(), 4);
    let unpaired = DirectiveError::UnpairedDirective { pos: 70, directive: "endif".to_string() };
    assert_eq!(unpaired.message(), "Unpaired directive 'endif' at position 70");
    let unresolved = DirectiveError::UnresolvedValueInline { pos: 4294967295, path: "a.b".to_string() };
    assert_eq!(
        unresolved.message(),
        "Unresolved value 'a.b' at position 4294967295: the metadata has no such path and no default is given"
    );
    assert_eq!(unresolved.position(), 4294967295);
}
