#![allow(dead_code)]
use swc_macro::ast::{Category, Kind, Node};
use swc_macro::bundle::BundleFormat;
use swc_macro::error::WebpackGraphError;
use swc_macro::execution_order::comes_before;
use swc_macro::feature_analyzer::{
    analyze_conditional_spans, analyze_feature_dependencies, extract_config_values_simple,
    extract_feature_config, generate_optimization_recommendations, should_remove_conditional_span,
    should_skip_all_transformations, FeatureDependency, FeatureDetectionResult, FeatureFlag,
};
use swc_macro::json::{Json, Member, Number};
use swc_macro::mutation_tracker::{
    analyze_variable_usage, apply_mutation_insights_to_graph, is_module_still_referenced,
    track_eliminated_dependencies, MutationTracker, VariableUsage,
};
use swc_macro::optimization_pipeline::{
    run_optimization_pipeline, AdvancedOptimizationPipeline, OptimizationPipeline,
    OptimizationStatistics, PipelineOutcome,
};
use swc_macro::span::Span;
use swc_macro::text::{contains_text, decimal_text, prefix_text, split_text};
use swc_macro::webpack_module_graph::{WebpackModule, WebpackModuleGraph};

fn object(members: Vec<(&str, Json)>) -> Json {
    Json::Object(members.into_iter().map(|(k, v)| Member { key: k.to_string(), value: v }).collect())
}

fn number(value: f64) -> Json {
    Json::Number(Number { bits: value.to_bits(), text: value.to_string() })
}

fn flags(list: &[FeatureFlag]) -> Vec<(String, bool)> {
    list.iter().map(|f| (f.name.clone(), f.enabled)).collect()
}

fn flag(name: &str, enabled: bool) -> (String, bool) {
    (name.to_string(), enabled)
}

fn ids(list: &[&str]) -> Vec<String> {
    list.iter().map(|s| s.to_string()).collect()
}

fn none() -> Span {
    Span::new(0, 0)
}

fn expr(kind: Kind, children: Vec<Node>) -> Node {
    Node::new(Category::Expr, kind, none(), children)
}

fn part(kind: Kind, children: Vec<Node>) -> Node {
    Node::new(Category::Part, kind, none(), children)
}

fn stmt(kind: Kind, children: Vec<Node>) -> Node {
    Node::new(Category::Stmt, kind, none(), children)
}

fn ident(name: &str) -> Node {
    Node::leaf(Category::Expr, Kind::Ident, none(), name.to_string(), 0)
}

fn binding(name: &str) -> Node {
    Node::leaf(Category::Part, Kind::Ident, none(), name.to_string(), 0)
}

fn num_text(text: &str) -> Node {
    Node::leaf(Category::Expr, Kind::Num, none(), text.to_string(), 0)
}

fn key(text: &str) -> Node {
    Node::leaf(Category::Part, Kind::Num, none(), text.to_string(), 0)
}

fn require(id: &str) -> Node {
    expr(Kind::Call, vec![ident("__webpack_require__"), num_text(id)])
}

fn require_var(name: &str, id: &str) -> Node {
    stmt(Kind::Other, vec![part(Kind::Declarator, vec![binding(name), require(id)])])
}

fn member(object: Node, name: &str) -> Node {
    expr(Kind::Member, vec![object, binding(name)])
}

fn program(items: Vec<Node>) -> Node {
    part(Kind::Program, items)
}

fn module(id: &str, body: Vec<Node>) -> Node {
    let mut children = vec![binding("m"), binding("e"), binding("r")];
    children.push(part(Kind::Block, body));
    part(Kind::KeyValue, vec![key(id), expr(Kind::Function, children)])
}

fn table(modules: Vec<Node>) -> Node {
    stmt(Kind::Other, vec![part(Kind::Declarator, vec![binding("__webpack_modules__"), expr(Kind::Object, modules)])])
}

#[test]
fn every_value_of_a_configuration_is_a_flag() {
    let config = object(vec![
        ("features", object(vec![("a", Json::Bool(true)), ("b", Json::Bool(false)), ("n", number(0.0))])),
        ("name", Json::Text("x".to_string())),
        ("empty", Json::Text(String::new())),
        ("features.a", Json::Null),
    ]);
    assert_eq!(
        flags(&extract_config_values_simple(&config)),
        vec![
            flag("features", true),
            flag("features.a", false),
            flag("features.b", false),
            flag("features.n", false),
            flag("name", true),
            flag("empty", false),
        ]
    );
    assert!(extract_config_values_simple(&Json::Array(vec![Json::Bool(true)])).is_empty());
}

#[test]
fn feature_config_tells_what_is_enabled() {
    let config = object(vec![("features", object(vec![("a", Json::Bool(true)), ("b", Json::Bool(false))]))]);
    let found = extract_feature_config(&config).expect("a configuration");
    assert!(!found.all_enabled);
    assert!(found.should_optimize);
    assert_eq!(found.enabled_features, ids(&["features", "features.a"]));
    assert_eq!(found.feature_flags.len(), 3);
    assert!(!should_skip_all_transformations(&config));

    let all = object(vec![("features", object(vec![("a", Json::Bool(true))]))]);
    let found = extract_feature_config(&all).expect("a configuration");
    assert!(found.all_enabled);
    assert!(!found.should_optimize);
    assert!(should_skip_all_transformations(&all));
}

#[test]
fn a_configuration_without_values_is_refused() {
    match extract_feature_config(&object(vec![])) {
        Err(e) => assert_eq!(e, "No configuration values found"),
        Ok(_) => panic!("expected a failure"),
    }
    assert!(!should_skip_all_transformations(&object(vec![])));
    assert!(!should_skip_all_transformations(&Json::Null));
}

#[test]
fn conditional_spans_are_found_by_pattern() {
    let config = object(vec![("features", object(vec![("enableA", Json::Bool(false)), ("enableB", Json::Bool(true))]))]);
    let found = extract_feature_config(&config).unwrap();
    let source = "x; if (config.features.enableA) { a(); } if ( config.features.enableB ) { b(); } \
                  if (__WEBPACK_IMPORT_cfg__.features.enableA) {} \
                  v = __WEBPACK_IMPORT_cfg__.features.enableB ? one : two;";
    let spans = analyze_conditional_spans(source, &found);
    let seen: Vec<(usize, usize, String, bool, String)> = spans
        .iter()
        .map(|s| (s.start, s.end, s.condition.clone(), s.should_remove, s.content_preview.clone()))
        .collect();
    let first = source.find("if (__WEBPACK").unwrap();
    let second = source.find("if (config").unwrap();
    let third = source.find("if ( config").unwrap();
    let fourth = source.find("v = ").unwrap();
    assert_eq!(
        seen,
        vec![
            (
                first,
                first + "if (__WEBPACK_IMPORT_cfg__.features.enableA)".len(),
                "webpack feature check".to_string(),
                true,
                "if (__WEBPACK_IMPORT_cfg__.features.enableA)...".to_string()
            ),
            (
                second,
                second + "if (config.features.enableA)".len(),
                "config feature check".to_string(),
                true,
                "if (config.features.enableA)...".to_string()
            ),
            (
                third,
                third + "if ( config.features.enableB )".len(),
                "config feature check".to_string(),
                false,
                "if ( config.features.enableB )...".to_string()
            ),
            (
                fourth,
                source.len() - 1,
                "ternary feature assignment".to_string(),
                false,
                "v = __WEBPACK_IMPORT_cfg__.features.enableB ? one : two...".to_string()
            ),
        ]
    );
    assert!(analyze_conditional_spans("nothing to see", &found).is_empty());
}

#[test]
fn a_span_goes_if_it_mentions_a_disabled_flag() {
    let flags = vec![
        FeatureFlag { name: "on".to_string(), enabled: true },
        FeatureFlag { name: "off".to_string(), enabled: false },
    ];
    assert!(should_remove_conditional_span("if (x.off)", &flags));
    assert!(!should_remove_conditional_span("if (x.on)", &flags));
    assert!(!should_remove_conditional_span("", &flags));
    assert!(should_remove_conditional_span("", &vec![FeatureFlag { name: String::new(), enabled: false }]));
}

#[test]
fn feature_reads_are_found_in_the_tree() {
    let tree = program(vec![
        stmt(Kind::ExprStmt, vec![member(member(ident("config"), "features"), "enableA")]),
        stmt(Kind::ExprStmt, vec![member(member(ident("myconfig2"), "features"), "enableB")]),
        stmt(Kind::ExprStmt, vec![member(member(ident("features"), "x"), "enableC")]),
        stmt(Kind::ExprStmt, vec![member(member(ident("config"), "other"), "enableD")]),
        stmt(Kind::ExprStmt, vec![member(member(ident("config"), "features"), "enableA")]),
        stmt(Kind::ExprStmt, vec![member(ident("features"), "enableE")]),
    ]);
    let deps = analyze_feature_dependencies(&tree);
    let seen: Vec<(String, Vec<String>)> = deps.iter().map(|d| (d.feature.clone(), d.contexts.clone())).collect();
    assert_eq!(
        seen,
        vec![
            ("enableA".to_string(), ids(&["global"])),
            ("enableB".to_string(), ids(&["global"])),
            ("enableC".to_string(), ids(&["global"])),
        ]
    );
}

#[test]
fn recommendations_follow_the_flags() {
    let config = FeatureDetectionResult {
        all_enabled: false,
        enabled_features: ids(&["a"]),
        feature_flags: vec![
            FeatureFlag { name: "a".to_string(), enabled: true },
            FeatureFlag { name: "b".to_string(), enabled: false },
            FeatureFlag { name: "c".to_string(), enabled: false },
            FeatureFlag { name: "d".to_string(), enabled: false },
        ],
        should_optimize: true,
    };
    let deps = vec![
        FeatureDependency { feature: "a".to_string(), contexts: ids(&["global"]) },
        FeatureDependency { feature: "c".to_string(), contexts: ids(&(0..12).map(|_| "m").collect::<Vec<_>>()) },
    ];
    assert_eq!(
        generate_optimization_recommendations(&config, &deps),
        ids(&[
            "Feature 'c' is disabled and affects 12 modules - consider removing related code",
            "Multiple features detected - consider code splitting for better optimization",
            "Not all features are enabled - tree shaking will be effective",
        ])
    );
    let mut quiet = FeatureDetectionResult::new();
    quiet.all_enabled = true;
    assert!(generate_optimization_recommendations(&quiet, &deps).is_empty());
}

#[test]
fn the_tracker_writes_a_line_for_every_change() {
    let mut t = MutationTracker::new();
    assert!(!t.has_mutations());
    t.mark_module_unreachable("153".to_string(), "Feature A is disabled".to_string());
    t.mark_module_unreachable("153".to_string(), "again".to_string());
    t.track_eliminated_import("78".to_string(), "_math".to_string());
    t.track_removed_span(10, 2048, "dead branch".to_string());
    t.add_mutation("by hand".to_string());
    assert!(t.has_mutations());
    assert_eq!(t.unreachable_module_count(), 1);
    assert_eq!(
        t.mutations,
        ids(&[
            "Module 153 marked unreachable: Feature A is disabled",
            "Module 153 marked unreachable: again",
            "Import eliminated: 78 -> _math",
            "Removed span 10-2048: dead branch",
            "by hand",
        ])
    );
    assert_eq!(t.eliminated_imports, ids(&["78"]));
    assert_eq!(t.unused_variables, ids(&["_math"]));
    assert_eq!(t.removed_spans.len(), 1);
    assert_eq!((t.removed_spans[0].start, t.removed_spans[0].end), (10, 2048));
}

fn usages(list: &[VariableUsage]) -> Vec<(String, Vec<String>)> {
    list.iter().map(|u| (u.module_id.clone(), u.variables.clone())).collect()
}

#[test]
fn imports_are_grouped_by_module() {
    let tree = program(vec![
        require_var("a", "153"),
        require_var("b", "78.0"),
        require_var("c", "153"),
        require_var("a", "153"),
        stmt(Kind::Other, vec![part(Kind::Declarator, vec![binding("s"), expr(Kind::Call, vec![ident("__webpack_require__"), Node::leaf(Category::Expr, Kind::Str, none(), "153".to_string(), 0)])])]),
        stmt(Kind::Other, vec![part(Kind::Declarator, vec![binding("o"), expr(Kind::Call, vec![ident("other"), num_text("1")])])]),
    ]);
    assert_eq!(
        usages(&analyze_variable_usage(&tree)),
        vec![("153".to_string(), ids(&["a", "c"])), ("78".to_string(), ids(&["b"]))]
    );
}

#[test]
fn imports_that_are_gone_are_recorded() {
    let before = vec![
        VariableUsage { module_id: "1".to_string(), variables: ids(&["a", "b"]) },
        VariableUsage { module_id: "2".to_string(), variables: ids(&["c"]) },
    ];
    let after = vec![VariableUsage { module_id: "1".to_string(), variables: ids(&["b"]) }];
    let mut t = MutationTracker::new();
    track_eliminated_dependencies(&before, &after, &mut t);
    assert_eq!(t.mutations, ids(&["Import eliminated: 1 -> a", "Import eliminated: 2 -> c"]));
    assert_eq!(t.eliminated_imports, ids(&["1", "2"]));
    assert_eq!(t.unused_variables, ids(&["a", "c"]));
}

fn module_with(id: &str, deps: &[&str]) -> WebpackModule {
    let mut m = WebpackModule::new(id.to_string());
    for d in deps {
        m.add_dependency(d.to_string());
        m.add_dependency(d.to_string());
    }
    m
}

#[test]
fn a_record_prunes_the_graph() {
    let mut graph = WebpackModuleGraph::new();
    graph.modules = vec![module_with("1", &["2"]), module_with("2", &[]), module_with("3", &["4"]), module_with("4", &[]), module_with("5", &[])];
    graph.entry_modules = ids(&["1"]);
    assert_eq!(graph.modules[0].dependencies, ids(&["2"]));
    assert!(is_module_still_referenced(&graph, "1"));
    assert!(is_module_still_referenced(&graph, "4"));
    assert!(!is_module_still_referenced(&graph, "5"));
    let mut t = MutationTracker::new();
    t.mark_module_unreachable("3".to_string(), "why".to_string());
    t.track_eliminated_import("4".to_string(), "x".to_string());
    t.track_eliminated_import("2".to_string(), "y".to_string());
    t.track_eliminated_import("1".to_string(), "z".to_string());
    apply_mutation_insights_to_graph(&mut graph, &t);
    let left: Vec<String> = graph.modules.iter().map(|m| m.id.clone()).collect();
    assert_eq!(left, ids(&["1", "2", "5"]));
}

#[test]
fn statistics_measure_the_gain() {
    let mut s = OptimizationStatistics::new(1000);
    assert_eq!(s.optimized_size, 1000);
    s.finalize(750);
    assert_eq!(s.size_reduction_bytes, 250);
    assert_eq!(s.size_reduction_bp(), 2500);
    s.finalize(1334);
    assert_eq!(s.size_reduction_bytes, -334);
    assert_eq!(s.size_reduction_bp(), -3340);
    let mut empty = OptimizationStatistics::new(0);
    empty.finalize(10);
    assert_eq!(empty.size_reduction_bp(), 0);
}

#[test]
fn the_pipeline_takes_the_fast_path_when_everything_is_on() {
    let config = object(vec![("features", object(vec![("a", Json::Bool(true))]))]);
    let mut tree = program(vec![table(vec![module("1", vec![]), module("2", vec![])])]);
    let (pipeline, outcome) = run_optimization_pipeline(100, &config, &mut tree);
    assert!(matches!(outcome, Ok(PipelineOutcome::FastPath)));
    assert!(pipeline.statistics.fast_path_used);
    assert_eq!(tree.children[0].children[0].children[1].children.len(), 2);
}

#[test]
fn the_pipeline_refuses_an_empty_configuration() {
    let mut tree = program(vec![]);
    let (_, outcome) = run_optimization_pipeline(0, &object(vec![]), &mut tree);
    match outcome {
        Err(e) => assert_eq!(e, "No configuration values found"),
        Ok(_) => panic!("expected a failure"),
    }
}

#[test]
fn the_pipeline_shakes_and_reports() {
    let config = object(vec![("features", object(vec![("a", Json::Bool(false))]))]);
    let mut tree = program(vec![
        table(vec![module("1", vec![]), module("2", vec![require_var("gone", "1")])]),
        stmt(Kind::ExprStmt, vec![require("1")]),
    ]);
    let mut pipeline = OptimizationPipeline::new(1000);
    let stats = match pipeline.optimize(&config, &mut tree) {
        Ok(PipelineOutcome::Shaken(stats)) => stats,
        _ => panic!("expected a shaking"),
    };
    assert_eq!(stats.unused_module_ids, ids(&["2"]));
    assert_eq!(tree.children[0].children[0].children[1].children.len(), 1);
    assert_eq!(pipeline.mutation_tracker.mutations, ids(&["Import eliminated: 1 -> gone"]));
    pipeline.update_statistics(700, &stats);
    assert_eq!(pipeline.statistics.size_reduction_bytes, 300);
    assert_eq!(pipeline.statistics.modules_eliminated, 1);
    assert_eq!(pipeline.statistics.imports_eliminated, 1);
    assert_eq!(pipeline.statistics.mutations_applied, 1);
    let config = pipeline.feature_config.take().unwrap();
    assert_eq!(
        pipeline.generate_recommendations(&config),
        ids(&[
            "Code optimization was applied based on feature configuration",
            "Significant size reduction achieved - consider this configuration for production",
            "Successfully eliminated 1 unused modules",
            "Applied 1 targeted optimizations",
        ])
    );
    pipeline.update_statistics(990, &stats);
    assert_eq!(
        pipeline.generate_recommendations(&config)[1],
        "Limited optimization benefit - review feature configuration"
    );
    pipeline.update_statistics(900, &stats);
    assert_eq!(pipeline.generate_recommendations(&config).len(), 3);
}

#[test]
fn advanced_pipeline_enables_every_step() {
    let p = AdvancedOptimizationPipeline::new();
    assert!(p.enable_tree_shaking && p.enable_dead_code_elimination);
    let d = AdvancedOptimizationPipeline::default();
    assert!(d.enable_module_graph_analysis && d.enable_variable_tracking);
    let config = object(vec![("a", Json::Bool(false))]);
    let mut tree = program(vec![table(vec![module("1", vec![])])]);
    let (pipeline, outcome) = p.optimize_with_config(10, &config, &mut tree);
    assert!(matches!(outcome, Ok(PipelineOutcome::Shaken(_))));
    assert!(!pipeline.statistics.fast_path_used);
    assert!(tree.children[0].children[0].children[1].children.is_empty());
}

fn graph_of(modules: Vec<WebpackModule>, reached: &[&str]) -> WebpackModuleGraph {
    let mut graph = WebpackModuleGraph::new();
    graph.modules = modules;
    graph.reachable_modules = ids(reached);
    graph.calculate_execution_order();
    graph
}

#[test]
fn modules_run_after_what_they_load() {
    let graph = graph_of(
        vec![module_with("100", &["9", "20"]), module_with("9", &[]), module_with("20", &["9"]), module_with("7", &[])],
        &["100", "9", "20"],
    );
    assert_eq!(graph.execution_order, ids(&["9", "20", "100"]));
}

#[test]
fn ready_modules_run_in_the_order_of_their_identifiers() {
    let graph = graph_of(
        vec![module_with("b", &[]), module_with("10", &[]), module_with("9", &[]), module_with("a", &["zz"]), module_with("", &[])],
        &["9", "10", "a", "b", "", "zz"],
    );
    assert_eq!(graph.execution_order, ids(&["", "9", "a", "b", "10"]));
}

#[test]
fn a_cycle_is_entered_at_its_least_module() {
    let graph = graph_of(
        vec![module_with("3", &["1"]), module_with("2", &["3"]), module_with("1", &["2"]), module_with("4", &["1"])],
        &["1", "2", "3", "4"],
    );
    assert_eq!(graph.execution_order, ids(&["1", "3", "2", "4"]));
}

#[test]
fn analysis_fills_in_the_execution_order() {
    let tree = program(vec![
        table(vec![
            module("1", vec![stmt(Kind::ExprStmt, vec![require("2")]), stmt(Kind::ExprStmt, vec![require("3")])]),
            module("2", vec![stmt(Kind::ExprStmt, vec![require("3")])]),
            module("3", vec![]),
            module("4", vec![]),
        ]),
        stmt(Kind::ExprStmt, vec![require("1")]),
    ]);
    let mut graph = WebpackModuleGraph::new();
    graph.hydrate_module_graph_from_chunk(&tree);
    assert_eq!(graph.execution_order, ids(&["3", "2", "1"]));
}

#[test]
fn identifiers_are_ordered_by_length_first() {
    let lt = |a: &str, b: &str| comes_before(&a.to_string(), &b.to_string());
    assert!(lt("9", "10"));
    assert!(!lt("10", "9"));
    assert!(lt("10", "11"));
    assert!(!lt("11", "10"));
    assert!(!lt("7", "7"));
    assert!(lt("", "0"));
    assert!(lt("ab", "ac"));
    assert!(lt("Z", "a"));
}

#[test]
fn text_helpers() {
    assert_eq!(decimal_text(0), "0");
    assert_eq!(decimal_text(9), "9");
    assert_eq!(decimal_text(10), "10");
    assert_eq!(decimal_text(1234567890), "1234567890");
    assert_eq!(decimal_text(u128::MAX), u128::MAX.to_string());
    assert!(contains_text("hello", "ell"));
    assert!(contains_text("hello", "hello"));
    assert!(contains_text("hello", ""));
    assert!(contains_text("", ""));
    assert!(!contains_text("hello", "hellos"));
    assert!(!contains_text("hello", "lol"));
    assert!(contains_text("h\u{e9}llo", "\u{e9}l"));
    assert_eq!(prefix_text("abc", 2), "ab");
    assert_eq!(prefix_text("abc", 3), "abc");
    assert_eq!(prefix_text("abc", 100), "abc");
    assert_eq!(prefix_text("\u{e9}\u{e9}\u{e9}", 1), "\u{e9}");
    assert_eq!(split_text("a.b", '.'), ids(&["a", "b"]));
    assert_eq!(split_text("", '.'), ids(&[""]));
    assert_eq!(split_text(".a..", '.'), ids(&["", "a", "", ""]));
}

#[test]
fn errors_describe_themselves() {
    assert_eq!(
        WebpackGraphError::InvalidBundleFormat("x".to_string()).message(),
        "Invalid webpack bundle format: x"
    );
    assert_eq!(WebpackGraphError::ParseError("p".to_string()).message(), "Failed to parse JavaScript: p");
    assert_eq!(WebpackGraphError::ModuleNotFound("7".to_string()).message(), "Module not found: 7");
    assert_eq!(
        WebpackGraphError::ModuleExtractionError("e".to_string()).message(),
        "Failed to extract webpack modules: e"
    );
    let _ = BundleFormat::webpack();
}

#[test]
fn defaults_are_empty() {
    assert!(swc_macro::graph::ModuleGraph::default().modules.is_empty());
    assert!(!MutationTracker::default().has_mutations());
    let graph = WebpackModuleGraph::default();
    assert!(graph.modules.is_empty() && graph.execution_order.is_empty());
    assert_eq!(graph.format.load_function, "__webpack_require__");
    assert_eq!(graph.format.modules_table, "__webpack_modules__");
    assert!(!swc_macro::webpack_tree_shaker::WebpackModuleTreeShaker::default().has_changed());
    assert_eq!(swc_macro::parser::WebpackBundleParser::default().format.load_function, "__webpack_require__");
}
