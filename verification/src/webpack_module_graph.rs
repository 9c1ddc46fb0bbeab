//! The module graph as the shaker reads it: the modules of a bundle with
//! what each loads and exports, the entry points, and the set of modules
//! that the entry points reach.

use vstd::prelude::*;
use crate::ast::{Node, NodeView};
use crate::bundle::{
    collect_definitions, collect_runtime, definition_views, definitions, runtime_in,
    BundleFormat, Definition, DefinitionView, FormatView,
};
use crate::execution_order::{calculate_execution_order, execution_order};
use crate::graph::{ids};
use crate::parser::{
    analyze, bundle_graph, distinct, distinct_texts, nodes_of,
};
use crate::text::{
    clone_texts, has_text, lemma_texts_push, position, texts,
};
use crate::webpack_tree_shaker::{deleted_calls, shake_tree, Deleted};

verus! {

/// A module of a bundle.
#[derive(Debug)]
pub struct WebpackModule {
    pub id: String,
    /// The modules that this one loads, each named once, in source order.
    pub dependencies: Vec<String>,
    /// The names that this module exports, each named once.
    pub exports: Vec<String>,
    /// Whether the module is loaded from outside the modules table.
    pub is_entry: bool,
    /// Whether the module's body may change state.
    pub has_side_effects: bool,
    pub source_code: Option<String>,
}

pub ghost struct WebpackModuleView {
    pub id: Seq<char>,
    pub dependencies: Seq<Seq<char>>,
    pub exports: Seq<Seq<char>>,
    pub is_entry: bool,
    pub has_side_effects: bool,
    pub source_code: Option<Seq<char>>,
}

impl View for WebpackModule {
    type V = WebpackModuleView;

    open spec fn view(&self) -> WebpackModuleView {
        WebpackModuleView {
            id: self.id@,
            dependencies: texts(self.dependencies@),
            exports: texts(self.exports@),
            is_entry: self.is_entry,
            has_side_effects: self.has_side_effects,
            source_code: match self.source_code {
                Some(s) => Some(s@),
                None => None,
            },
        }
    }
}

/// The values of a list of modules.
pub open spec fn module_views(modules: Seq<WebpackModule>) -> Seq<WebpackModuleView> {
    Seq::new(modules.len(), |i: int| modules[i]@)
}

/// The identifiers of a list of modules.
pub open spec fn module_ids(modules: Seq<WebpackModuleView>) -> Seq<Seq<char>> {
    Seq::new(modules.len(), |i: int| modules[i].id)
}

impl WebpackModule {
    /// A module about which nothing is known yet.
    pub fn new(id: String) -> (m: WebpackModule)
        ensures
            m@ == (WebpackModuleView {
                id: id@,
                dependencies: seq![],
                exports: seq![],
                is_entry: false,
                has_side_effects: false,
                source_code: None,
            }),
    {
        let m = WebpackModule {
            id,
            dependencies: Vec::new(),
            exports: Vec::new(),
            is_entry: false,
            has_side_effects: false,
            source_code: None,
        };
        assert(m@.dependencies =~= seq![]);
        assert(m@.exports =~= seq![]);
        m
    }

    /// Records that this module loads `target`. Recording it twice changes
    /// nothing.
    pub fn add_dependency(&mut self, target: String)
        ensures
            final(self)@ == (WebpackModuleView {
                dependencies: if old(self)@.dependencies.contains(target@) {
                    old(self)@.dependencies
                } else {
                    old(self)@.dependencies.push(target@)
                },
                ..old(self)@
            }),
    {
        if !has_text(&self.dependencies, &target) {
            proof {
                lemma_texts_push(self.dependencies@, target);
            }
            self.dependencies.push(target);
        }
    }

    /// The modules that this one loads.
    pub fn get_dependency_ids(&self) -> (out: Vec<String>)
        ensures
            texts(out@) == self@.dependencies,
    {
        clone_texts(&self.dependencies)
    }

    /// Finds out whether the module's body may change state.
    pub fn analyze_side_effects(&mut self, function_body: &Node, fmt: &BundleFormat)
        ensures
            final(self)@ == (WebpackModuleView {
                has_side_effects: crate::bundle::has_effect(function_body@, fmt@),
                ..old(self)@
            }),
    {
        self.has_side_effects = crate::bundle::may_change_state(function_body, fmt);
    }
}

/// The module that a definition gives rise to.
pub open spec fn module_of(def: DefinitionView, entries: Seq<Seq<char>>) -> WebpackModuleView {
    WebpackModuleView {
        id: def.id,
        dependencies: distinct(def.loads),
        exports: distinct(def.exports),
        is_entry: entries.contains(def.id),
        has_side_effects: def.has_side_effects,
        source_code: None,
    }
}

/// The modules that a list of definitions gives rise to, in order. A later
/// definition of an identifier takes the place of the earlier one.
pub open spec fn modules_of(defs: Seq<DefinitionView>, entries: Seq<Seq<char>>) -> Seq<
    WebpackModuleView,
>
    decreases defs.len(),
{
    if defs.len() == 0 {
        seq![]
    } else {
        let before = modules_of(defs.drop_last(), entries);
        let module = module_of(defs.last(), entries);
        let at = position(module_ids(before), module.id, 0);
        if at < before.len() {
            before.update(at, module)
        } else {
            before.push(module)
        }
    }
}

/// The modules of the two graphs of a unit have the same identifiers.
pub proof fn lemma_modules_of_ids(defs: Seq<DefinitionView>, entries: Seq<Seq<char>>)
    ensures
        module_ids(modules_of(defs, entries)) == ids(nodes_of(defs)),
    decreases defs.len(),
{
    if defs.len() > 0 {
        lemma_modules_of_ids(defs.drop_last(), entries);
        let before = modules_of(defs.drop_last(), entries);
        let nodes = nodes_of(defs.drop_last());
        let id = defs.last().id;
        let at = position(ids(nodes), id, 0);
        crate::text::lemma_position(ids(nodes), id, 0);
        assert(crate::parser::node_of(defs.last()).id == id);
        if at < nodes.len() {
            assert(module_ids(before.update(at, module_of(defs.last(), entries))) =~= module_ids(
                before,
            ));
            assert(ids(nodes.update(at, crate::parser::node_of(defs.last()))) =~= ids(nodes));
        } else {
            assert(module_ids(before.push(module_of(defs.last(), entries))) =~= module_ids(
                before,
            ).push(id));
            assert(ids(nodes.push(crate::parser::node_of(defs.last()))) =~= ids(nodes).push(id));
        }
    }
}

/// The module graph that the shaker reads.
#[derive(Debug)]
pub struct WebpackModuleGraph {
    /// The names by which the bundle is recognised.
    pub format: BundleFormat,
    /// The modules, in the order of their definitions.
    pub modules: Vec<WebpackModule>,
    /// The modules loaded from outside the modules table.
    pub entry_modules: Vec<String>,
    /// The modules that the entry points reach.
    pub reachable_modules: Vec<String>,
    /// The properties of the load function that the bundle reads.
    pub runtime_functions: Vec<String>,
    /// The reachable modules in the order in which they can run.
    pub execution_order: Vec<String>,
}

pub ghost struct WebpackModuleGraphView {
    pub format: FormatView,
    pub modules: Seq<WebpackModuleView>,
    pub entry_modules: Seq<Seq<char>>,
    pub reachable_modules: Seq<Seq<char>>,
    pub runtime_functions: Seq<Seq<char>>,
    pub execution_order: Seq<Seq<char>>,
}

impl View for WebpackModuleGraph {
    type V = WebpackModuleGraphView;

    open spec fn view(&self) -> WebpackModuleGraphView {
        WebpackModuleGraphView {
            format: self.format@,
            modules: module_views(self.modules@),
            entry_modules: texts(self.entry_modules@),
            reachable_modules: texts(self.reachable_modules@),
            runtime_functions: texts(self.runtime_functions@),
            execution_order: texts(self.execution_order@),
        }
    }
}

/// What the analysis of a unit finds.
pub open spec fn hydrated(program: NodeView, fmt: FormatView) -> WebpackModuleGraphView {
    let g = bundle_graph(program, fmt);
    let modules = modules_of(definitions(program, fmt), g.entry_points);
    WebpackModuleGraphView {
        format: fmt,
        modules,
        entry_modules: g.entry_points,
        reachable_modules: g.reached_ids(),
        runtime_functions: distinct(runtime_in(program, fmt)),
        execution_order: execution_order(modules, g.reached_ids()),
    }
}

/// The identifiers of the first `n` modules that are not among `reached`,
/// in order.
pub open spec fn unused_upto(modules: Seq<WebpackModuleView>, reached: Seq<Seq<char>>, n: int) -> Seq<
    Seq<char>,
>
    decreases n,
{
    if n <= 0 || n > modules.len() {
        seq![]
    } else if !reached.contains(modules[n - 1].id) {
        unused_upto(modules, reached, n - 1).push(modules[n - 1].id)
    } else {
        unused_upto(modules, reached, n - 1)
    }
}

impl WebpackModuleGraphView {
    /// The modules that the entry points do not reach, in the order of
    /// their definitions.
    pub open spec fn unused_modules(self) -> Seq<Seq<char>> {
        unused_upto(self.modules, self.reachable_modules, self.modules.len() as int)
    }
}

impl WebpackModuleGraph {
    /// An empty graph for bundles with the standard names.
    pub fn new() -> (g: WebpackModuleGraph)
        ensures
            g@ == (WebpackModuleGraphView {
                format: BundleFormat::standard(),
                modules: seq![],
                entry_modules: seq![],
                reachable_modules: seq![],
                runtime_functions: seq![],
                execution_order: seq![],
            }),
    {
        let g = WebpackModuleGraph {
            format: BundleFormat::webpack(),
            modules: Vec::new(),
            entry_modules: Vec::new(),
            reachable_modules: Vec::new(),
            runtime_functions: Vec::new(),
            execution_order: Vec::new(),
        };
        assert(g@.modules =~= seq![]);
        assert(g@.entry_modules =~= seq![]);
        assert(g@.reachable_modules =~= seq![]);
        assert(g@.runtime_functions =~= seq![]);
        assert(g@.execution_order =~= seq![]);
        g
    }

    /// The index of the module with the given identifier among the modules
    /// found so far.
    fn index_of(modules: &Vec<WebpackModule>, id: &String) -> (r: Option<usize>)
        ensures
            match r {
                Some(i) => i == position(module_ids(module_views(modules@)), id@, 0) && i
                    < modules@.len(),
                None => position(module_ids(module_views(modules@)), id@, 0) == modules@.len(),
            },
    {
        let ghost keys = module_ids(module_views(modules@));
        let mut i: usize = 0;
        while i < modules.len()
            invariant
                i <= modules@.len(),
                keys == module_ids(module_views(modules@)),
                position(keys, id@, 0) == position(keys, id@, i as int),
            decreases modules@.len() - i,
        {
            if modules[i].id == *id {
                return Some(i);
            }
            i += 1;
        }
        None
    }

    /// Rebuilds the graph from the syntax tree of a unit: its modules, its
    /// entry points, the modules that the entry points reach, and the
    /// properties of the load function that it reads.
    pub fn hydrate_module_graph_from_chunk(&mut self, program: &Node)
        ensures
            final(self)@ == hydrated(program@, old(self).format@),
    {
        let graph = analyze(program, &self.format);
        let reachable = graph.get_reachable_modules();
        let mut defs: Vec<Definition> = Vec::new();
        assert(definition_views(defs@) =~= seq![]);
        collect_definitions(program, &self.format, &mut defs);
        assert(seq![] + definitions(program@, self.format@) =~= definitions(
            program@,
            self.format@,
        ));
        let ghost all = definition_views(defs@);
        let ghost entries = graph@.entry_points;
        let mut modules: Vec<WebpackModule> = Vec::new();
        let mut i: usize = 0;
        assert(all.subrange(0, 0) =~= seq![]);
        assert(module_views(modules@) =~= seq![]);
        while i < defs.len()
            invariant
                i <= defs@.len(),
                all == definition_views(defs@),
                entries == graph@.entry_points,
                module_views(modules@) == modules_of(all.subrange(0, i as int), entries),
            decreases defs@.len() - i,
        {
            let ghost prefix = all.subrange(0, i + 1);
            let ghost before = module_views(modules@);
            proof {
                assert(prefix.drop_last() =~= all.subrange(0, i as int));
                assert(prefix.last() == defs@[i as int]@);
            }
            let module = WebpackModule {
                id: defs[i].id.clone(),
                dependencies: distinct_texts(&defs[i].loads),
                exports: distinct_texts(&defs[i].exports),
                is_entry: has_text(&graph.entry_points, &defs[i].id),
                has_side_effects: defs[i].has_side_effects,
                source_code: None,
            };
            assert(module@ == module_of(defs@[i as int]@, entries));
            match Self::index_of(&modules, &module.id) {
                Some(at) => {
                    modules[at] = module;
                    assert(module_views(modules@) =~= before.update(at as int, module@));
                },
                None => {
                    modules.push(module);
                    assert(module_views(modules@) =~= before.push(module@));
                },
            }
            i += 1;
        }
        assert(all.subrange(0, i as int) =~= all);
        let mut runtime: Vec<String> = Vec::new();
        assert(texts(runtime@) =~= seq![]);
        collect_runtime(program, &self.format, &mut runtime);
        assert(seq![] + runtime_in(program@, self.format@) =~= runtime_in(program@, self.format@));
        self.execution_order = calculate_execution_order(&modules, &reachable);
        self.modules = modules;
        self.entry_modules = clone_texts(&graph.entry_points);
        self.reachable_modules = reachable;
        self.runtime_functions = distinct_texts(&runtime);
    }

    /// Brings the execution order up to date with the modules and the
    /// reachable set.
    pub fn calculate_execution_order(&mut self)
        ensures
            final(self)@ == (WebpackModuleGraphView {
                execution_order: execution_order(
                    old(self)@.modules,
                    old(self)@.reachable_modules,
                ),
                ..old(self)@
            }),
    {
        self.execution_order = calculate_execution_order(&self.modules, &self.reachable_modules);
    }

    /// The modules that the entry points do not reach.
    pub fn get_unused_modules(&self) -> (out: Vec<String>)
        ensures
            texts(out@) == self@.unused_modules(),
    {
        let mut out: Vec<String> = Vec::new();
        let mut i: usize = 0;
        assert(texts(out@) =~= seq![]);
        while i < self.modules.len()
            invariant
                i <= self.modules@.len(),
                texts(out@) == unused_upto(self@.modules, self@.reachable_modules, i as int),
            decreases self.modules@.len() - i,
        {
            if !has_text(&self.reachable_modules, &self.modules[i].id) {
                let id = self.modules[i].id.clone();
                proof {
                    lemma_texts_push(out@, id);
                }
                out.push(id);
            }
            i += 1;
        }
        out
    }

    /// The modules named by the bare load calls outside the modules tables
    /// that load a module which the entry points do not reach, each named
    /// once.
    pub fn get_unused_requires(&self, program: &Node) -> (out: Vec<String>)
        ensures
            texts(out@) == distinct(
                deleted_calls(program@, self@.unused_modules(), self.format@),
            ),
    {
        let unused = self.get_unused_modules();
        let mut deleted = Deleted { definitions: Vec::new(), calls: Vec::new() };
        assert(texts(deleted.calls@) =~= seq![]);
        let _shaken = shake_tree(program, &unused, &self.format, &mut deleted);
        assert(seq![] + deleted_calls(program@, texts(unused@), self.format@) =~= deleted_calls(
            program@,
            texts(unused@),
            self.format@,
        ));
        distinct_texts(&deleted.calls)
    }
}

impl Default for WebpackModuleGraph {
    fn default() -> (g: WebpackModuleGraph)
        ensures
            g@ == (WebpackModuleGraphView {
                format: BundleFormat::standard(),
                modules: seq![],
                entry_modules: seq![],
                reachable_modules: seq![],
                runtime_functions: seq![],
                execution_order: seq![],
            }),
    {
        WebpackModuleGraph::new()
    }
}

} // verus!
