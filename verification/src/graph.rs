//! The module graph of a bundle: its modules, the edges between them in both
//! directions, and its entry points.

use vstd::prelude::*;
use crate::text::{
    no_repeats,
    has_text, lemma_position, lemma_position_contains, lemma_texts_push, position,
    texts,
};

verus! {

/// A module of the bundle.
#[derive(Debug)]
pub struct ModuleNode {
    /// The canonical form of the module's key in the modules table.
    pub id: String,
    /// The source text recorded for the module.
    pub source: String,
    /// The modules that this one loads.
    pub dependencies: Vec<String>,
    /// The modules that load this one.
    pub dependents: Vec<String>,
}

pub ghost struct ModuleNodeView {
    pub id: Seq<char>,
    pub source: Seq<char>,
    pub dependencies: Seq<Seq<char>>,
    pub dependents: Seq<Seq<char>>,
}

impl View for ModuleNode {
    type V = ModuleNodeView;

    open spec fn view(&self) -> ModuleNodeView {
        ModuleNodeView {
            id: self.id@,
            source: self.source@,
            dependencies: texts(self.dependencies@),
            dependents: texts(self.dependents@),
        }
    }
}

/// The values of a list of modules.
pub open spec fn node_views(nodes: Seq<ModuleNode>) -> Seq<ModuleNodeView> {
    Seq::new(nodes.len(), |i: int| nodes[i]@)
}

/// The identifiers of a list of modules, in order.
pub open spec fn ids(nodes: Seq<ModuleNodeView>) -> Seq<Seq<char>> {
    Seq::new(nodes.len(), |i: int| nodes[i].id)
}

impl ModuleNode {
    pub fn new(id: String, source: String) -> (n: ModuleNode)
        ensures
            n@ == (ModuleNodeView {
                id: id@,
                source: source@,
                dependencies: seq![],
                dependents: seq![],
            }),
    {
        let n = ModuleNode { id, source, dependencies: Vec::new(), dependents: Vec::new() };
        assert(n@.dependencies =~= seq![]);
        assert(n@.dependents =~= seq![]);
        n
    }

    /// Records that this module loads `module_id`. Recording it twice
    /// changes nothing.
    pub fn add_dependency(&mut self, module_id: String)
        ensures
            final(self)@ == (ModuleNodeView {
                dependencies: if old(self)@.dependencies.contains(module_id@) {
                    old(self)@.dependencies
                } else {
                    old(self)@.dependencies.push(module_id@)
                },
                ..old(self)@
            }),
    {
        if !has_text(&self.dependencies, &module_id) {
            proof {
                lemma_texts_push(self.dependencies@, module_id);
            }
            self.dependencies.push(module_id);
        }
    }

    /// Records that `module_id` loads this module. Recording it twice
    /// changes nothing.
    pub fn add_dependent(&mut self, module_id: String)
        ensures
            final(self)@ == (ModuleNodeView {
                dependents: if old(self)@.dependents.contains(module_id@) {
                    old(self)@.dependents
                } else {
                    old(self)@.dependents.push(module_id@)
                },
                ..old(self)@
            }),
    {
        if !has_text(&self.dependents, &module_id) {
            proof {
                lemma_texts_push(self.dependents@, module_id);
            }
            self.dependents.push(module_id);
        }
    }
}

/// The module graph.
#[derive(Debug)]
pub struct ModuleGraph {
    /// The modules, in the order in which they were added.
    pub modules: Vec<ModuleNode>,
    /// The entry points, in the order in which they were found.
    pub entry_points: Vec<String>,
}

pub ghost struct GraphView {
    pub modules: Seq<ModuleNodeView>,
    pub entry_points: Seq<Seq<char>>,
}

impl View for ModuleGraph {
    type V = GraphView;

    open spec fn view(&self) -> GraphView {
        GraphView { modules: node_views(self.modules@), entry_points: texts(self.entry_points@) }
    }
}

impl GraphView {
    /// The index of the module with the given identifier, or the number of
    /// modules if there is none.
    pub open spec fn index_of(self, id: Seq<char>) -> int {
        position(ids(self.modules), id, 0)
    }

    /// Whether the graph has a module with this identifier.
    pub open spec fn has(self, id: Seq<char>) -> bool {
        ids(self.modules).contains(id)
    }

    /// Whether the module `from` loads `to`.
    pub open spec fn edge(self, from: Seq<char>, to: Seq<char>) -> bool {
        exists|i: int|
            0 <= i < self.modules.len() && (#[trigger] self.modules[i]).id == from
                && self.modules[i].dependencies.contains(to)
    }

    /// Well-formedness: no two modules share an identifier, and no list
    /// names an identifier twice.
    pub open spec fn wf(self) -> bool {
        &&& ids(self.modules).no_duplicates()
        &&& self.entry_points.no_duplicates()
        &&& forall|i: int|
            0 <= i < self.modules.len() ==> (#[trigger] self.modules[i]).dependencies.no_duplicates()
                && self.modules[i].dependents.no_duplicates()
    }

    /// Edges are recorded at both ends: between any two modules of the
    /// graph, one lists the other as a dependency exactly when the other
    /// lists it as a dependent.
    pub open spec fn consistent(self) -> bool {
        forall|i: int, j: int|
            0 <= i < self.modules.len() && 0 <= j < self.modules.len() ==> ((
            #[trigger] self.modules[i]).dependencies.contains((#[trigger] self.modules[j]).id)
                <==> self.modules[j].dependents.contains(self.modules[i].id))
    }

    /// Every dependent that a module lists is a module of the graph.
    pub open spec fn dependents_known(self) -> bool {
        forall|i: int, k: int|
            0 <= i < self.modules.len() && 0 <= k < self.modules[i].dependents.len() ==> self.has(
                #[trigger] self.modules[i].dependents[k],
            )
    }

    /// Every entry point is a module of the graph.
    pub open spec fn entries_known(self) -> bool {
        forall|k: int|
            0 <= k < self.entry_points.len() ==> self.has(#[trigger] self.entry_points[k])
    }
}

impl ModuleGraph {
    pub fn new() -> (g: ModuleGraph)
        ensures
            g@ == (GraphView { modules: seq![], entry_points: seq![] }),
            g@.wf(),
            g@.consistent(),
    {
        let g = ModuleGraph { modules: Vec::new(), entry_points: Vec::new() };
        assert(g@.modules =~= seq![]);
        assert(g@.entry_points =~= seq![]);
        g
    }

    /// The index of the module with the given identifier.
    pub fn index_of(&self, id: &String) -> (r: Option<usize>)
        ensures
            match r {
                Some(i) => i == self@.index_of(id@) && i < self.modules@.len()
                    && self.modules@[i as int].id@ == id@ && self@.has(id@),
                None => self@.index_of(id@) == self.modules@.len() && !self@.has(id@),
            },
    {
        let ghost keys = ids(self@.modules);
        let mut i: usize = 0;
        while i < self.modules.len()
            invariant
                i <= self.modules@.len(),
                keys == ids(self@.modules),
                position(keys, id@, 0) == position(keys, id@, i as int),
            decreases self.modules@.len() - i,
        {
            if self.modules[i].id == *id {
                assert(keys[i as int] == id@);
                return Some(i);
            }
            i += 1;
        }
        proof {
            lemma_position_contains(keys, id@);
        }
        None
    }

    /// Adds a module. A module with the same identifier is replaced.
    pub fn add_module(&mut self, module: ModuleNode)
        ensures
            final(self)@.entry_points == old(self)@.entry_points,
            final(self)@.modules == if old(self)@.has(module.id@) {
                old(self)@.modules.update(old(self)@.index_of(module.id@), module@)
            } else {
                old(self)@.modules.push(module@)
            },
    {
        proof {
            lemma_position_contains(ids(self@.modules), module.id@);
        }
        match self.index_of(&module.id) {
            Some(i) => {
                self.modules[i] = module;
                assert(node_views(self.modules@) =~= old(self)@.modules.update(i as int, module@));
            },
            None => {
                self.modules.push(module);
                assert(node_views(self.modules@) =~= old(self)@.modules.push(module@));
            },
        }
    }

    /// The module with the given identifier.
    pub fn get_module(&self, id: &str) -> (r: Option<&ModuleNode>)
        ensures
            r.is_some() == self@.has(id@),
            r matches Some(m) ==> m@ == self@.modules[self@.index_of(id@)],
    {
        proof {
            lemma_position_contains(ids(self@.modules), id@);
        }
        match self.index_of(&id.to_owned()) {
            Some(i) => Some(&self.modules[i]),
            None => None,
        }
    }

    /// Records an entry point. Recording it twice changes nothing.
    pub fn add_entry_point(&mut self, module_id: String)
        ensures
            final(self)@.modules == old(self)@.modules,
            final(self)@.entry_points == if old(self)@.entry_points.contains(module_id@) {
                old(self)@.entry_points
            } else {
                old(self)@.entry_points.push(module_id@)
            },
    {
        if !has_text(&self.entry_points, &module_id) {
            proof {
                lemma_texts_push(self.entry_points@, module_id);
            }
            self.entry_points.push(module_id);
        }
    }
}

impl ModuleNodeView {
    /// This module with `id` among its dependencies.
    pub open spec fn with_dependency(self, id: Seq<char>) -> ModuleNodeView {
        ModuleNodeView {
            dependencies: if self.dependencies.contains(id) {
                self.dependencies
            } else {
                self.dependencies.push(id)
            },
            ..self
        }
    }

    /// This module with `id` among its dependents.
    pub open spec fn with_dependent(self, id: Seq<char>) -> ModuleNodeView {
        ModuleNodeView {
            dependents: if self.dependents.contains(id) {
                self.dependents
            } else {
                self.dependents.push(id)
            },
            ..self
        }
    }
}

impl GraphView {
    /// The graph with the edge from `from` to `to`. The edge is recorded at
    /// both ends: `from` lists `to` as a dependency and `to` lists `from` as
    /// a dependent. Where one of the two is no module of the graph, nothing
    /// is recorded and the graph stays as it is.
    pub open spec fn with_edge(self, from: Seq<char>, to: Seq<char>) -> GraphView {
        if self.has(from) && self.has(to) {
            let i = self.index_of(from);
            let first = self.modules.update(i, self.modules[i].with_dependency(to));
            let j = self.index_of(to);
            GraphView { modules: first.update(j, first[j].with_dependent(from)), ..self }
        } else {
            self
        }
    }
}

/// Recording an edge keeps every edge recorded at both ends, and keeps the
/// graph well formed.
pub proof fn lemma_with_edge(g: GraphView, from: Seq<char>, to: Seq<char>)
    requires
        g.wf(),
    ensures
        g.with_edge(from, to).wf(),
        ids(g.with_edge(from, to).modules) == ids(g.modules),
        g.consistent() ==> g.with_edge(from, to).consistent(),
        g.has(from) && g.has(to) ==> g.with_edge(from, to).edge(from, to),
{
    let h = g.with_edge(from, to);
    if g.has(from) && g.has(to) {
        lemma_has(g, from);
        lemma_has(g, to);
        let i = g.index_of(from);
        let j = g.index_of(to);
        let keys = ids(g.modules);
        assert(ids(h.modules) =~= keys);
        assert forall|k: int| 0 <= k < h.modules.len() implies (#[trigger] h.modules[k]).dependencies.no_duplicates()
            && h.modules[k].dependents.no_duplicates() by {
            assert(g.modules[k].dependencies.no_duplicates());
            assert(g.modules[k].dependents.no_duplicates());
            lemma_push_fresh(g.modules[k].dependencies, to);
            lemma_push_fresh(g.modules[k].dependents, from);
            lemma_push_fresh(g.modules[k].with_dependency(to).dependents, from);
        }
        if g.consistent() {
            assert forall|a: int, b: int|
                0 <= a < h.modules.len() && 0 <= b < h.modules.len() implies ((
                #[trigger] h.modules[a]).dependencies.contains((#[trigger] h.modules[b]).id)
                <==> h.modules[b].dependents.contains(h.modules[a].id)) by {
                assert(g.modules[a].dependencies.contains(g.modules[b].id)
                    <==> g.modules[b].dependents.contains(g.modules[a].id));
                assert(keys[a] == g.modules[a].id);
                assert(keys[b] == g.modules[b].id);
                assert(keys[i] == from);
                assert(keys[j] == to);
                assert(h.modules[a].id == g.modules[a].id);
                assert(h.modules[b].id == g.modules[b].id);
                lemma_push_fresh(g.modules[a].dependencies, to);
                lemma_push_fresh(g.modules[b].dependents, from);
                assert(h.modules[a].dependencies == if a == i {
                    g.modules[a].with_dependency(to).dependencies
                } else {
                    g.modules[a].dependencies
                });
                assert(h.modules[b].dependents == if b == j {
                    g.modules[b].with_dependent(from).dependents
                } else {
                    g.modules[b].dependents
                });
            }
        }
        lemma_push_fresh(g.modules[i].dependencies, to);
        assert(h.modules[i].id == from);
        assert(h.modules[i].dependencies.contains(to));
    }
}

/// A list with one more member holds what it held and the new member, and
/// holds nothing twice if it held nothing twice.
pub proof fn lemma_push_fresh(list: Seq<Seq<char>>, s: Seq<char>)
    ensures
        forall|x: Seq<char>|
            (if list.contains(s) {
                list
            } else {
                list.push(s)
            }).contains(x) <==> list.contains(x) || x == s,
        list.no_duplicates() ==> (if list.contains(s) {
            list
        } else {
            list.push(s)
        }).no_duplicates(),
{
    if !list.contains(s) {
        let more = list.push(s);
        assert forall|x: Seq<char>| more.contains(x) <==> list.contains(x) || x == s by {
            if more.contains(x) {
                let k = choose|k: int| 0 <= k < more.len() && more[k] == x;
                if k < list.len() {
                    assert(list[k] == x);
                }
            }
            if list.contains(x) {
                let k = choose|k: int| 0 <= k < list.len() && list[k] == x;
                assert(more[k] == x);
            }
            if x == s {
                assert(more[list.len() as int] == x);
            }
        }
        if list.no_duplicates() {
            assert forall|a: int, b: int| 0 <= a < more.len() && 0 <= b < more.len() && a
                != b implies more[a] != more[b] by {
                if a < list.len() && b < list.len() {
                    assert(more[a] == list[a] && more[b] == list[b]);
                } else if a < list.len() {
                    assert(list.contains(more[a]));
                } else {
                    assert(list.contains(more[b]));
                }
            }
        }
    }
}

impl ModuleGraph {
    /// The module with the given identifier, for changing it.
    pub fn get_module_mut(&mut self, id: &str) -> (r: Option<&mut ModuleNode>)
        ensures
            r.is_some() == old(self)@.has(id@),
            r matches Some(m) ==> {
                &&& *m == old(self).modules@[old(self)@.index_of(id@)]
                &&& final(self).modules@ == old(self).modules@.update(
                    old(self)@.index_of(id@),
                    *final(m),
                )
                &&& final(self).entry_points == old(self).entry_points
            },
            r is None ==> *final(self) == *old(self),
    {
        proof {
            lemma_position_contains(ids(self@.modules), id@);
        }
        match self.index_of(&id.to_owned()) {
            Some(i) => Some(&mut self.modules[i]),
            None => None,
        }
    }

    /// Records that `from_id` loads `to_id`, at both ends. Where one of the
    /// two is no module of the graph, the graph stays as it is.
    pub fn add_dependency(&mut self, from_id: &str, to_id: &str)
        ensures
            final(self)@ == old(self)@.with_edge(from_id@, to_id@),
    {
        let from = from_id.to_owned();
        let to = to_id.to_owned();
        proof {
            lemma_position_contains(ids(self@.modules), from_id@);
            lemma_position_contains(ids(self@.modules), to_id@);
        }
        let ghost before = self@;
        let source = self.index_of(&from);
        let target = self.index_of(&to);
        match (source, target) {
            (Some(i), Some(j)) => {
                self.modules[i].add_dependency(to);
                let ghost first = self@;
                assert(first.modules =~= before.modules.update(
                    i as int,
                    before.modules[i as int].with_dependency(to_id@),
                ));
                self.modules[j].add_dependent(from);
                assert(node_views(self.modules@) =~= first.modules.update(
                    j as int,
                    first.modules[j as int].with_dependent(from_id@),
                ));
            },
            _ => {},
        }
    }
}

impl GraphView {
    /// Whether `p` is a walk through the graph: a non-empty sequence of
    /// modules of the graph, each of which loads the next.
    pub open spec fn is_path(self, p: Seq<Seq<char>>) -> bool {
        &&& p.len() > 0
        &&& forall|k: int| 0 <= k < p.len() ==> self.has(#[trigger] p[k])
        &&& forall|k: int| 0 <= k < p.len() - 1 ==> self.edge(#[trigger] p[k], p[k + 1])
    }

    /// Whether a walk leads from one of `starts` to `id`.
    pub open spec fn reaches(self, starts: Seq<Seq<char>>, id: Seq<char>) -> bool {
        exists|p: Seq<Seq<char>>| #[trigger]
            self.is_path(p) && starts.contains(p[0]) && p.last() == id
    }

    /// Whether the module `id` is reachable from an entry point.
    pub open spec fn reachable(self, id: Seq<char>) -> bool {
        self.reaches(self.entry_points, id)
    }

    /// The identifiers of the first `n` modules that are reachable from
    /// `starts`, in order.
    pub open spec fn reached_upto(self, starts: Seq<Seq<char>>, n: int) -> Seq<Seq<char>>
        decreases n,
    {
        if n <= 0 || n > self.modules.len() {
            seq![]
        } else if self.reaches(starts, self.modules[n - 1].id) {
            self.reached_upto(starts, n - 1).push(self.modules[n - 1].id)
        } else {
            self.reached_upto(starts, n - 1)
        }
    }

    /// The identifiers of the first `n` modules that are not reachable from
    /// an entry point, in order.
    pub open spec fn unreachable_upto(self, n: int) -> Seq<Seq<char>>
        decreases n,
    {
        if n <= 0 || n > self.modules.len() {
            seq![]
        } else if !self.reachable(self.modules[n - 1].id) {
            self.unreachable_upto(n - 1).push(self.modules[n - 1].id)
        } else {
            self.unreachable_upto(n - 1)
        }
    }

    /// The reachable modules, in the order of the graph.
    pub open spec fn reachable_ids(self) -> Seq<Seq<char>> {
        self.reached_upto(self.entry_points, self.modules.len() as int)
    }

    /// The unreachable modules, in the order of the graph.
    pub open spec fn unreachable_ids(self) -> Seq<Seq<char>> {
        self.unreachable_upto(self.modules.len() as int)
    }
}

/// How many entries of `marks` are false.
pub open spec fn unmarked(marks: Seq<bool>) -> nat
    decreases marks.len(),
{
    if marks.len() == 0 {
        0
    } else {
        unmarked(marks.drop_last()) + if marks.last() { 0nat } else { 1nat }
    }
}

/// Marking an unmarked entry lowers the count by one.
pub proof fn lemma_mark(marks: Seq<bool>, j: int)
    requires
        0 <= j < marks.len(),
        !marks[j],
    ensures
        unmarked(marks.update(j, true)) + 1 == unmarked(marks),
    decreases marks.len(),
{
    let after = marks.update(j, true);
    if j == marks.len() - 1 {
        assert(after.drop_last() =~= marks.drop_last());
    } else {
        assert(after.drop_last() =~= marks.drop_last().update(j, true));
        lemma_mark(marks.drop_last(), j);
    }
}

/// With distinct identifiers, a module is found at its own index.
pub proof fn lemma_index_of(g: GraphView, i: int)
    requires
        ids(g.modules).no_duplicates(),
        0 <= i < g.modules.len(),
    ensures
        g.index_of(g.modules[i].id) == i,
        g.has(g.modules[i].id),
{
    let keys = ids(g.modules);
    lemma_position(keys, g.modules[i].id, 0);
    assert(keys[i] == g.modules[i].id);
}

/// A module of the graph is found at an index in range, where its
/// identifier stands.
pub proof fn lemma_has(g: GraphView, id: Seq<char>)
    requires
        g.has(id),
    ensures
        0 <= g.index_of(id) < g.modules.len(),
        g.modules[g.index_of(id)].id == id,
{
    let keys = ids(g.modules);
    lemma_position(keys, id, 0);
    lemma_position_contains(keys, id);
}

/// A start that is a module of the graph is reached.
pub proof fn lemma_start_is_reached(g: GraphView, starts: Seq<Seq<char>>, id: Seq<char>)
    requires
        starts.contains(id),
        g.has(id),
    ensures
        g.reaches(starts, id),
{
    let p = seq![id];
    assert(g.is_path(p));
    assert(p[0] == id);
}

/// What a reached module loads is reached too, if it is a module of the
/// graph.
pub proof fn lemma_reach_step(g: GraphView, starts: Seq<Seq<char>>, from: Seq<char>, to: Seq<char>)
    requires
        g.reaches(starts, from),
        g.edge(from, to),
        g.has(to),
    ensures
        g.reaches(starts, to),
{
    let p = choose|p: Seq<Seq<char>>| #[trigger]
        g.is_path(p) && starts.contains(p[0]) && p.last() == from;
    let q = p.push(to);
    assert forall|k: int| 0 <= k < q.len() implies g.has(#[trigger] q[k]) by {
        if k < p.len() {
            assert(q[k] == p[k]);
        }
    }
    assert forall|k: int| 0 <= k < q.len() - 1 implies g.edge(#[trigger] q[k], q[k + 1]) by {
        if k < p.len() - 1 {
            assert(q[k] == p[k]);
            assert(q[k + 1] == p[k + 1]);
        }
    }
    assert(g.is_path(q));
    assert(q[0] == p[0]);
}

/// Whether `marks` holds every start that is a module and, with each marked
/// module, every module it loads.
pub open spec fn is_closed(g: GraphView, starts: Seq<Seq<char>>, marks: Seq<bool>) -> bool {
    &&& marks.len() == g.modules.len()
    &&& forall|k: int|
        0 <= k < starts.len() && g.has(#[trigger] starts[k]) ==> marks[g.index_of(starts[k])]
    &&& forall|i: int, k: int|
        0 <= i < g.modules.len() && marks[i] && 0 <= k < g.modules[i].dependencies.len() && g.has(
            #[trigger] g.modules[i].dependencies[k],
        ) ==> marks[g.index_of(g.modules[i].dependencies[k])]
}

/// Every module on a walk from a start is marked, if the marks are closed.
proof fn lemma_walk_is_marked(
    g: GraphView,
    starts: Seq<Seq<char>>,
    marks: Seq<bool>,
    p: Seq<Seq<char>>,
    k: int,
)
    requires
        ids(g.modules).no_duplicates(),
        is_closed(g, starts, marks),
        g.is_path(p),
        starts.contains(p[0]),
        0 <= k < p.len(),
    ensures
        marks[g.index_of(p[k])],
    decreases k,
{
    if k == 0 {
        let s = choose|s: int| 0 <= s < starts.len() && starts[s] == p[0];
        assert(g.has(p[0]));
        assert(g.has(starts[s]));
    } else {
        lemma_walk_is_marked(g, starts, marks, p, k - 1);
        assert(g.edge(p[k - 1], p[k]));
        let i = choose|i: int|
            0 <= i < g.modules.len() && (#[trigger] g.modules[i]).id == p[k - 1]
                && g.modules[i].dependencies.contains(p[k]);
        lemma_index_of(g, i);
        let d = choose|d: int|
            0 <= d < g.modules[i].dependencies.len() && g.modules[i].dependencies[d] == p[k];
        assert(g.has(p[k]));
        assert(g.has(g.modules[i].dependencies[d]));
    }
}

/// Closed marks hold every reached module.
pub proof fn lemma_closed_is_complete(
    g: GraphView,
    starts: Seq<Seq<char>>,
    marks: Seq<bool>,
    id: Seq<char>,
)
    requires
        ids(g.modules).no_duplicates(),
        is_closed(g, starts, marks),
        g.reaches(starts, id),
    ensures
        marks[g.index_of(id)],
{
    let p = choose|p: Seq<Seq<char>>| #[trigger]
        g.is_path(p) && starts.contains(p[0]) && p.last() == id;
    lemma_walk_is_marked(g, starts, marks, p, p.len() - 1);
}

/// What holds of a search in progress: `marks` and `order` name the same
/// modules, each of them is reached, and `order` lists them once each.
pub open spec fn search_sound(
    g: GraphView,
    starts: Seq<Seq<char>>,
    marks: Seq<bool>,
    order: Seq<usize>,
) -> bool {
    &&& marks.len() == g.modules.len()
    &&& marks.len() <= usize::MAX
    &&& order.no_duplicates()
    &&& forall|k: int| 0 <= k < order.len() ==> (#[trigger] order[k]) < marks.len()
    &&& forall|i: int| 0 <= i < marks.len() ==> (#[trigger] marks[i] <==> order.contains(i as usize))
    &&& forall|i: int|
        0 <= i < marks.len() && #[trigger] marks[i] ==> g.reaches(starts, g.modules[i].id)
}

/// Whether the module at `i` has all its first `upto` dependencies marked,
/// as far as they are modules of the graph.
pub open spec fn deps_marked(g: GraphView, marks: Seq<bool>, i: int, upto: int) -> bool {
    forall|k: int|
        0 <= k < upto && k < g.modules[i].dependencies.len() && g.has(
            #[trigger] g.modules[i].dependencies[k],
        ) ==> marks[g.index_of(g.modules[i].dependencies[k])]
}

/// Whether the first `upto` starts are marked, as far as they are modules
/// of the graph.
pub open spec fn starts_marked(g: GraphView, starts: Seq<Seq<char>>, marks: Seq<bool>, upto: int) -> bool {
    forall|k: int|
        0 <= k < upto && k < starts.len() && g.has(#[trigger] starts[k]) ==> marks[g.index_of(
            starts[k],
        )]
}

/// Whether the search came upon the first start first, if that start is a
/// module of the graph.
pub open spec fn first_found(g: GraphView, starts: Seq<Seq<char>>, order: Seq<usize>) -> bool {
    starts.len() > 0 && g.has(starts[0]) ==> order.len() > 0 && order[0] == g.index_of(starts[0])
}

/// Marking more modules keeps the starts marked.
proof fn lemma_starts_stay_marked(
    g: GraphView,
    starts: Seq<Seq<char>>,
    before: Seq<bool>,
    after: Seq<bool>,
    upto: int,
)
    requires
        before.len() == g.modules.len(),
        after.len() == g.modules.len(),
        forall|x: int| 0 <= x < before.len() && before[x] ==> after[x],
        starts_marked(g, starts, before, upto),
    ensures
        starts_marked(g, starts, after, upto),
{
    assert forall|k: int|
        0 <= k < upto && k < starts.len() && g.has(#[trigger] starts[k]) implies after[g.index_of(
        starts[k],
    )] by {
        lemma_has(g, starts[k]);
    }
}

/// Marking more modules keeps marked what was marked.
proof fn lemma_deps_stay_marked(g: GraphView, before: Seq<bool>, after: Seq<bool>, i: int, upto: int)
    requires
        before.len() == g.modules.len(),
        after.len() == g.modules.len(),
        forall|x: int| 0 <= x < before.len() && before[x] ==> after[x],
        deps_marked(g, before, i, upto),
    ensures
        deps_marked(g, after, i, upto),
{
    assert forall|k: int|
        0 <= k < upto && k < g.modules[i].dependencies.len() && g.has(
            #[trigger] g.modules[i].dependencies[k],
        ) implies after[g.index_of(g.modules[i].dependencies[k])] by {
        lemma_has(g, g.modules[i].dependencies[k]);
    }
}

impl ModuleGraph {
    /// Marks the module at `j` as found, if it is not marked yet.
    fn visit(
        &self,
        j: usize,
        marks: &mut Vec<bool>,
        stack: &mut Vec<usize>,
        order: &mut Vec<usize>,
        Ghost(starts): Ghost<Seq<Seq<char>>>,
    )
        requires
            j < self.modules@.len(),
            search_sound(self@, starts, old(marks)@, old(order)@),
            self@.reaches(starts, self@.modules[j as int].id),
        ensures
            search_sound(self@, starts, final(marks)@, final(order)@),
            final(marks)@[j as int],
            forall|i: int| 0 <= i < old(marks)@.len() && old(marks)@[i] ==> final(marks)@[i],
            forall|i: int|
                0 <= i < old(marks)@.len() && i != j ==> final(marks)@[i] == old(marks)@[i],
            old(marks)@[j as int] ==> final(stack)@ == old(stack)@ && final(marks)@ == old(
                marks,
            )@ && final(order)@ == old(order)@,
            !old(marks)@[j as int] ==> final(stack)@ == old(stack)@.push(j) && final(marks)@
                == old(marks)@.update(j as int, true) && final(order)@ == old(order)@.push(j),
    {
        if !marks[j] {
            let ghost before = order@;
            marks[j] = true;
            stack.push(j);
            order.push(j);
            proof {
                assert(!before.contains(j));
                assert forall|a: int, b: int|
                    0 <= a < order@.len() && 0 <= b < order@.len() && a != b implies order@[a]
                    != order@[b] by {
                    if a < before.len() {
                        assert(before.contains(order@[a]));
                    }
                    if b < before.len() {
                        assert(before.contains(order@[b]));
                    }
                }
                assert forall|i: int| 0 <= i < marks@.len() implies (#[trigger] marks@[i]
                    <==> order@.contains(i as usize)) by {
                    if i == j {
                        assert(order@[before.len() as int] == j);
                    } else {
                        if old(marks)@[i] {
                            let k = choose|k: int| 0 <= k < before.len() && before[k] == i as usize;
                            assert(order@[k] == i as usize);
                        }
                        if order@.contains(i as usize) {
                            let k = choose|k: int| 0 <= k < order@.len() && order@[k] == i as usize;
                            assert(before[k] == i as usize);
                        }
                    }
                }
            }
        }
    }

    /// Searches the graph from `starts`. Gives, for each module, whether a
    /// walk from one of the starts leads to it, and the modules found in the
    /// order in which the search came upon them.
    pub fn explore(&self, starts: &Vec<String>) -> (r: (Vec<bool>, Vec<usize>))
        requires
            ids(self@.modules).no_duplicates(),
        ensures
            search_sound(self@, texts(starts@), r.0@, r.1@),
            first_found(self@, texts(starts@), r.1@),
            forall|i: int|
                0 <= i < self.modules@.len() ==> (#[trigger] r.0@[i] <==> self@.reaches(
                    texts(starts@),
                    self@.modules[i].id,
                )),
    {
        let n = self.modules.len();
        let ghost g = self@;
        let ghost st = texts(starts@);
        let mut marks: Vec<bool> = Vec::new();
        while marks.len() < n
            invariant
                marks@.len() <= n,
                forall|i: int| 0 <= i < marks@.len() ==> !(#[trigger] marks@[i]),
            decreases n - marks@.len(),
        {
            marks.push(false);
        }
        let mut stack: Vec<usize> = Vec::new();
        let mut order: Vec<usize> = Vec::new();
        let mut s: usize = 0;
        while s < starts.len()
            invariant
                n == self.modules@.len(),
                g == self@,
                st == texts(starts@),
                ids(g.modules).no_duplicates(),
                s <= starts@.len(),
                search_sound(g, st, marks@, order@),
                forall|i: int| 0 <= i < n && #[trigger] marks@[i] ==> stack@.contains(i as usize),
                forall|k: int|
                    0 <= k < stack@.len() ==> (#[trigger] stack@[k]) < n && marks@[stack@[k] as int],
                starts_marked(g, st, marks@, s as int),
                s > 0 ==> first_found(g, st, order@),
                s == 0 ==> order@.len() == 0,
            decreases starts@.len() - s,
        {
            let ghost stack0 = stack@;
            let ghost marks0 = marks@;
            assert(st[s as int] == starts@[s as int]@);
            match self.index_of(&starts[s]) {
                Some(j) => {
                    proof {
                        lemma_start_is_reached(g, st, st[s as int]);
                    }
                    self.visit(j, &mut marks, &mut stack, &mut order, Ghost(st));
                    proof {
                        assert forall|k: int| 0 <= k < stack@.len() implies (#[trigger] stack@[k])
                            < n && marks@[stack@[k] as int] by {
                            if k < stack0.len() {
                                assert(stack@[k] == stack0[k]);
                            }
                        }
                        assert forall|i: int| 0 <= i < n && #[trigger] marks@[i] implies stack@.contains(
                            i as usize,
                        ) by {
                            if stack@ == stack0 {
                            } else {
                                if i == j {
                                    assert(stack@[stack0.len() as int] == j);
                                } else {
                                    let k = choose|k: int|
                                        0 <= k < stack0.len() && stack0[k] == i as usize;
                                    assert(stack@[k] == i as usize);
                                }
                            }
                        }
                    }
                },
                None => {},
            }
            proof {
                lemma_starts_stay_marked(g, st, marks0, marks@, s as int);
                lemma_position_contains(ids(g.modules), st[s as int]);
                assert(starts_marked(g, st, marks@, s + 1));
            }
            s += 1;
        }
        while stack.len() > 0
            invariant
                n == self.modules@.len(),
                g == self@,
                st == texts(starts@),
                ids(g.modules).no_duplicates(),
                search_sound(g, st, marks@, order@),
                forall|k: int| 0 <= k < stack@.len() ==> (#[trigger] stack@[k]) < n && marks@[stack@[k] as int],
                starts_marked(g, st, marks@, st.len() as int),
                first_found(g, st, order@),
                forall|i: int|
                    0 <= i < n && marks@[i] && !stack@.contains(i as usize) ==> #[trigger] deps_marked(
                        g,
                        marks@,
                        i,
                        g.modules[i].dependencies.len() as int,
                    ),
            decreases 2 * unmarked(marks@) + stack@.len(),
        {
            let ghost stack_before = stack@;
            let ghost measure = 2 * unmarked(marks@) + stack@.len();
            let cur = stack.pop().unwrap();
            let ghost stack1 = stack@;
            let deps = &self.modules[cur].dependencies;
            let mut k: usize = 0;
            proof {
                assert(stack_before[stack_before.len() - 1] == cur);
                assert forall|i: int|
                    0 <= i < n && marks@[i] && !stack@.contains(i as usize) && i != cur implies !stack_before.contains(
                    i as usize,
                ) by {
                    if stack_before.contains(i as usize) {
                        let q = choose|q: int|
                            0 <= q < stack_before.len() && stack_before[q] == i as usize;
                        assert(stack@[q] == i as usize);
                    }
                }
            }
            while k < deps.len()
                invariant
                    n == self.modules@.len(),
                    g == self@,
                    st == texts(starts@),
                    ids(g.modules).no_duplicates(),
                    cur < n,
                    marks@[cur as int],
                    texts(deps@) == g.modules[cur as int].dependencies,
                    k <= deps@.len(),
                    search_sound(g, st, marks@, order@),
                    forall|q: int| 0 <= q < stack@.len() ==> (#[trigger] stack@[q]) < n && marks@[stack@[q] as int],
                    starts_marked(g, st, marks@, st.len() as int),
                    first_found(g, st, order@),
                    forall|i: int|
                        0 <= i < n && marks@[i] && !stack@.contains(i as usize) && i != cur
                            ==> #[trigger] deps_marked(
                            g,
                            marks@,
                            i,
                            g.modules[i].dependencies.len() as int,
                        ),
                    deps_marked(g, marks@, cur as int, k as int),
                    2 * unmarked(marks@) + stack@.len() < measure,
                decreases deps@.len() - k,
            {
                let ghost marks0 = marks@;
                let ghost stack0 = stack@;
                let ghost dep = g.modules[cur as int].dependencies[k as int];
                assert(dep == deps@[k as int]@);
                match self.index_of(&deps[k]) {
                    Some(j) => {
                        proof {
                            lemma_position_contains(ids(g.modules), dep);
                            assert(g.edge(g.modules[cur as int].id, dep));
                            lemma_reach_step(g, st, g.modules[cur as int].id, dep);
                            if !marks@[j as int] {
                                lemma_mark(marks@, j as int);
                            }
                        }
                        self.visit(j, &mut marks, &mut stack, &mut order, Ghost(st));
                    },
                    None => {},
                }
                proof {
                    assert forall|q: int| 0 <= q < stack@.len() implies (#[trigger] stack@[q]) < n
                        && marks@[stack@[q] as int] by {
                        if q < stack0.len() {
                            assert(stack@[q] == stack0[q]);
                        }
                    }
                    assert forall|i: int|
                        0 <= i < n && marks@[i] && !stack@.contains(i as usize) && i
                            != cur implies #[trigger] deps_marked(
                        g,
                        marks@,
                        i,
                        g.modules[i].dependencies.len() as int,
                    ) by {
                        if !marks0[i] {
                            assert(stack@[stack0.len() as int] == i as usize);
                        }
                        if stack0.contains(i as usize) {
                            let q = choose|q: int| 0 <= q < stack0.len() && stack0[q] == i as usize;
                            assert(stack@[q] == i as usize);
                        }
                        assert(deps_marked(g, marks0, i, g.modules[i].dependencies.len() as int));
                        lemma_deps_stay_marked(
                            g,
                            marks0,
                            marks@,
                            i,
                            g.modules[i].dependencies.len() as int,
                        );
                    }
                    lemma_deps_stay_marked(g, marks0, marks@, cur as int, k as int);
                    lemma_starts_stay_marked(g, st, marks0, marks@, st.len() as int);
                    lemma_position_contains(ids(g.modules), dep);
                    assert(deps_marked(g, marks@, cur as int, k + 1));
                }
                k += 1;
            }
            proof {
                assert(texts(deps@).len() == deps@.len());
                assert forall|i: int|
                    0 <= i < n && marks@[i] && !stack@.contains(
                        i as usize,
                    ) implies #[trigger] deps_marked(
                    g,
                    marks@,
                    i,
                    g.modules[i].dependencies.len() as int,
                ) by {}
            }
        }
        proof {
            assert forall|i: int, k: int|
                0 <= i < g.modules.len() && marks@[i] && 0 <= k < g.modules[i].dependencies.len()
                    && g.has(#[trigger] g.modules[i].dependencies[k]) implies marks@[g.index_of(
                g.modules[i].dependencies[k],
            )] by {
                assert(!stack@.contains(i as usize));
                assert(deps_marked(g, marks@, i, g.modules[i].dependencies.len() as int));
            }
            assert forall|k: int|
                0 <= k < st.len() && g.has(#[trigger] st[k]) implies marks@[g.index_of(st[k])] by {
                assert(starts_marked(g, st, marks@, st.len() as int));
            }
            assert(is_closed(g, st, marks@));
            assert forall|i: int| 0 <= i < n implies (#[trigger] marks@[i] <==> g.reaches(
                st,
                g.modules[i].id,
            )) by {
                if g.reaches(st, g.modules[i].id) {
                    lemma_closed_is_complete(g, st, marks@, g.modules[i].id);
                    lemma_index_of(g, i);
                }
            }
        }
        (marks, order)
    }
}

impl GraphView {
    /// Whether the identifier `id` is reached: it is an entry point, or a
    /// reachable module loads it. What is reached need not be a module of
    /// the graph.
    pub open spec fn is_reached(self, id: Seq<char>) -> bool {
        self.entry_points.contains(id) || exists|i: int|
            0 <= i < self.modules.len() && self.reachable((#[trigger] self.modules[i]).id)
                && self.modules[i].dependencies.contains(id)
    }

    /// The entry points, then what the first `n` modules load as far as
    /// they are reachable.
    pub open spec fn loaded_upto(self, n: int) -> Seq<Seq<char>>
        decreases n,
    {
        if n <= 0 || n > self.modules.len() {
            self.entry_points
        } else if self.reachable(self.modules[n - 1].id) {
            self.loaded_upto(n - 1) + self.modules[n - 1].dependencies
        } else {
            self.loaded_upto(n - 1)
        }
    }

    /// The members of `list` that are no modules of the graph, each once,
    /// in order.
    pub open spec fn strangers(self, list: Seq<Seq<char>>) -> Seq<Seq<char>>
        decreases list.len(),
    {
        if list.len() == 0 {
            seq![]
        } else {
            let before = self.strangers(list.drop_last());
            if !self.has(list.last()) && !before.contains(list.last()) {
                before.push(list.last())
            } else {
                before
            }
        }
    }

    /// Everything that is reached: the reachable modules in the order of
    /// the graph, then the reached identifiers that are no modules, in the
    /// order in which the entry points and the modules name them.
    pub open spec fn reached_ids(self) -> Seq<Seq<char>> {
        self.reachable_ids() + self.strangers(self.loaded_upto(self.modules.len() as int))
    }
}

/// The members of `strangers` are the members of the list that are no
/// modules, each once.
pub proof fn lemma_strangers(g: GraphView, list: Seq<Seq<char>>)
    ensures
        g.strangers(list).no_duplicates(),
        forall|x: Seq<char>| #[trigger]
            g.strangers(list).contains(x) <==> list.contains(x) && !g.has(x),
    decreases list.len(),
{
    if list.len() > 0 {
        let front = list.drop_last();
        let last = list.last();
        lemma_strangers(g, front);
        let now = g.strangers(list);
        let before = g.strangers(front);
        assert forall|a: int, b: int| 0 <= a < now.len() && 0 <= b < now.len() && a
            != b implies now[a] != now[b] by {
            if a < before.len() && b < before.len() {
                assert(now[a] == before[a] && now[b] == before[b]);
            } else if a < before.len() {
                assert(before.contains(now[a]));
            } else if b < before.len() {
                assert(before.contains(now[b]));
            }
        }
        assert forall|x: Seq<char>| #[trigger]
            now.contains(x) <==> list.contains(x) && !g.has(x) by {
            if now.contains(x) {
                let k = choose|k: int| 0 <= k < now.len() && now[k] == x;
                if k < before.len() {
                    assert(before[k] == x);
                    assert(before.contains(x));
                    let j = choose|j: int| 0 <= j < front.len() && front[j] == x;
                    assert(list[j] == x);
                } else {
                    assert(list[list.len() - 1] == x);
                }
            }
            if list.contains(x) && !g.has(x) {
                let j = choose|j: int| 0 <= j < list.len() && list[j] == x;
                if j < front.len() {
                    assert(front[j] == x);
                    assert(front.contains(x));
                    assert(before.contains(x));
                    let k = choose|k: int| 0 <= k < before.len() && before[k] == x;
                    assert(now[k] == x);
                } else if before.contains(x) {
                    let k = choose|k: int| 0 <= k < before.len() && before[k] == x;
                    assert(now[k] == x);
                } else {
                    assert(now[now.len() - 1] == x);
                }
            }
        }
    }
}

/// What `loaded_upto` holds: the entry points and what the reachable
/// modules among the first `n` load.
pub proof fn lemma_loaded_upto(g: GraphView, n: int, x: Seq<char>)
    requires
        0 <= n <= g.modules.len(),
    ensures
        g.loaded_upto(n).contains(x) <==> g.entry_points.contains(x) || exists|i: int|
            0 <= i < n && g.reachable((#[trigger] g.modules[i]).id)
                && g.modules[i].dependencies.contains(x),
    decreases n,
{
    if n > 0 {
        lemma_loaded_upto(g, n - 1, x);
        let before = g.loaded_upto(n - 1);
        let now = g.loaded_upto(n);
        let m = g.modules[n - 1];
        if g.reachable(m.id) {
            if now.contains(x) {
                let k = choose|k: int| 0 <= k < now.len() && now[k] == x;
                if k < before.len() {
                    assert(before[k] == x);
                    assert(before.contains(x));
                } else {
                    assert(m.dependencies[k - before.len()] == x);
                    assert(g.modules[n - 1].dependencies.contains(x));
                }
            }
            if before.contains(x) {
                let k = choose|k: int| 0 <= k < before.len() && before[k] == x;
                assert(now[k] == x);
            }
            if m.dependencies.contains(x) {
                let k = choose|k: int| 0 <= k < m.dependencies.len() && m.dependencies[k] == x;
                assert(now[before.len() + k] == x);
            }
        }
        if exists|i: int|
            0 <= i < n && g.reachable((#[trigger] g.modules[i]).id)
                && g.modules[i].dependencies.contains(x) {
            let i = choose|i: int|
                0 <= i < n && g.reachable((#[trigger] g.modules[i]).id)
                    && g.modules[i].dependencies.contains(x);
            if i < n - 1 {
                assert(g.modules[i].dependencies.contains(x));
            }
        }
    }
}

/// What `reached_upto` holds: the modules among the first `n` that the
/// starts reach.
pub proof fn lemma_reached_upto(g: GraphView, starts: Seq<Seq<char>>, n: int, x: Seq<char>)
    requires
        0 <= n <= g.modules.len(),
    ensures
        g.reached_upto(starts, n).contains(x) <==> exists|i: int|
            0 <= i < n && (#[trigger] g.modules[i]).id == x && g.reaches(starts, x),
    decreases n,
{
    if n > 0 {
        lemma_reached_upto(g, starts, n - 1, x);
        let before = g.reached_upto(starts, n - 1);
        let now = g.reached_upto(starts, n);
        if now.contains(x) {
            let k = choose|k: int| 0 <= k < now.len() && now[k] == x;
            if k < before.len() {
                assert(before[k] == x);
                assert(before.contains(x));
                let i = choose|i: int|
                    0 <= i < n - 1 && (#[trigger] g.modules[i]).id == x && g.reaches(starts, x);
                assert(g.modules[i].id == x);
            } else {
                assert(g.modules[n - 1].id == x);
            }
        }
        if exists|i: int| 0 <= i < n && (#[trigger] g.modules[i]).id == x && g.reaches(starts, x) {
            let i = choose|i: int|
                0 <= i < n && (#[trigger] g.modules[i]).id == x && g.reaches(starts, x);
            if i < n - 1 {
                assert(before.contains(x));
                let k = choose|k: int| 0 <= k < before.len() && before[k] == x;
                assert(now[k] == x);
            } else {
                assert(now[now.len() - 1] == x);
            }
        }
    }
}

/// A module of the graph is reached exactly when it is reachable.
pub proof fn lemma_reached_module(g: GraphView, x: Seq<char>)
    requires
        ids(g.modules).no_duplicates(),
        g.has(x),
    ensures
        g.is_reached(x) == g.reachable(x),
{
    if g.is_reached(x) {
        if g.entry_points.contains(x) {
            lemma_start_is_reached(g, g.entry_points, x);
        } else {
            let i = choose|i: int|
                0 <= i < g.modules.len() && g.reachable((#[trigger] g.modules[i]).id)
                    && g.modules[i].dependencies.contains(x);
            assert(g.edge(g.modules[i].id, x));
            lemma_reach_step(g, g.entry_points, g.modules[i].id, x);
        }
    }
    if g.reachable(x) {
        let p = choose|p: Seq<Seq<char>>| #[trigger]
            g.is_path(p) && g.entry_points.contains(p[0]) && p.last() == x;
        if p.len() > 1 {
            let q = p.drop_last();
            assert forall|j: int| 0 <= j < q.len() implies g.has(#[trigger] q[j]) by {
                assert(q[j] == p[j]);
            }
            assert forall|j: int| 0 <= j < q.len() - 1 implies g.edge(#[trigger] q[j], q[j + 1]) by {
                assert(q[j] == p[j]);
                assert(q[j + 1] == p[j + 1]);
            }
            assert(g.is_path(q));
            assert(q[0] == p[0]);
            assert(g.reachable(q.last()));
            assert(q.last() == p[p.len() - 2]);
            assert(g.edge(p[p.len() - 2], p[p.len() - 2 + 1]));
            let i = choose|i: int|
                0 <= i < g.modules.len() && (#[trigger] g.modules[i]).id == p[p.len() - 2]
                    && g.modules[i].dependencies.contains(x);
            assert(g.reachable(g.modules[i].id));
        }
    }
}

/// The list of what is reached names an identifier exactly when it is an
/// entry point or a reachable module loads it, and names nothing twice.
pub proof fn lemma_reached_ids(g: GraphView)
    requires
        g.wf(),
    ensures
        g.reached_ids().no_duplicates(),
        forall|x: Seq<char>| #[trigger] g.reached_ids().contains(x) <==> g.is_reached(x),
{
    let n = g.modules.len() as int;
    let keys = g.reachable_ids();
    let loaded = g.loaded_upto(n);
    let loose = g.strangers(loaded);
    let all = g.reached_ids();
    lemma_strangers(g, loaded);
    assert forall|x: Seq<char>| #[trigger] all.contains(x) <==> g.is_reached(x) by {
        lemma_reached_upto(g, g.entry_points, n, x);
        lemma_loaded_upto(g, n, x);
        if g.has(x) {
            lemma_reached_module(g, x);
            lemma_has(g, x);
            assert(g.modules[g.index_of(x)].id == x);
        }
        if keys.contains(x) {
            let i = choose|i: int|
                0 <= i < n && (#[trigger] g.modules[i]).id == x && g.reachable(x);
            assert(ids(g.modules)[i] == x);
            let k = choose|k: int| 0 <= k < keys.len() && keys[k] == x;
            assert(all[k] == x);
        }
        if loose.contains(x) {
            let k = choose|k: int| 0 <= k < loose.len() && loose[k] == x;
            assert(all[keys.len() + k] == x);
        }
        if all.contains(x) {
            let k = choose|k: int| 0 <= k < all.len() && all[k] == x;
            if k < keys.len() {
                assert(keys[k] == x);
                assert(keys.contains(x));
            } else {
                assert(loose[k - keys.len()] == x);
                assert(loose.contains(x));
            }
        }
    }
    lemma_reachable_ids_distinct(g, n);
    assert forall|a: int, b: int| 0 <= a < all.len() && 0 <= b < all.len() && a != b implies all[a]
        != all[b] by {
        if a < keys.len() && b < keys.len() {
            assert(all[a] == keys[a] && all[b] == keys[b]);
        } else if a >= keys.len() && b >= keys.len() {
            assert(all[a] == loose[a - keys.len()] && all[b] == loose[b - keys.len()]);
        } else {
            let k = if a < keys.len() { a } else { b };
            let l = if a < keys.len() { b } else { a };
            assert(keys.contains(keys[k]));
            lemma_reached_upto(g, g.entry_points, n, keys[k]);
            let i = choose|i: int|
                0 <= i < n && (#[trigger] g.modules[i]).id == keys[k] && g.reachable(keys[k]);
            assert(ids(g.modules)[i] == keys[k]);
            assert(loose.contains(loose[l - keys.len()]));
        }
    }
}

/// The reachable modules are listed once each.
pub proof fn lemma_reachable_ids_distinct(g: GraphView, n: int)
    requires
        ids(g.modules).no_duplicates(),
        0 <= n <= g.modules.len(),
    ensures
        g.reached_upto(g.entry_points, n).no_duplicates(),
    decreases n,
{
    if n > 0 {
        lemma_reachable_ids_distinct(g, n - 1);
        let before = g.reached_upto(g.entry_points, n - 1);
        let now = g.reached_upto(g.entry_points, n);
        let x = g.modules[n - 1].id;
        lemma_reached_upto(g, g.entry_points, n - 1, x);
        if before.contains(x) {
            let i = choose|i: int|
                0 <= i < n - 1 && (#[trigger] g.modules[i]).id == x && g.reaches(g.entry_points, x);
            assert(ids(g.modules)[i] == ids(g.modules)[n - 1]);
        }
        assert forall|a: int, b: int| 0 <= a < now.len() && 0 <= b < now.len() && a
            != b implies now[a] != now[b] by {
            if a < before.len() && b < before.len() {
                assert(now[a] == before[a] && now[b] == before[b]);
            } else if a < before.len() {
                assert(before.contains(now[a]));
            } else if b < before.len() {
                assert(before.contains(now[b]));
            }
        }
    }
}

impl ModuleGraph {
    /// Everything that the entry points reach: an identifier is listed
    /// exactly when it is an entry point or a reachable module loads it.
    /// The reachable modules come first, in the order of the graph; then
    /// come the reached identifiers that are no modules of the graph.
    pub fn get_reachable_modules(&self) -> (out: Vec<String>)
        requires
            self@.wf(),
        ensures
            texts(out@) == self@.reached_ids(),
            texts(out@).no_duplicates(),
            forall|x: Seq<char>| #[trigger] texts(out@).contains(x) <==> self@.is_reached(x),
    {
        let ghost g = self@;
        let (marks, _order) = self.explore(&self.entry_points);
        let mut out: Vec<String> = Vec::new();
        let mut i: usize = 0;
        assert(texts(out@) =~= seq![]);
        while i < self.modules.len()
            invariant
                i <= self.modules@.len(),
                marks@.len() == self.modules@.len(),
                forall|k: int|
                    0 <= k < self.modules@.len() ==> (#[trigger] marks@[k] <==> self@.reachable(
                        self@.modules[k].id,
                    )),
                texts(out@) == self@.reached_upto(self@.entry_points, i as int),
            decreases self.modules@.len() - i,
        {
            if marks[i] {
                let id = self.modules[i].id.clone();
                proof {
                    lemma_texts_push(out@, id);
                }
                out.push(id);
            }
            i += 1;
        }
        let mut loose: Vec<String> = Vec::new();
        assert(texts(loose@) =~= g.strangers(Seq::<Seq<char>>::empty()));
        self.add_strangers(&self.entry_points, &mut loose, Ghost(Seq::empty()));
        assert(Seq::<Seq<char>>::empty() + g.entry_points =~= g.entry_points);
        let mut k: usize = 0;
        while k < self.modules.len()
            invariant
                k <= self.modules@.len(),
                g == self@,
                marks@.len() == self.modules@.len(),
                forall|q: int|
                    0 <= q < self.modules@.len() ==> (#[trigger] marks@[q] <==> g.reachable(
                        g.modules[q].id,
                    )),
                texts(loose@) == g.strangers(g.loaded_upto(k as int)),
            decreases self.modules@.len() - k,
        {
            if marks[k] {
                assert(g.modules[k as int].dependencies == texts(self.modules@[k as int].dependencies@));
                self.add_strangers(&self.modules[k].dependencies, &mut loose, Ghost(g.loaded_upto(k as int)));
            }
            k += 1;
        }
        let mut j: usize = 0;
        let ghost keys = texts(out@);
        assert(keys + texts(loose@).subrange(0, 0) =~= keys);
        while j < loose.len()
            invariant
                j <= loose@.len(),
                texts(out@) == keys + texts(loose@).subrange(0, j as int),
            decreases loose@.len() - j,
        {
            let id = loose[j].clone();
            proof {
                lemma_texts_push(out@, id);
                assert((keys + texts(loose@).subrange(0, j as int)).push(id@) =~= keys + texts(
                    loose@,
                ).subrange(0, j + 1));
            }
            out.push(id);
            j += 1;
        }
        proof {
            assert(texts(loose@).subrange(0, j as int) =~= texts(loose@));
            lemma_reached_ids(g);
        }
        out
    }

    /// Appends to `loose` the members of `list` that are no modules of the
    /// graph and that `loose` does not name yet.
    fn add_strangers(&self, list: &Vec<String>, loose: &mut Vec<String>, Ghost(seen): Ghost<
        Seq<Seq<char>>,
    >)
        requires
            texts(old(loose)@) == self@.strangers(seen),
        ensures
            texts(final(loose)@) == self@.strangers(seen + texts(list@)),
    {
        let ghost all = texts(list@);
        let mut i: usize = 0;
        assert(seen + all.subrange(0, 0) =~= seen);
        while i < list.len()
            invariant
                i <= list@.len(),
                all == texts(list@),
                texts(loose@) == self@.strangers(seen + all.subrange(0, i as int)),
            decreases list@.len() - i,
        {
            proof {
                let now = seen + all.subrange(0, i + 1);
                assert(now.drop_last() =~= seen + all.subrange(0, i as int));
                assert(now.last() == list@[i as int]@);
            }
            if self.index_of(&list[i]).is_none() && !has_text(loose, &list[i]) {
                let id = list[i].clone();
                proof {
                    lemma_texts_push(loose@, id);
                }
                loose.push(id);
            }
            i += 1;
        }
        assert(all.subrange(0, i as int) =~= all);
    }

    /// The modules that no entry point reaches, in the order of the graph.
    pub fn get_unreachable_modules(&self) -> (out: Vec<String>)
        requires
            self@.wf(),
        ensures
            texts(out@) == self@.unreachable_ids(),
    {
        let (marks, _order) = self.explore(&self.entry_points);
        let mut out: Vec<String> = Vec::new();
        let mut i: usize = 0;
        assert(texts(out@) =~= seq![]);
        while i < self.modules.len()
            invariant
                i <= self.modules@.len(),
                marks@.len() == self.modules@.len(),
                forall|k: int|
                    0 <= k < self.modules@.len() ==> (#[trigger] marks@[k] <==> self@.reachable(
                        self@.modules[k].id,
                    )),
                texts(out@) == self@.unreachable_upto(i as int),
            decreases self.modules@.len() - i,
        {
            if !marks[i] {
                let id = self.modules[i].id.clone();
                proof {
                    lemma_texts_push(out@, id);
                }
                out.push(id);
            }
            i += 1;
        }
        out
    }

    /// The modules that `module_id` depends on, directly or through others,
    /// with `module_id` itself first. Empty if the graph has no such module.
    pub fn get_dependency_chain(&self, module_id: &str) -> (chain: Vec<String>)
        requires
            self@.wf(),
        ensures
            texts(chain@).no_duplicates(),
            forall|id: Seq<char>|
                texts(chain@).contains(id) <==> self@.has(id) && self@.reaches(seq![module_id@], id),
            self@.has(module_id@) ==> chain@.len() > 0 && chain@[0]@ == module_id@,
    {
        let mut starts: Vec<String> = Vec::new();
        starts.push(module_id.to_owned());
        let ghost st = texts(starts@);
        assert(st =~= seq![module_id@]);
        let ghost g = self@;
        let (marks, order) = self.explore(&starts);
        let mut chain: Vec<String> = Vec::new();
        let mut k: usize = 0;
        assert(texts(chain@) =~= seq![]);
        while k < order.len()
            invariant
                k <= order@.len(),
                g == self@,
                g.wf(),
                search_sound(g, st, marks@, order@),
                chain@.len() == k,
                forall|q: int|
                    0 <= q < k ==> (#[trigger] chain@[q])@ == g.modules[order@[q] as int].id,
            decreases order@.len() - k,
        {
            chain.push(self.modules[order[k]].id.clone());
            k += 1;
        }
        proof {
            let out = texts(chain@);
            assert forall|a: int, b: int| 0 <= a < out.len() && 0 <= b < out.len() && a
                != b implies out[a] != out[b] by {
                assert(out[a] == chain@[a]@);
                assert(out[b] == chain@[b]@);
                assert(order@[a] != order@[b]);
                assert(ids(g.modules)[order@[a] as int] == out[a]);
                assert(ids(g.modules)[order@[b] as int] == out[b]);
            }
            assert forall|id: Seq<char>| out.contains(id) <==> g.has(id) && g.reaches(st, id) by {
                if out.contains(id) {
                    let q = choose|q: int| 0 <= q < out.len() && out[q] == id;
                    assert(out[q] == chain@[q]@);
                    let i = order@[q] as int;
                    assert(order@.contains(i as usize));
                    assert(marks@[i]);
                    assert(ids(g.modules)[i] == id);
                }
                if g.has(id) && g.reaches(st, id) {
                    lemma_has(g, id);
                    let i = g.index_of(id);
                    assert(marks@[i]);
                    assert(order@.contains(i as usize));
                    let q = choose|q: int| 0 <= q < order@.len() && order@[q] == i as usize;
                    assert(out[q] == chain@[q]@);
                }
            }
            if g.has(module_id@) {
                assert(st[0] == module_id@);
                lemma_has(g, module_id@);
                assert(chain@[0]@ == g.modules[order@[0] as int].id);
            }
        }
        chain
    }
}

impl ModuleGraph {
    /// Whether the graph is well formed: no two modules share an
    /// identifier, and no list names an identifier twice.
    pub fn is_well_formed(&self) -> (b: bool)
        ensures
            b == self@.wf(),
    {
        let ghost g = self@;
        let mut keys: Vec<String> = Vec::new();
        let mut i: usize = 0;
        assert(texts(keys@) =~= ids(g.modules).subrange(0, 0));
        while i < self.modules.len()
            invariant
                i <= self.modules@.len(),
                g == self@,
                texts(keys@) == ids(g.modules).subrange(0, i as int),
                forall|k: int|
                    0 <= k < i ==> (#[trigger] g.modules[k]).dependencies.no_duplicates()
                        && g.modules[k].dependents.no_duplicates(),
            decreases self.modules@.len() - i,
        {
            let m = &self.modules[i];
            assert(g.modules[i as int] == m@);
            if !no_repeats(&m.dependencies) || !no_repeats(&m.dependents) {
                return false;
            }
            let id = m.id.clone();
            proof {
                lemma_texts_push(keys@, id);
                assert(texts(keys@).push(id@) =~= ids(g.modules).subrange(0, i + 1));
            }
            keys.push(id);
            i += 1;
        }
        assert(ids(g.modules).subrange(0, i as int) =~= ids(g.modules));
        no_repeats(&keys) && no_repeats(&self.entry_points)
    }
}

impl Default for ModuleGraph {
    fn default() -> (g: ModuleGraph)
        ensures
            g@ == (GraphView { modules: seq![], entry_points: seq![] }),
    {
        ModuleGraph::new()
    }
}

} // verus!
