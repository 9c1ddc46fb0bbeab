//! The reachability analyser: it recovers the module graph of a bundle from
//! its syntax tree.

use vstd::prelude::*;
use crate::ast::{Node, NodeView};
use crate::bundle::{
    collect_definitions, collect_entries, definition_views, definitions, entry_calls,
    BundleFormat, Definition, DefinitionView, FormatView,
};
use crate::error::WebpackGraphError;
use crate::graph::{ids, node_views, GraphView, ModuleGraph, ModuleNode, ModuleNodeView};
use crate::text::{
    clone_texts, has_text, lemma_position, lemma_position_contains, lemma_texts_push, position,
    texts,
};

verus! {

/// `list` with every repetition of an earlier member left out.
pub open spec fn distinct(list: Seq<Seq<char>>) -> Seq<Seq<char>>
    decreases list.len(),
{
    if list.len() == 0 {
        seq![]
    } else {
        let before = distinct(list.drop_last());
        if before.contains(list.last()) {
            before
        } else {
            before.push(list.last())
        }
    }
}

/// `distinct` keeps the members and holds none twice.
pub proof fn lemma_distinct(list: Seq<Seq<char>>)
    ensures
        distinct(list).no_duplicates(),
        forall|x: Seq<char>| #[trigger] distinct(list).contains(x) ==> list.contains(x),
        forall|x: Seq<char>| #[trigger] list.contains(x) ==> distinct(list).contains(x),
    decreases list.len(),
{
    if list.len() > 0 {
        let front = list.drop_last();
        let last = list.last();
        lemma_distinct(front);
        let d = distinct(list);
        let df = distinct(front);
        assert forall|a: int, b: int| 0 <= a < d.len() && 0 <= b < d.len() && a != b implies d[a]
            != d[b] by {
            if a < df.len() && b < df.len() {
                assert(d[a] == df[a] && d[b] == df[b]);
            } else if a < df.len() {
                assert(df.contains(d[a]));
            } else if b < df.len() {
                assert(df.contains(d[b]));
            }
        }
        assert forall|x: Seq<char>| #[trigger] d.contains(x) implies list.contains(x) by {
            let k = choose|k: int| 0 <= k < d.len() && d[k] == x;
            if k < df.len() {
                assert(df[k] == x);
                assert(df.contains(x));
                assert(front.contains(x));
                let j = choose|j: int| 0 <= j < front.len() && front[j] == x;
                assert(list[j] == x);
            } else {
                assert(list[list.len() - 1] == x);
            }
        }
        assert forall|x: Seq<char>| #[trigger] list.contains(x) implies d.contains(x) by {
            let j = choose|j: int| 0 <= j < list.len() && list[j] == x;
            if j < front.len() {
                assert(front[j] == x);
                assert(front.contains(x));
                assert(df.contains(x));
                let k = choose|k: int| 0 <= k < df.len() && df[k] == x;
                assert(d[k] == x);
            } else if df.contains(x) {
                let k = choose|k: int| 0 <= k < df.len() && df[k] == x;
                assert(d[k] == x);
            } else {
                assert(d[d.len() - 1] == x);
            }
        }
    }
}

/// Leaves out every repetition of an earlier member.
pub fn distinct_texts(list: &Vec<String>) -> (out: Vec<String>)
    ensures
        texts(out@) == distinct(texts(list@)),
{
    let ghost all = texts(list@);
    let mut out: Vec<String> = Vec::new();
    let mut i: usize = 0;
    assert(texts(out@) =~= seq![]);
    assert(all.subrange(0, 0) =~= seq![]);
    while i < list.len()
        invariant
            i <= list@.len(),
            all == texts(list@),
            texts(out@) == distinct(all.subrange(0, i as int)),
        decreases list@.len() - i,
    {
        let ghost prefix = all.subrange(0, i + 1);
        assert(prefix.drop_last() =~= all.subrange(0, i as int));
        assert(prefix.last() == list@[i as int]@);
        if !has_text(&out, &list[i]) {
            let item = list[i].clone();
            proof {
                lemma_texts_push(out@, item);
            }
            out.push(item);
        }
        i += 1;
    }
    assert(all.subrange(0, i as int) =~= all);
    out
}

/// The calls `__webpack_require__(id)` for the modules of `loads`, joined
/// by `; `.
pub open spec fn load_calls(loads: Seq<Seq<char>>) -> Seq<char>
    decreases loads.len(),
{
    if loads.len() == 0 {
        seq![]
    } else {
        let call = "__webpack_require__("@ + loads.last() + ")"@;
        if loads.len() == 1 {
            call
        } else {
            load_calls(loads.drop_last()) + "; "@ + call
        }
    }
}

/// The source text recorded for a module: a function whose body loads the
/// module's dependencies.
pub open spec fn summary(loads: Seq<Seq<char>>) -> Seq<char> {
    "function() { "@ + load_calls(loads) + " }"@
}

/// Writes the source text recorded for a module.
pub fn summary_text(loads: &Vec<String>) -> (out: String)
    ensures
        out@ == summary(texts(loads@)),
{
    let ghost all = texts(loads@);
    let mut out = "function() { ".to_owned();
    let mut i: usize = 0;
    assert(all.subrange(0, 0) =~= seq![]);
    assert(out@ + seq![] =~= out@);
    while i < loads.len()
        invariant
            i <= loads@.len(),
            all == texts(loads@),
            out@ == "function() { "@ + load_calls(all.subrange(0, i as int)),
        decreases loads@.len() - i,
    {
        let ghost prefix = all.subrange(0, i + 1);
        let ghost head = "function() { "@;
        let ghost done = load_calls(all.subrange(0, i as int));
        let ghost call = "__webpack_require__("@ + loads@[i as int]@ + ")"@;
        proof {
            assert(prefix.drop_last() =~= all.subrange(0, i as int));
            assert(prefix.last() == loads@[i as int]@);
        }
        if i > 0 {
            out.append("; ");
        }
        out.append("__webpack_require__(");
        out.append(loads[i].as_str());
        out.append(")");
        proof {
            if i > 0 {
                assert(out@ =~= head + (done + "; "@ + call));
            } else {
                assert(done =~= seq![]);
                assert(out@ =~= head + call);
            }
        }
        i += 1;
    }
    assert(all.subrange(0, i as int) =~= all);
    out.append(" }");
    out
}

/// The module that a definition gives rise to: it depends on the modules
/// that its body loads, each named once, and has no dependents yet.
pub open spec fn node_of(def: DefinitionView) -> ModuleNodeView {
    ModuleNodeView {
        id: def.id,
        source: summary(distinct(def.loads)),
        dependencies: distinct(def.loads),
        dependents: seq![],
    }
}

/// The modules that a list of definitions gives rise to, in order. A later
/// definition of an identifier takes the place of the earlier one.
pub open spec fn nodes_of(defs: Seq<DefinitionView>) -> Seq<ModuleNodeView>
    decreases defs.len(),
{
    if defs.len() == 0 {
        seq![]
    } else {
        let before = nodes_of(defs.drop_last());
        let node = node_of(defs.last());
        let at = position(ids(before), node.id, 0);
        if at < before.len() {
            before.update(at, node)
        } else {
            before.push(node)
        }
    }
}

/// The identifiers of the first `n` modules that depend on `id`, in order.
pub open spec fn dependents_upto(modules: Seq<ModuleNodeView>, id: Seq<char>, n: int) -> Seq<
    Seq<char>,
>
    decreases n,
{
    if n <= 0 || n > modules.len() {
        seq![]
    } else if modules[n - 1].dependencies.contains(id) {
        dependents_upto(modules, id, n - 1).push(modules[n - 1].id)
    } else {
        dependents_upto(modules, id, n - 1)
    }
}

/// The modules with their dependents filled in: each module lists the
/// modules that depend on it.
pub open spec fn linked(modules: Seq<ModuleNodeView>) -> Seq<ModuleNodeView> {
    Seq::new(
        modules.len(),
        |i: int|
            ModuleNodeView {
                dependents: dependents_upto(modules, modules[i].id, modules.len() as int),
                ..modules[i]
            },
    )
}

/// The entry points among the load calls found outside the modules tables:
/// those that name a module of the graph, each once, in order.
pub open spec fn known_entries(calls: Seq<Seq<char>>, keys: Seq<Seq<char>>) -> Seq<Seq<char>>
    decreases calls.len(),
{
    if calls.len() == 0 {
        seq![]
    } else {
        let before = known_entries(calls.drop_last(), keys);
        if keys.contains(calls.last()) && !before.contains(calls.last()) {
            before.push(calls.last())
        } else {
            before
        }
    }
}

/// The module graph of a unit: the modules defined in its modules tables,
/// the edges that the load calls in their bodies make, recorded at both
/// ends, and as entry points the modules loaded outside the tables.
pub open spec fn bundle_graph(program: NodeView, fmt: FormatView) -> GraphView {
    let base = nodes_of(definitions(program, fmt));
    GraphView {
        modules: linked(base),
        entry_points: known_entries(entry_calls(program, fmt), ids(base)),
    }
}

/// The modules of a list of definitions have distinct identifiers, name no
/// dependency twice, and have no dependents.
pub proof fn lemma_nodes_of(defs: Seq<DefinitionView>)
    ensures
        ids(nodes_of(defs)).no_duplicates(),
        forall|i: int|
            0 <= i < nodes_of(defs).len() ==> (#[trigger] nodes_of(defs)[i]).dependencies.no_duplicates()
                && nodes_of(defs)[i].dependents.len() == 0,
    decreases defs.len(),
{
    if defs.len() > 0 {
        lemma_nodes_of(defs.drop_last());
        let before = nodes_of(defs.drop_last());
        let node = node_of(defs.last());
        let keys = ids(before);
        let at = position(keys, node.id, 0);
        lemma_position(keys, node.id, 0);
        lemma_distinct(defs.last().loads);
        let now = nodes_of(defs);
        let now_keys = ids(now);
        if at < before.len() {
            assert(now_keys =~= keys);
        } else {
            assert(now_keys =~= keys.push(node.id));
            assert forall|a: int, b: int|
                0 <= a < now_keys.len() && 0 <= b < now_keys.len() && a != b implies now_keys[a]
                != now_keys[b] by {
                if a < keys.len() && b < keys.len() {
                    assert(now_keys[a] == keys[a] && now_keys[b] == keys[b]);
                }
            }
        }
        assert forall|i: int| 0 <= i < now.len() implies (#[trigger] now[i]).dependencies.no_duplicates()
            && now[i].dependents.len() == 0 by {
            if i < before.len() && i != at {
                assert(now[i] == before[i]);
            }
        }
    }
}

/// The dependents listed for `id` are the modules that depend on it.
pub proof fn lemma_dependents_upto(modules: Seq<ModuleNodeView>, id: Seq<char>, n: int)
    requires
        0 <= n <= modules.len(),
        ids(modules).no_duplicates(),
    ensures
        forall|x: Seq<char>| #[trigger]
            dependents_upto(modules, id, n).contains(x) <==> exists|i: int|
                0 <= i < n && (#[trigger] modules[i]).id == x && modules[i].dependencies.contains(
                    id,
                ),
        dependents_upto(modules, id, n).no_duplicates(),
    decreases n,
{
    if n > 0 {
        lemma_dependents_upto(modules, id, n - 1);
        let now = dependents_upto(modules, id, n);
        let before = dependents_upto(modules, id, n - 1);
        assert forall|x: Seq<char>| #[trigger]
            now.contains(x) <==> exists|i: int|
                0 <= i < n && (#[trigger] modules[i]).id == x && modules[i].dependencies.contains(
                    id,
                ) by {
            if now.contains(x) {
                let k = choose|k: int| 0 <= k < now.len() && now[k] == x;
                if k < before.len() {
                    assert(before[k] == x);
                    assert(before.contains(x));
                    let i = choose|i: int|
                        0 <= i < n - 1 && (#[trigger] modules[i]).id == x
                            && modules[i].dependencies.contains(id);
                    assert(modules[i].id == x);
                } else {
                    assert(modules[n - 1].id == x);
                }
            }
            if exists|i: int|
                0 <= i < n && (#[trigger] modules[i]).id == x && modules[i].dependencies.contains(
                    id,
                ) {
                let i = choose|i: int|
                    0 <= i < n && (#[trigger] modules[i]).id == x
                        && modules[i].dependencies.contains(id);
                if i < n - 1 {
                    assert(before.contains(x));
                    let k = choose|k: int| 0 <= k < before.len() && before[k] == x;
                    assert(now[k] == x);
                } else {
                    assert(now[now.len() - 1] == x);
                }
            }
        }
        if modules[n - 1].dependencies.contains(id) {
            assert(!before.contains(modules[n - 1].id)) by {
                if before.contains(modules[n - 1].id) {
                    let i = choose|i: int|
                        0 <= i < n - 1 && (#[trigger] modules[i]).id == modules[n - 1].id
                            && modules[i].dependencies.contains(id);
                    assert(ids(modules)[i] == ids(modules)[n - 1]);
                }
            }
            assert forall|a: int, b: int| 0 <= a < now.len() && 0 <= b < now.len() && a
                != b implies now[a] != now[b] by {
                if a < before.len() && b < before.len() {
                    assert(now[a] == before[a] && now[b] == before[b]);
                } else if a < before.len() {
                    assert(before.contains(now[a]));
                } else if b < before.len() {
                    assert(before.contains(now[b]));
                }
            }
        }
    }
}

/// The entry points are modules of the graph, each named once.
pub proof fn lemma_known_entries(calls: Seq<Seq<char>>, keys: Seq<Seq<char>>)
    ensures
        known_entries(calls, keys).no_duplicates(),
        forall|k: int|
            0 <= k < known_entries(calls, keys).len() ==> keys.contains(
                #[trigger] known_entries(calls, keys)[k],
            ),
    decreases calls.len(),
{
    if calls.len() > 0 {
        lemma_known_entries(calls.drop_last(), keys);
        let before = known_entries(calls.drop_last(), keys);
        let now = known_entries(calls, keys);
        assert forall|a: int, b: int| 0 <= a < now.len() && 0 <= b < now.len() && a
            != b implies now[a] != now[b] by {
            if a < before.len() && b < before.len() {
                assert(now[a] == before[a] && now[b] == before[b]);
            } else if a < before.len() {
                assert(before.contains(now[a]));
            } else if b < before.len() {
                assert(before.contains(now[b]));
            }
        }
        assert forall|k: int| 0 <= k < now.len() implies keys.contains(#[trigger] now[k]) by {
            if k < before.len() {
                assert(now[k] == before[k]);
            }
        }
    }
}

/// The module graph of a unit is well formed, every edge between two of its
/// modules is recorded at both ends, no module lists a dependent that is
/// not a module, and the entry points are modules of the graph.
pub proof fn lemma_bundle_graph(program: NodeView, fmt: FormatView)
    ensures
        bundle_graph(program, fmt).wf(),
        bundle_graph(program, fmt).consistent(),
        bundle_graph(program, fmt).dependents_known(),
        bundle_graph(program, fmt).entries_known(),
{
    let g = bundle_graph(program, fmt);
    let base = nodes_of(definitions(program, fmt));
    lemma_nodes_of(definitions(program, fmt));
    lemma_known_entries(entry_calls(program, fmt), ids(base));
    assert(ids(g.modules) =~= ids(base));
    assert forall|i: int| 0 <= i < g.modules.len() implies (#[trigger] g.modules[i]).dependencies.no_duplicates()
        && g.modules[i].dependents.no_duplicates() by {
        lemma_dependents_upto(base, base[i].id, base.len() as int);
        assert(base[i].dependencies.no_duplicates());
    }
    assert forall|i: int, k: int|
        0 <= i < g.modules.len() && 0 <= k < g.modules[i].dependents.len() implies g.has(
        #[trigger] g.modules[i].dependents[k],
    ) by {
        lemma_dependents_upto(base, base[i].id, base.len() as int);
        let d = g.modules[i].dependents[k];
        assert(g.modules[i].dependents.contains(d));
        let m = choose|m: int|
            0 <= m < base.len() && (#[trigger] base[m]).id == d && base[m].dependencies.contains(
                base[i].id,
            );
        assert(ids(base)[m] == d);
    }
    assert forall|i: int, j: int|
        0 <= i < g.modules.len() && 0 <= j < g.modules.len() implies ((
        #[trigger] g.modules[i]).dependencies.contains((#[trigger] g.modules[j]).id)
        <==> g.modules[j].dependents.contains(g.modules[i].id)) by {
        lemma_dependents_upto(base, base[j].id, base.len() as int);
        if g.modules[j].dependents.contains(g.modules[i].id) {
            let k = choose|k: int|
                0 <= k < base.len() && (#[trigger] base[k]).id == base[i].id
                    && base[k].dependencies.contains(base[j].id);
            assert(ids(base)[k] == ids(base)[i]);
        }
        if g.modules[i].dependencies.contains(g.modules[j].id) {
            assert(base[i].id == g.modules[i].id && base[i].dependencies.contains(base[j].id));
        }
    }
}

/// Builds the modules that a list of definitions gives rise to.
fn build_nodes(defs: &Vec<Definition>) -> (g: ModuleGraph)
    ensures
        g@.modules == nodes_of(definition_views(defs@)),
        g@.entry_points.len() == 0,
{
    let ghost all = definition_views(defs@);
    let mut g = ModuleGraph::new();
    let mut i: usize = 0;
    assert(all.subrange(0, 0) =~= seq![]);
    while i < defs.len()
        invariant
            i <= defs@.len(),
            all == definition_views(defs@),
            g@.modules == nodes_of(all.subrange(0, i as int)),
            g@.entry_points.len() == 0,
        decreases defs@.len() - i,
    {
        let ghost prefix = all.subrange(0, i + 1);
        proof {
            assert(prefix.drop_last() =~= all.subrange(0, i as int));
            assert(prefix.last() == defs@[i as int]@);
            lemma_position_contains(ids(g@.modules), defs@[i as int]@.id);
        }
        let dependencies = distinct_texts(&defs[i].loads);
        let source = summary_text(&dependencies);
        let node = ModuleNode {
            id: defs[i].id.clone(),
            source,
            dependencies,
            dependents: Vec::new(),
        };
        assert(node@.dependents =~= seq![]);
        assert(node@ == node_of(defs@[i as int]@));
        g.add_module(node);
        i += 1;
    }
    assert(all.subrange(0, i as int) =~= all);
    g
}

/// Fills in the dependents of every module.
fn link(g: &mut ModuleGraph)
    ensures
        final(g)@.modules == linked(old(g)@.modules),
        final(g)@.entry_points == old(g)@.entry_points,
{
    let ghost base = g@.modules;
    let n = g.modules.len();
    let mut all: Vec<Vec<String>> = Vec::new();
    let mut j: usize = 0;
    while j < n
        invariant
            j <= n,
            n == g.modules@.len(),
            base == g@.modules,
            *g == *old(g),
            all@.len() == j,
            forall|q: int|
                0 <= q < j ==> texts((#[trigger] all@[q])@) == dependents_upto(
                    base,
                    base[q].id,
                    n as int,
                ),
        decreases n - j,
    {
        let mut found: Vec<String> = Vec::new();
        let mut i: usize = 0;
        assert(texts(found@) =~= seq![]);
        while i < n
            invariant
                i <= n,
                j < n,
                n == g.modules@.len(),
                base == g@.modules,
                texts(found@) == dependents_upto(base, base[j as int].id, i as int),
            decreases n - i,
        {
            if has_text(&g.modules[i].dependencies, &g.modules[j].id) {
                let id = g.modules[i].id.clone();
                proof {
                    lemma_texts_push(found@, id);
                }
                found.push(id);
            }
            i += 1;
        }
        all.push(found);
        j += 1;
    }
    let mut k: usize = 0;
    while k < n
        invariant
            k <= n,
            n == g.modules@.len(),
            n == base.len(),
            all@.len() == n,
            g.entry_points == old(g).entry_points,
            forall|q: int|
                0 <= q < n ==> texts((#[trigger] all@[q])@) == dependents_upto(
                    base,
                    base[q].id,
                    n as int,
                ),
            forall|q: int| 0 <= q < k ==> (#[trigger] g.modules@[q])@ == linked(base)[q],
            forall|q: int| k <= q < n ==> (#[trigger] g.modules@[q])@ == base[q],
        decreases n - k,
    {
        let dependents = clone_texts(&all[k]);
        g.modules[k].dependents = dependents;
        k += 1;
    }
    assert(node_views(g.modules@) =~= linked(base));
}

/// Recovers the module graph of a unit.
pub fn analyze(program: &Node, fmt: &BundleFormat) -> (g: ModuleGraph)
    ensures
        g@ == bundle_graph(program@, fmt@),
        g@.wf(),
        g@.consistent(),
        g@.dependents_known(),
        g@.entries_known(),
{
    let mut defs: Vec<Definition> = Vec::new();
    assert(definition_views(defs@) =~= seq![]);
    collect_definitions(program, fmt, &mut defs);
    assert(seq![] + definitions(program@, fmt@) =~= definitions(program@, fmt@));
    let mut calls: Vec<String> = Vec::new();
    assert(texts(calls@) =~= seq![]);
    collect_entries(program, fmt, &mut calls);
    assert(seq![] + entry_calls(program@, fmt@) =~= entry_calls(program@, fmt@));
    let mut g = build_nodes(&defs);
    let ghost base = g@.modules;
    link(&mut g);
    assert(ids(g@.modules) =~= ids(base));
    let ghost all = texts(calls@);
    let mut i: usize = 0;
    assert(all.subrange(0, 0) =~= seq![]);
    assert(g@.entry_points =~= seq![]);
    while i < calls.len()
        invariant
            i <= calls@.len(),
            all == texts(calls@),
            g@.modules == linked(base),
            ids(g@.modules) == ids(base),
            g@.entry_points == known_entries(all.subrange(0, i as int), ids(base)),
        decreases calls@.len() - i,
    {
        let ghost prefix = all.subrange(0, i + 1);
        proof {
            assert(prefix.drop_last() =~= all.subrange(0, i as int));
            assert(prefix.last() == calls@[i as int]@);
        }
        if g.index_of(&calls[i]).is_some() {
            g.add_entry_point(calls[i].clone());
        }
        i += 1;
    }
    proof {
        assert(all.subrange(0, i as int) =~= all);
        lemma_bundle_graph(program@, fmt@);
    }
    g
}

/// A reader of bundles.
#[derive(Debug)]
pub struct WebpackBundleParser {
    pub format: BundleFormat,
}

impl WebpackBundleParser {
    /// A reader for bundles with the standard names.
    pub fn new() -> (r: Result<WebpackBundleParser, WebpackGraphError>)
        ensures
            r matches Ok(p) && p.format@ == BundleFormat::standard(),
    {
        Ok(WebpackBundleParser { format: BundleFormat::webpack() })
    }

    /// Recovers the module graph of a unit. A unit that is no bundle is no
    /// failure: it has the empty graph, and a bundle that loads no module
    /// from outside its modules table has a graph without entry points.
    pub fn parse_bundle(&self, program: &Node) -> (r: Result<ModuleGraph, WebpackGraphError>)
        ensures
            r matches Ok(g) && g@ == bundle_graph(program@, self.format@) && g@.wf()
                && g@.consistent() && g@.dependents_known() && g@.entries_known(),
    {
        Ok(analyze(program, &self.format))
    }
}

impl Default for WebpackBundleParser {
    fn default() -> (p: WebpackBundleParser)
        ensures
            p.format@ == BundleFormat::standard(),
    {
        WebpackBundleParser { format: BundleFormat::webpack() }
    }
}

} // verus!
