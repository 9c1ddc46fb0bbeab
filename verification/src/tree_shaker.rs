//! Pruning of the module graph: taking single modules out, and shaking off
//! every module that no entry point reaches.

use vstd::prelude::*;
use crate::graph::{ids, lemma_has, node_views, GraphView, ModuleGraph, ModuleNodeView};
use crate::text::{
    has_text, lemma_position_contains, lemma_without, texts, without,
    without_text,
};

verus! {

impl ModuleNodeView {
    /// This module after `removed` has left the graph: if `removed` listed
    /// it as a dependency, it no longer lists `removed` as a dependent, and
    /// if `removed` listed it as a dependent, it no longer lists `removed`
    /// as a dependency.
    pub open spec fn detached(self, removed: ModuleNodeView) -> ModuleNodeView {
        ModuleNodeView {
            dependents: if removed.dependencies.contains(self.id) {
                without(self.dependents, removed.id)
            } else {
                self.dependents
            },
            dependencies: if removed.dependents.contains(self.id) {
                without(self.dependencies, removed.id)
            } else {
                self.dependencies
            },
            ..self
        }
    }
}

impl GraphView {
    /// The graph without the module `id`: the module leaves the list of
    /// modules and the entry points, and its neighbours are detached from
    /// it. A graph that has no such module stays as it is.
    pub open spec fn without_module(self, id: Seq<char>) -> GraphView {
        if self.has(id) {
            let i = self.index_of(id);
            let removed = self.modules[i];
            let rest = self.modules.remove(i);
            GraphView {
                modules: Seq::new(rest.len(), |k: int| rest[k].detached(removed)),
                entry_points: without(self.entry_points, id),
            }
        } else {
            self
        }
    }

    /// The graph without the modules named by `gone`, taken out one after
    /// the other.
    pub open spec fn without_all(self, gone: Seq<Seq<char>>) -> GraphView
        decreases gone.len(),
    {
        if gone.len() == 0 {
            self
        } else {
            self.without_all(gone.drop_last()).without_module(gone.last())
        }
    }
}

/// A pruner that works on a module graph in place.
pub struct TreeShaker<'a> {
    pub graph: &'a mut ModuleGraph,
}

impl<'a> TreeShaker<'a> {
/// A pruner for `graph`.
    pub fn new(graph: &'a mut ModuleGraph) -> (s: Self)
        ensures
            *s.graph == *old(graph),
            *final(s.graph) == *final(graph),
    {
        TreeShaker { graph }
    }

    /// Takes the module `module_id` out of the graph. Says whether there was
    /// such a module.
    pub fn remove_module(&mut self, module_id: &str) -> (found: bool)
        ensures
            found == old(self).graph@.has(module_id@),
            final(self).graph@ == old(self).graph@.without_module(module_id@),
            *final(final(self).graph) == *final(old(self).graph),
    {
        let id = module_id.to_owned();
        let ghost before = self.graph@;
        proof {
            lemma_position_contains(ids(before.modules), module_id@);
        }
        match self.graph.index_of(&id) {
            None => false,
            Some(i) => {
                let removed = self.graph.modules.remove(i);
                let ghost rest = before.modules.remove(i as int);
                assert(node_views(self.graph.modules@) =~= rest);
                let n = self.graph.modules.len();
                let mut k: usize = 0;
                while k < n
                    invariant
                        k <= n,
                        n == self.graph.modules@.len(),
                        n == rest.len(),
                        id@ == module_id@,
                        removed@ == before.modules[i as int],
                        removed@.id == module_id@,
                        self.graph.entry_points == old(self).graph.entry_points,
                        *final(self.graph) == *final(old(self).graph),
                        forall|q: int|
                            0 <= q < k ==> (#[trigger] self.graph.modules@[q])@ == rest[q].detached(
                                removed@,
                            ),
                        forall|q: int|
                            k <= q < n ==> (#[trigger] self.graph.modules@[q])@ == rest[q],
                    decreases n - k,
                {
                    let listed_as_dependency = has_text(
                        &removed.dependencies,
                        &self.graph.modules[k].id,
                    );
                    let listed_as_dependent = has_text(
                        &removed.dependents,
                        &self.graph.modules[k].id,
                    );
                    if listed_as_dependency {
                        let kept = without_text(&self.graph.modules[k].dependents, &id);
                        self.graph.modules[k].dependents = kept;
                    }
                    if listed_as_dependent {
                        let kept = without_text(&self.graph.modules[k].dependencies, &id);
                        self.graph.modules[k].dependencies = kept;
                    }
                    k += 1;
                }
                let entries = without_text(&self.graph.entry_points, &id);
                self.graph.entry_points = entries;
                assert(node_views(self.graph.modules@) =~= before.without_module(
                    module_id@,
                ).modules);
                true
            },
        }
    }
}

impl<'a> TreeShaker<'a> {
    /// Takes out every module that no entry point reaches. Gives the
    /// identifiers of the modules taken out, in the order of the graph.
    pub fn shake(&mut self) -> (gone: Vec<String>)
        requires
            old(self).graph@.wf(),
        ensures
            texts(gone@) == old(self).graph@.unreachable_ids(),
            final(self).graph@ == old(self).graph@.without_all(texts(gone@)),
            *final(final(self).graph) == *final(old(self).graph),
    {
        let gone = self.graph.get_unreachable_modules();
        let ghost before = self.graph@;
        let ghost all = texts(gone@);
        let mut k: usize = 0;
        assert(all.subrange(0, 0) =~= seq![]);
        while k < gone.len()
            invariant
                k <= gone@.len(),
                all == texts(gone@),
                self.graph@ == before.without_all(all.subrange(0, k as int)),
                *final(self.graph) == *final(old(self).graph),
            decreases gone@.len() - k,
        {
            let ghost prefix = all.subrange(0, k + 1);
            assert(prefix.drop_last() =~= all.subrange(0, k as int));
            assert(prefix.last() == gone@[k as int]@);
            self.remove_module(gone[k].as_str());
            k += 1;
        }
        assert(all.subrange(0, k as int) =~= all);
        gone
    }
}

/// The identifiers of the modules that stay when one is taken out.
pub proof fn lemma_without_module_ids(g: GraphView, id: Seq<char>)
    requires
        g.has(id),
    ensures
        ids(g.without_module(id).modules) == ids(g.modules).remove(g.index_of(id)),
        0 <= g.index_of(id) < g.modules.len(),
{
    lemma_has(g, id);
    assert(ids(g.without_module(id).modules) =~= ids(g.modules).remove(g.index_of(id)));
}

/// Taking a module out of a well-formed graph leaves a well-formed graph
/// with the same modules but that one.
pub proof fn lemma_without_module(g: GraphView, id: Seq<char>)
    requires
        g.wf(),
    ensures
        g.without_module(id).wf(),
        forall|x: Seq<char>| #[trigger] g.without_module(id).has(x) <==> g.has(x) && x != id,
        g.consistent() ==> g.without_module(id).consistent(),
{
    let h = g.without_module(id);
    if g.has(id) {
        lemma_without_module_ids(g, id);
        let i = g.index_of(id);
        let keys = ids(g.modules);
        let rest = keys.remove(i);
        let removed = g.modules[i];
        lemma_has(g, id);
        assert(keys[i] == g.modules[i].id);
        assert forall|a: int, b: int| 0 <= a < rest.len() && 0 <= b < rest.len() && a
            != b implies rest[a] != rest[b] by {
            let a0 = if a < i { a } else { a + 1 };
            let b0 = if b < i { b } else { b + 1 };
            assert(rest[a] == keys[a0]);
            assert(rest[b] == keys[b0]);
        }
        assert forall|x: Seq<char>| #[trigger] h.has(x) <==> g.has(x) && x != id by {
            if h.has(x) {
                let a = choose|a: int| 0 <= a < rest.len() && rest[a] == x;
                let a0 = if a < i { a } else { a + 1 };
                assert(keys[a0] == x);
            }
            if g.has(x) && x != id {
                let a0 = choose|a0: int| 0 <= a0 < keys.len() && keys[a0] == x;
                let a = if a0 < i { a0 } else { a0 - 1 };
                assert(rest[a] == x);
            }
        }
        lemma_without(g.entry_points, id);
        assert forall|k: int| 0 <= k < h.modules.len() implies (#[trigger] h.modules[k]).dependencies.no_duplicates()
            && h.modules[k].dependents.no_duplicates() by {
            let k0 = if k < i { k } else { k + 1 };
            assert(h.modules[k] == g.modules[k0].detached(removed));
            assert(g.modules[k0].dependencies.no_duplicates());
            lemma_without(g.modules[k0].dependencies, id);
            lemma_without(g.modules[k0].dependents, id);
        }
        if g.consistent() {
            assert forall|a: int, b: int|
                0 <= a < h.modules.len() && 0 <= b < h.modules.len() implies ((
                #[trigger] h.modules[a]).dependencies.contains((#[trigger] h.modules[b]).id)
                <==> h.modules[b].dependents.contains(h.modules[a].id)) by {
                let a0 = if a < i { a } else { a + 1 };
                let b0 = if b < i { b } else { b + 1 };
                assert(h.modules[a] == g.modules[a0].detached(removed));
                assert(h.modules[b] == g.modules[b0].detached(removed));
                lemma_without(g.modules[a0].dependencies, id);
                lemma_without(g.modules[b0].dependents, id);
                assert(keys[a0] == g.modules[a0].id);
                assert(keys[b0] == g.modules[b0].id);
                assert(g.modules[a0].dependencies.contains(g.modules[b0].id)
                    <==> g.modules[b0].dependents.contains(g.modules[a0].id));
            }
        }
    }
}

/// Taking modules out one after the other leaves a well-formed graph whose
/// modules are those that were not named.
pub proof fn lemma_without_all(g: GraphView, gone: Seq<Seq<char>>)
    requires
        g.wf(),
    ensures
        g.without_all(gone).wf(),
        forall|x: Seq<char>| #[trigger] g.without_all(gone).has(x) <==> g.has(x) && !gone.contains(x),
        g.consistent() ==> g.without_all(gone).consistent(),
    decreases gone.len(),
{
    if gone.len() > 0 {
        let front = gone.drop_last();
        let h = g.without_all(front);
        lemma_without_all(g, front);
        lemma_without_module(h, gone.last());
        assert forall|x: Seq<char>| #[trigger] g.without_all(gone).has(x) <==> g.has(x)
            && !gone.contains(x) by {
            assert(h.has(x) <==> g.has(x) && !front.contains(x));
            if gone.contains(x) {
                let k = choose|k: int| 0 <= k < gone.len() && gone[k] == x;
                if k < front.len() {
                    assert(front[k] == x);
                }
            }
            if front.contains(x) {
                let k = choose|k: int| 0 <= k < front.len() && front[k] == x;
                assert(gone[k] == x);
            }
            if x == gone.last() {
                assert(gone[gone.len() - 1] == x);
            }
        }
    }
}

/// The unreachable modules of a graph are its modules that no entry point
/// reaches.
pub proof fn lemma_unreachable_ids(g: GraphView, n: int)
    requires
        0 <= n <= g.modules.len(),
    ensures
        forall|x: Seq<char>| #[trigger]
            g.unreachable_upto(n).contains(x) <==> exists|i: int|
                0 <= i < n && (#[trigger] g.modules[i]).id == x && !g.reachable(x),
    decreases n,
{
    if n > 0 {
        lemma_unreachable_ids(g, n - 1);
        let now = g.unreachable_upto(n);
        let before = g.unreachable_upto(n - 1);
        let last = g.modules[n - 1].id;
        assert forall|x: Seq<char>| #[trigger]
            now.contains(x) <==> exists|i: int|
                0 <= i < n && (#[trigger] g.modules[i]).id == x && !g.reachable(x) by {
            if now.contains(x) {
                let k = choose|k: int| 0 <= k < now.len() && now[k] == x;
                if k < before.len() {
                    assert(before[k] == x);
                    assert(before.contains(x));
                    let i = choose|i: int|
                        0 <= i < n - 1 && (#[trigger] g.modules[i]).id == x && !g.reachable(x);
                    assert(g.modules[i].id == x);
                } else {
                    assert(g.modules[n - 1].id == x);
                }
            }
            if exists|i: int| 0 <= i < n && (#[trigger] g.modules[i]).id == x && !g.reachable(x) {
                let i = choose|i: int|
                    0 <= i < n && (#[trigger] g.modules[i]).id == x && !g.reachable(x);
                if i < n - 1 {
                    assert(before.contains(x));
                    let k = choose|k: int| 0 <= k < before.len() && before[k] == x;
                    assert(now[k] == x);
                } else {
                    assert(now[now.len() - 1] == x);
                }
            }
        }
    }
}

/// A reachable module is a module of the graph.
pub proof fn lemma_reachable_has(g: GraphView, starts: Seq<Seq<char>>, id: Seq<char>)
    requires
        g.reaches(starts, id),
    ensures
        g.has(id),
{
    let p = choose|p: Seq<Seq<char>>| #[trigger]
        g.is_path(p) && starts.contains(p[0]) && p.last() == id;
    assert(g.has(p[p.len() - 1]));
}

/// After shaking, the modules that remain are exactly the modules that
/// were reachable before.
pub proof fn lemma_shake_leaves_reachable(g: GraphView)
    requires
        g.wf(),
    ensures
        forall|x: Seq<char>| #[trigger]
            g.without_all(g.unreachable_ids()).has(x) <==> g.reachable(x),
        g.without_all(g.unreachable_ids()).wf(),
        g.consistent() ==> g.without_all(g.unreachable_ids()).consistent(),
{
    let gone = g.unreachable_ids();
    lemma_without_all(g, gone);
    lemma_unreachable_ids(g, g.modules.len() as int);
    assert forall|x: Seq<char>| #[trigger] g.without_all(gone).has(x) <==> g.reachable(x) by {
        if g.reachable(x) {
            lemma_reachable_has(g, g.entry_points, x);
        }
        if g.has(x) && !gone.contains(x) {
            lemma_has(g, x);
            let i = g.index_of(x);
            assert(g.modules[i].id == x);
        }
    }
}

/// A walk that avoids a module is still a walk when that module is taken
/// out, and an entry point other than that module is still an entry point.
pub proof fn lemma_walk_survives(g: GraphView, gone: Seq<char>, p: Seq<Seq<char>>)
    requires
        g.wf(),
        g.is_path(p),
        !p.contains(gone),
    ensures
        g.without_module(gone).is_path(p),
        g.entry_points.contains(p[0]) ==> g.without_module(gone).entry_points.contains(p[0]),
{
    let h = g.without_module(gone);
    lemma_without_module(g, gone);
    lemma_without(g.entry_points, gone);
    assert(p[0] != gone) by {
        if p[0] == gone {
            assert(p.contains(gone));
        }
    }
    assert forall|k: int| 0 <= k < p.len() implies h.has(#[trigger] p[k]) by {
        assert(g.has(p[k]));
        if p[k] == gone {
            assert(p.contains(gone));
        }
    }
    if g.has(gone) {
        let i = g.index_of(gone);
        lemma_has(g, gone);
        let removed = g.modules[i];
        assert forall|k: int| 0 <= k < p.len() - 1 implies h.edge(#[trigger] p[k], p[k + 1]) by {
            assert(g.edge(p[k], p[k + 1]));
            let m = choose|m: int|
                0 <= m < g.modules.len() && (#[trigger] g.modules[m]).id == p[k]
                    && g.modules[m].dependencies.contains(p[k + 1]);
            if p[k] == gone || p[k + 1] == gone {
                assert(p.contains(gone));
            }
            assert(m != i);
            let m1 = if m < i { m } else { m - 1 };
            assert(h.modules[m1] == g.modules[m].detached(removed));
            lemma_without(g.modules[m].dependencies, gone);
            assert(h.modules[m1].dependencies.contains(p[k + 1]));
        }
    }
}

/// A walk that avoids all the modules taken out survives.
pub proof fn lemma_walk_survives_all(g: GraphView, gone: Seq<Seq<char>>, p: Seq<Seq<char>>)
    requires
        g.wf(),
        g.is_path(p),
        forall|k: int| 0 <= k < p.len() ==> !gone.contains(#[trigger] p[k]),
    ensures
        g.without_all(gone).is_path(p),
        g.entry_points.contains(p[0]) ==> g.without_all(gone).entry_points.contains(p[0]),
    decreases gone.len(),
{
    if gone.len() > 0 {
        let front = gone.drop_last();
        assert forall|k: int| 0 <= k < p.len() implies !front.contains(#[trigger] p[k]) by {
            if front.contains(p[k]) {
                let j = choose|j: int| 0 <= j < front.len() && front[j] == p[k];
                assert(gone[j] == p[k]);
            }
        }
        lemma_walk_survives_all(g, front, p);
        lemma_without_all(g, front);
        assert(!p.contains(gone.last())) by {
            if p.contains(gone.last()) {
                let k = choose|k: int| 0 <= k < p.len() && p[k] == gone.last();
                assert(gone[gone.len() - 1] == p[k]);
                assert(gone.contains(p[k]));
            }
        }
        lemma_walk_survives(g.without_all(front), gone.last(), p);
    }
}

/// Every module on a walk from an entry point is reachable.
pub proof fn lemma_walk_is_reachable(g: GraphView, p: Seq<Seq<char>>, k: int)
    requires
        g.is_path(p),
        g.entry_points.contains(p[0]),
        0 <= k < p.len(),
    ensures
        g.reachable(p[k]),
{
    let q = p.subrange(0, k + 1);
    assert forall|j: int| 0 <= j < q.len() implies g.has(#[trigger] q[j]) by {
        assert(q[j] == p[j]);
    }
    assert forall|j: int| 0 <= j < q.len() - 1 implies g.edge(#[trigger] q[j], q[j + 1]) by {
        assert(q[j] == p[j]);
        assert(q[j + 1] == p[j + 1]);
    }
    assert(g.is_path(q));
    assert(q[0] == p[0]);
    assert(q.last() == p[k]);
}

/// After shaking, every module that remains is reachable from an entry
/// point of the shaken graph.
pub proof fn lemma_shake_keeps_reachability(g: GraphView, id: Seq<char>)
    requires
        g.wf(),
        g.without_all(g.unreachable_ids()).has(id),
    ensures
        g.without_all(g.unreachable_ids()).reachable(id),
{
    let gone = g.unreachable_ids();
    let h = g.without_all(gone);
    lemma_shake_leaves_reachable(g);
    assert(g.reachable(id));
    let p = choose|p: Seq<Seq<char>>| #[trigger]
        g.is_path(p) && g.entry_points.contains(p[0]) && p.last() == id;
    lemma_unreachable_ids(g, g.modules.len() as int);
    assert forall|k: int| 0 <= k < p.len() implies !gone.contains(#[trigger] p[k]) by {
        lemma_walk_is_reachable(g, p, k);
    }
    lemma_walk_survives_all(g, gone, p);
    assert(h.is_path(p));
}

} // verus!
