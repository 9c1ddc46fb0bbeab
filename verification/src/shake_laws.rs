//! What holds of the shaker and the reachability analyser together: when a
//! unit is shaken by its own graph, a second shaking changes nothing.

use vstd::prelude::*;
use crate::ast::{Kind, NodeView};
use crate::bundle::{
    binds_symbol, child_entries, children_entries, defined_id, definitions, definitions_of,
    definitions_upto, entry_calls, entry_calls_upto, is_binding, is_position, load_target,
    object_of, position_definitions, position_entries, requires_in, requires_in_all,
    statement_definitions, statement_entries, statement_uses_symbol, table_in, uses_symbol,
    value_of, with_object, DefinitionView, FormatView,
};
use crate::graph::{
    ids, lemma_has, lemma_index_of, lemma_reach_step, lemma_start_is_reached, GraphView,
};
use crate::parser::{
    bundle_graph, known_entries, lemma_bundle_graph, lemma_distinct, lemma_nodes_of, linked,
    node_of, nodes_of,
};
use crate::text::{lemma_position, lemma_position_contains, position};
use crate::tree_shaker::{lemma_unreachable_ids, lemma_walk_is_reachable};
use crate::webpack_tree_shaker::{
    bare_call, is_orphan, pruned, pruned_table, shaken, shaken_position, shaken_statement,
    shaken_upto,
};

verus! {

/// The definitions whose module is not in `dead`, in order.
pub open spec fn surviving(defs: Seq<DefinitionView>, dead: Seq<Seq<char>>) -> Seq<DefinitionView>
    decreases defs.len(),
{
    if defs.len() == 0 {
        seq![]
    } else if dead.contains(defs.last().id) {
        surviving(defs.drop_last(), dead)
    } else {
        surviving(defs.drop_last(), dead).push(defs.last())
    }
}

/// The definitions of a pruned table are the definitions of the table that
/// survive.
pub proof fn lemma_definitions_of_pruned(props: Seq<NodeView>, dead: Seq<Seq<char>>, fmt: FormatView)
    ensures
        definitions_of(pruned(props, dead), fmt) == surviving(definitions_of(props, fmt), dead),
    decreases props.len(),
{
    if props.len() > 0 {
        let front = props.drop_last();
        let last = props.last();
        lemma_definitions_of_pruned(front, dead, fmt);
        match defined_id(last) {
            Some(id) => {
                if !dead.contains(id) {
                    let p = pruned(front, dead).push(last);
                    assert(p.drop_last() =~= pruned(front, dead));
                    assert(p.last() == last);
                    let d = definitions_of(front, fmt).push(definitions_of(props, fmt).last());
                    assert(definitions_of(props, fmt) == d);
                    assert(d.drop_last() =~= definitions_of(front, fmt));
                } else {
                    let d = definitions_of(props, fmt);
                    assert(d.drop_last() =~= definitions_of(front, fmt));
                }
            },
            None => {
                let p = pruned(front, dead).push(last);
                assert(p.drop_last() =~= pruned(front, dead));
                assert(p.last() == last);
            },
        }
    }
}

/// Whether a list of definitions defines the module `x`.
pub open spec fn defines(defs: Seq<DefinitionView>, x: Seq<char>) -> bool {
    exists|i: int| 0 <= i < defs.len() && (#[trigger] defs[i]).id == x
}

/// The definition that counts for the module `x`: the last one.
pub open spec fn resolved(defs: Seq<DefinitionView>, x: Seq<char>) -> Option<DefinitionView>
    decreases defs.len(),
{
    if defs.len() == 0 {
        None
    } else if defs.last().id == x {
        Some(defs.last())
    } else {
        resolved(defs.drop_last(), x)
    }
}

/// The graph has a module for every identifier that is defined, and the
/// module is that of the last definition.
pub proof fn lemma_nodes_of_resolved(defs: Seq<DefinitionView>, x: Seq<char>)
    ensures
        ids(nodes_of(defs)).contains(x) == defines(defs, x),
        resolved(defs, x) is Some == defines(defs, x),
        resolved(defs, x) matches Some(d) ==> {
            let at = position(ids(nodes_of(defs)), x, 0);
            0 <= at < nodes_of(defs).len() && nodes_of(defs)[at] == node_of(d)
        },
    decreases defs.len(),
{
    if defs.len() > 0 {
        let front = defs.drop_last();
        let last = defs.last();
        lemma_nodes_of_resolved(front, x);
        lemma_nodes_of_resolved(front, last.id);
        lemma_nodes_of(front);
        lemma_nodes_of(defs);
        let before = nodes_of(front);
        let now = nodes_of(defs);
        let keys = ids(before);
        let now_keys = ids(now);
        let at = position(keys, last.id, 0);
        lemma_position(keys, last.id, 0);
        lemma_position_contains(keys, last.id);
        lemma_position(now_keys, x, 0);
        lemma_position_contains(now_keys, x);
        lemma_position(keys, x, 0);
        lemma_position_contains(keys, x);
        if at < before.len() {
            assert(now_keys =~= keys);
        } else {
            assert(now_keys =~= keys.push(last.id));
        }
        if defines(front, x) {
            let i = choose|i: int| 0 <= i < front.len() && (#[trigger] front[i]).id == x;
            assert(defs[i].id == x);
        }
        if last.id == x {
            assert(defs[defs.len() - 1].id == x);
        }
        if defines(defs, x) {
            let i = choose|i: int| 0 <= i < defs.len() && (#[trigger] defs[i]).id == x;
            if i < front.len() {
                assert(front[i].id == x);
            }
        }
        if now_keys.contains(x) {
            let k = choose|k: int| 0 <= k < now_keys.len() && now_keys[k] == x;
            if k < keys.len() {
                assert(keys[k] == x);
            }
        }
        if keys.contains(x) {
            let k = choose|k: int| 0 <= k < keys.len() && keys[k] == x;
            assert(now_keys[k] == x);
        }
        if last.id == x {
            if at < before.len() {
                assert(now[at] == node_of(last));
            } else {
                assert(now_keys[before.len() as int] == x);
                let p = position(now_keys, x, 0);
                if p < before.len() {
                    assert(keys[p] == x);
                }
                assert(now[before.len() as int] == node_of(last));
            }
        } else if resolved(defs, x) is Some {
            let p = position(keys, x, 0);
            assert(keys[p] == x);
            assert(now_keys[p] == x);
            let q = position(now_keys, x, 0);
            if q < p {
                assert(keys[q] == now_keys[q]);
            }
            assert(q == p);
            assert(p != at);
            assert(now[p] == before[p]);
        }
    }
}

/// The survivors define the modules that were defined and are not dead,
/// and the definition that counts for such a module is the same.
pub proof fn lemma_surviving_resolved(defs: Seq<DefinitionView>, dead: Seq<Seq<char>>, x: Seq<char>)
    ensures
        defines(surviving(defs, dead), x) == (defines(defs, x) && !dead.contains(x)),
        !dead.contains(x) ==> resolved(surviving(defs, dead), x) == resolved(defs, x),
    decreases defs.len(),
{
    if defs.len() > 0 {
        let front = defs.drop_last();
        let last = defs.last();
        lemma_surviving_resolved(front, dead, x);
        let s = surviving(defs, dead);
        let sf = surviving(front, dead);
        if defines(s, x) {
            let i = choose|i: int| 0 <= i < s.len() && (#[trigger] s[i]).id == x;
            if i < sf.len() {
                assert(sf[i].id == x);
                let j = choose|j: int| 0 <= j < front.len() && (#[trigger] front[j]).id == x;
                assert(defs[j].id == x);
            } else {
                assert(defs[defs.len() - 1].id == x);
            }
        }
        if defines(defs, x) && !dead.contains(x) {
            let j = choose|j: int| 0 <= j < defs.len() && (#[trigger] defs[j]).id == x;
            if j < front.len() {
                assert(front[j].id == x);
                let i = choose|i: int| 0 <= i < sf.len() && (#[trigger] sf[i]).id == x;
                assert(s[i].id == x);
            } else {
                assert(s[s.len() - 1].id == x);
            }
        }
        if !dead.contains(x) && !dead.contains(last.id) {
            assert(s.drop_last() =~= sf);
        }
    }
}

/// An entry point is a load call outside the tables that names a module of
/// the graph, and the other way round.
pub proof fn lemma_known_entries_members(calls: Seq<Seq<char>>, keys: Seq<Seq<char>>, x: Seq<char>)
    ensures
        known_entries(calls, keys).contains(x) == (calls.contains(x) && keys.contains(x)),
    decreases calls.len(),
{
    if calls.len() > 0 {
        let front = calls.drop_last();
        lemma_known_entries_members(front, keys, x);
        let now = known_entries(calls, keys);
        let before = known_entries(front, keys);
        if now.contains(x) {
            let k = choose|k: int| 0 <= k < now.len() && now[k] == x;
            if k < before.len() {
                assert(before[k] == x);
            } else {
                assert(calls[calls.len() - 1] == x);
            }
        }
        if before.contains(x) {
            let k = choose|k: int| 0 <= k < before.len() && before[k] == x;
            assert(now[k] == x);
        }
        if front.contains(x) {
            let k = choose|k: int| 0 <= k < front.len() && front[k] == x;
            assert(calls[k] == x);
        }
        if calls.contains(x) {
            let k = choose|k: int| 0 <= k < calls.len() && calls[k] == x;
            if k < front.len() {
                assert(front[k] == x);
            }
        }
        if calls.last() == x && keys.contains(x) && !before.contains(x) {
            assert(now[now.len() - 1] == x);
        }
    }
}

/// The unit shaken by its own graph: without the definitions of the modules
/// that no entry point reaches, and without the top-level bare calls that
/// load them.
pub open spec fn shake_unit(program: NodeView, fmt: FormatView) -> NodeView {
    shaken(program, bundle_graph(program, fmt).unreachable_ids(), fmt)
}

/// The modules of a unit's graph are those of its definitions.
proof fn lemma_graph_keys(program: NodeView, fmt: FormatView)
    ensures
        ids(bundle_graph(program, fmt).modules) == ids(nodes_of(definitions(program, fmt))),
        bundle_graph(program, fmt).modules.len() == nodes_of(definitions(program, fmt)).len(),
        forall|i: int|
            0 <= i < bundle_graph(program, fmt).modules.len() ==> (#[trigger] bundle_graph(
                program,
                fmt,
            ).modules[i]).dependencies == nodes_of(definitions(program, fmt))[i].dependencies,
{
    let base = nodes_of(definitions(program, fmt));
    assert(ids(linked(base)) =~= ids(base));
}

/// A graph whose modules are all reachable has no unreachable module.
pub proof fn lemma_nothing_unreachable(g: GraphView, n: int)
    requires
        0 <= n <= g.modules.len(),
        forall|i: int| 0 <= i < g.modules.len() ==> g.reachable((#[trigger] g.modules[i]).id),
    ensures
        g.unreachable_upto(n) == Seq::<Seq<char>>::empty(),
    decreases n,
{
    if n > 0 {
        lemma_nothing_unreachable(g, n - 1);
        assert(g.reachable(g.modules[n - 1].id));
    }
}

/// Pruning for no dead module leaves the properties as they are.
pub proof fn lemma_pruned_nothing(props: Seq<NodeView>)
    ensures
        pruned(props, seq![]) == props,
    decreases props.len(),
{
    if props.len() > 0 {
        lemma_pruned_nothing(props.drop_last());
        assert(seq![] =~= Seq::<Seq<char>>::empty());
        assert(props.drop_last().push(props.last()) =~= props);
    }
}

/// Shaking a top-level position for no dead module leaves it as it is.
pub proof fn lemma_shaken_position_nothing(x: NodeView, fmt: FormatView, by_symbol: bool)
    ensures
        shaken_position(x, seq![], fmt, by_symbol) == x,
{
    match table_in(x, fmt, by_symbol) {
        Some(o) => {
            lemma_pruned_nothing(o.children);
            let v = value_of(x);
            assert(object_of(v) == Some(o));
            if v.kind != Kind::Object {
                assert(seq![o] =~= v.children);
            }
            assert(with_object(v, pruned_table(o, seq![])) == v);
            if is_binding(x) {
                assert(x.children.update(1, v) =~= x.children);
            }
        },
        None => {},
    }
}

/// Shaking for no dead module leaves the unit as it is.
pub proof fn lemma_shaken_nothing(program: NodeView, fmt: FormatView)
    ensures
        shaken(program, seq![], fmt) == program,
{
    let m = uses_symbol(program, fmt);
    lemma_shaken_upto_nothing(program, fmt, m, program.children.len() as int);
    assert(program.children.subrange(0, program.children.len() as int) =~= program.children);
}

proof fn lemma_shaken_upto_nothing(program: NodeView, fmt: FormatView, by_symbol: bool, n: int)
    requires
        0 <= n <= program.children.len(),
    ensures
        shaken_upto(program, seq![], fmt, by_symbol, n) == program.children.subrange(0, n),
    decreases n,
{
    let none = Seq::<Seq<char>>::empty();
    assert(seq![] =~= none);
    if n > 0 {
        lemma_shaken_upto_nothing(program, fmt, by_symbol, n - 1);
        let s = program.children[n - 1];
        assert forall|id: Seq<char>| !(#[trigger] none.contains(id)) by {}
        assert(!is_orphan(s, none, fmt));
        let t = shaken_statement(s, none, fmt, by_symbol);
        assert forall|i: int| 0 <= i < s.children.len() implies #[trigger] t.children[i]
            == s.children[i] by {
            lemma_shaken_position_nothing(s.children[i], fmt, by_symbol);
        }
        assert(t.children =~= s.children);
        assert(program.children.subrange(0, n - 1).push(s) =~= program.children.subrange(0, n));
    } else {
        assert(program.children.subrange(0, 0) =~= seq![]);
    }
}

/// What a call within a child loads, the node loads: the walk over a node
/// takes in the walks over its children.
pub proof fn lemma_requires_child(n: NodeView, fmt: FormatView, i: int, l: Seq<char>)
    requires
        0 <= i < n.children.len(),
        requires_in(n.children[i], fmt).contains(l),
    ensures
        requires_in(n, fmt).contains(l),
{
    lemma_requires_member(n.children, fmt, i, l);
    let own = match load_target(n, fmt) {
        Some(id) => seq![id],
        None => seq![],
    };
    let below = requires_in_all(n.children, fmt);
    let k = choose|k: int| 0 <= k < below.len() && below[k] == l;
    assert((own + below)[own.len() + k] == l);
}

proof fn lemma_requires_member(nodes: Seq<NodeView>, fmt: FormatView, i: int, l: Seq<char>)
    requires
        0 <= i < nodes.len(),
        requires_in(nodes[i], fmt).contains(l),
    ensures
        requires_in_all(nodes, fmt).contains(l),
    decreases nodes.len(),
{
    let front = requires_in_all(nodes.drop_last(), fmt);
    let last = requires_in(nodes.last(), fmt);
    if i < nodes.len() - 1 {
        assert(nodes.drop_last()[i] == nodes[i]);
        lemma_requires_member(nodes.drop_last(), fmt, i, l);
        let k = choose|k: int| 0 <= k < front.len() && front[k] == l;
        assert((front + last)[k] == l);
    } else {
        let k = choose|k: int| 0 <= k < last.len() && last[k] == l;
        assert((front + last)[front.len() + k] == l);
    }
}

/// A member of one of two joined lists is a member of the joined list.
pub proof fn lemma_joined_members(a: Seq<Seq<char>>, b: Seq<Seq<char>>, l: Seq<char>)
    ensures
        (a + b).contains(l) <==> a.contains(l) || b.contains(l),
{
    if a.contains(l) {
        let k = choose|k: int| 0 <= k < a.len() && a[k] == l;
        assert((a + b)[k] == l);
    }
    if b.contains(l) {
        let k = choose|k: int| 0 <= k < b.len() && b[k] == l;
        assert((a + b)[a.len() + k] == l);
    }
    if (a + b).contains(l) {
        let k = choose|k: int| 0 <= k < (a + b).len() && (a + b)[k] == l;
        if k < a.len() {
            assert(a[k] == l);
        } else {
            assert(b[k - a.len()] == l);
        }
    }
}

/// What a child of a top-level statement loads outside the tables, the
/// statement loads outside the tables.
pub proof fn lemma_child_in_statement(
    s: NodeView,
    fmt: FormatView,
    by_symbol: bool,
    i: int,
    n: int,
    l: Seq<char>,
)
    requires
        0 <= i < n <= s.children.len(),
        child_entries(s, i, fmt, by_symbol).contains(l),
    ensures
        children_entries(s, fmt, by_symbol, n).contains(l),
        n == s.children.len() ==> statement_entries(s, fmt, by_symbol).contains(l),
    decreases n,
{
    let before = children_entries(s, fmt, by_symbol, n - 1);
    let last = child_entries(s, n - 1, fmt, by_symbol);
    if i < n - 1 {
        lemma_child_in_statement(s, fmt, by_symbol, i, n - 1, l);
    }
    lemma_joined_members(before, last, l);
    let own = match load_target(s, fmt) {
        Some(id) => seq![id],
        None => seq![],
    };
    lemma_joined_members(own, children_entries(s, fmt, by_symbol, n), l);
}

/// What a top-level statement loads outside the tables, the unit loads
/// from outside its tables.
pub proof fn lemma_statement_in_unit(
    program: NodeView,
    fmt: FormatView,
    by_symbol: bool,
    k: int,
    n: int,
    l: Seq<char>,
)
    requires
        0 <= k < n <= program.children.len(),
        statement_entries(program.children[k], fmt, by_symbol).contains(l),
    ensures
        entry_calls_upto(program, fmt, by_symbol, n).contains(l),
    decreases n,
{
    let before = entry_calls_upto(program, fmt, by_symbol, n - 1);
    let last = statement_entries(program.children[n - 1], fmt, by_symbol);
    if k < n - 1 {
        lemma_statement_in_unit(program, fmt, by_symbol, k, n - 1, l);
    }
    lemma_joined_members(before, last, l);
}

/// A bare load call at the top level loads its module from outside the
/// tables.
pub proof fn lemma_bare_call_is_entry(s: NodeView, fmt: FormatView, by_symbol: bool)
    requires
        bare_call(s, fmt) is Some,
    ensures
        statement_entries(s, fmt, by_symbol).contains(bare_call(s, fmt).unwrap()),
{
    let call = s.children[0];
    let id = bare_call(s, fmt).unwrap();
    assert(is_position(s, 0));
    assert(table_in(call, fmt, by_symbol) is None);
    let own = seq![id];
    let below = requires_in_all(call.children, fmt);
    assert(requires_in(call, fmt) == own + below);
    assert((own + below)[0] == id);
    assert(child_entries(s, 0, fmt, by_symbol).contains(id));
    lemma_child_in_statement(s, fmt, by_symbol, 0, 1, id);
}

/// No top-level statement is a bare call of an unreachable module: what a
/// bare call loads is an entry point if the graph has it.
pub proof fn lemma_no_orphan(program: NodeView, fmt: FormatView, k: int)
    requires
        0 <= k < program.children.len(),
    ensures
        !is_orphan(program.children[k], bundle_graph(program, fmt).unreachable_ids(), fmt),
{
    let g = bundle_graph(program, fmt);
    let dead = g.unreachable_ids();
    let s = program.children[k];
    let m = uses_symbol(program, fmt);
    if is_orphan(s, dead, fmt) {
        let id = bare_call(s, fmt).unwrap();
        lemma_bare_call_is_entry(s, fmt, m);
        lemma_statement_in_unit(program, fmt, m, k, program.children.len() as int, id);
        lemma_graph_keys(program, fmt);
        lemma_unreachable_ids(g, g.modules.len() as int);
        let i = choose|i: int|
            0 <= i < g.modules.len() && (#[trigger] g.modules[i]).id == id && !g.reachable(id);
        assert(ids(g.modules)[i] == id);
        lemma_known_entries_members(
            entry_calls(program, fmt),
            ids(nodes_of(definitions(program, fmt))),
            id,
        );
        lemma_start_is_reached(g, g.entry_points, id);
    }
}

/// Where no statement is left out, shaking shakes the top-level statements
/// one by one.
pub proof fn lemma_shaken_children(
    program: NodeView,
    dead: Seq<Seq<char>>,
    fmt: FormatView,
    by_symbol: bool,
    n: int,
)
    requires
        0 <= n <= program.children.len(),
        forall|k: int| 0 <= k < n ==> !is_orphan(#[trigger] program.children[k], dead, fmt),
    ensures
        shaken_upto(program, dead, fmt, by_symbol, n).len() == n,
        forall|k: int|
            0 <= k < n ==> #[trigger] shaken_upto(program, dead, fmt, by_symbol, n)[k]
                == shaken_statement(program.children[k], dead, fmt, by_symbol),
    decreases n,
{
    if n > 0 {
        lemma_shaken_children(program, dead, fmt, by_symbol, n - 1);
        assert(!is_orphan(program.children[n - 1], dead, fmt));
    }
}

/// What shaking does to a top-level position: the node keeps its kind and
/// what it binds, a table that stood there is pruned, and a position
/// without a table stays as it is.
pub proof fn lemma_shaken_position(x: NodeView, dead: Seq<Seq<char>>, fmt: FormatView, by_symbol: bool)
    ensures
        ({
            let y = shaken_position(x, dead, fmt, by_symbol);
            &&& y.kind == x.kind
            &&& is_binding(y) == is_binding(x)
            &&& is_binding(x) ==> y.children[0] == x.children[0]
            &&& binds_symbol(y, fmt) == binds_symbol(x, fmt)
            &&& load_target(y, fmt) == load_target(x, fmt)
            &&& table_in(x, fmt, by_symbol) matches Some(o) ==> object_of(value_of(y)) == Some(
                pruned_table(o, dead),
            ) && object_of(value_of(x)) == Some(o)
            &&& table_in(x, fmt, by_symbol) is None ==> y == x
            &&& (table_in(y, fmt, true) is Some) == (table_in(x, fmt, true) is Some)
        }),
{
    let y = shaken_position(x, dead, fmt, by_symbol);
    match table_in(x, fmt, by_symbol) {
        Some(o) => {
            let v = value_of(x);
            let w = with_object(v, pruned_table(o, dead));
            assert(object_of(v) == Some(o));
            assert(object_of(w) == Some(pruned_table(o, dead)));
            assert(w.kind == v.kind);
            if is_binding(x) {
                assert(y.children[1] == w);
                assert(y.children[0] == x.children[0]);
            } else {
                assert(y == w);
            }
        },
        None => {},
    }
}

/// What shaking does to a top-level statement: it keeps its kind, the
/// number of its children and its positions; its positions are shaken and
/// its other children stay.
pub proof fn lemma_shaken_statement(s: NodeView, dead: Seq<Seq<char>>, fmt: FormatView, by_symbol: bool)
    ensures
        ({
            let t = shaken_statement(s, dead, fmt, by_symbol);
            &&& t.kind == s.kind
            &&& t.children.len() == s.children.len()
            &&& load_target(t, fmt) == load_target(s, fmt)
            &&& forall|i: int|
                0 <= i < s.children.len() ==> is_position(t, i) == #[trigger] is_position(s, i)
            &&& forall|i: int|
                0 <= i < s.children.len() && is_position(s, i) ==> #[trigger] t.children[i]
                    == shaken_position(s.children[i], dead, fmt, by_symbol)
            &&& forall|i: int|
                0 <= i < s.children.len() && !is_position(s, i) ==> #[trigger] t.children[i]
                    == s.children[i]
        }),
{
    let t = shaken_statement(s, dead, fmt, by_symbol);
    assert forall|i: int| 0 <= i < s.children.len() implies t.children[i].kind
        == s.children[i].kind && is_position(t, i) == #[trigger] is_position(s, i) by {
        lemma_shaken_position(s.children[i], dead, fmt, by_symbol);
    }
    if s.kind == Kind::Call && s.children.len() >= 2 {
        lemma_shaken_position(s.children[0], dead, fmt, by_symbol);
        lemma_shaken_position(s.children[1], dead, fmt, by_symbol);
        assert(t.children[0].kind == s.children[0].kind);
        if s.children[0].kind == Kind::Ident {
            assert(!is_position(s, 0));
        }
        if s.children[1].kind == Kind::Num || s.children[1].kind == Kind::Str {
            assert(!is_position(s, 1));
        }
    }
}

/// Shaking does not change whether a top-level statement binds an object
/// literal to the modules-table symbol.
pub proof fn lemma_statement_keeps_symbol(
    s: NodeView,
    dead: Seq<Seq<char>>,
    fmt: FormatView,
    by_symbol: bool,
)
    ensures
        statement_uses_symbol(
            shaken_statement(s, dead, fmt, by_symbol),
            fmt,
            s.children.len() as int,
        ) == statement_uses_symbol(s, fmt, s.children.len() as int),
{
    let t = shaken_statement(s, dead, fmt, by_symbol);
    let n = s.children.len() as int;
    lemma_shaken_statement(s, dead, fmt, by_symbol);
    assert forall|i: int| 0 <= i < n implies (is_position(t, i) && #[trigger] table_in(
        t.children[i],
        fmt,
        true,
    ) is Some) == (is_position(s, i) && table_in(s.children[i], fmt, true) is Some) by {
        assert(is_position(t, i) == is_position(s, i));
        if is_position(s, i) {
            lemma_shaken_position(s.children[i], dead, fmt, by_symbol);
            assert(t.children[i] == shaken_position(s.children[i], dead, fmt, by_symbol));
        }
    }
    if statement_uses_symbol(s, fmt, n) {
        let i = choose|i: int|
            0 <= i < n && is_position(s, i) && #[trigger] table_in(s.children[i], fmt, true) is Some;
        assert(is_position(t, i) && table_in(t.children[i], fmt, true) is Some);
    }
    if statement_uses_symbol(t, fmt, n) {
        let i = choose|i: int|
            0 <= i < n && is_position(t, i) && #[trigger] table_in(t.children[i], fmt, true) is Some;
        assert(is_position(s, i) && table_in(s.children[i], fmt, true) is Some);
    }
}

/// The unit shaken by its own graph declares its table by the symbol
/// exactly when the unit does, and has the unit's statements, each shaken.
pub proof fn lemma_shake_unit_shape(program: NodeView, fmt: FormatView)
    ensures
        ({
            let dead = bundle_graph(program, fmt).unreachable_ids();
            let m = uses_symbol(program, fmt);
            let once = shake_unit(program, fmt);
            &&& uses_symbol(once, fmt) == m
            &&& once.children.len() == program.children.len()
            &&& forall|k: int|
                0 <= k < program.children.len() ==> #[trigger] once.children[k]
                    == shaken_statement(program.children[k], dead, fmt, m)
        }),
{
    let dead = bundle_graph(program, fmt).unreachable_ids();
    let m = uses_symbol(program, fmt);
    let once = shake_unit(program, fmt);
    let n = program.children.len() as int;
    assert forall|k: int| 0 <= k < n implies !is_orphan(#[trigger] program.children[k], dead, fmt) by {
        lemma_no_orphan(program, fmt, k);
    }
    lemma_shaken_children(program, dead, fmt, m, n);
    assert forall|k: int| 0 <= k < n implies #[trigger] statement_uses_symbol(
        once.children[k],
        fmt,
        once.children[k].children.len() as int,
    ) == statement_uses_symbol(program.children[k], fmt, program.children[k].children.len() as int) by {
        lemma_statement_keeps_symbol(program.children[k], dead, fmt, m);
        lemma_shaken_statement(program.children[k], dead, fmt, m);
    }
    if uses_symbol(program, fmt) {
        let k = choose|k: int|
            0 <= k < n && #[trigger] statement_uses_symbol(
                program.children[k],
                fmt,
                program.children[k].children.len() as int,
            );
        assert(statement_uses_symbol(once.children[k], fmt, once.children[k].children.len() as int));
    }
    if uses_symbol(once, fmt) {
        let k = choose|k: int|
            0 <= k < n && #[trigger] statement_uses_symbol(
                once.children[k],
                fmt,
                once.children[k].children.len() as int,
            );
        assert(statement_uses_symbol(
            program.children[k],
            fmt,
            program.children[k].children.len() as int,
        ));
    }
}

/// Whether a list of definitions that takes the place of another keeps what
/// matters of it for the module `y`: it defines `y` only if the other did
/// and `y` is not dead; and if `y` is not dead, the definition that counted
/// for `y` still counts, or all that it loads is among `exposed`.
pub open spec fn keeps(
    before: Seq<DefinitionView>,
    after: Seq<DefinitionView>,
    exposed: Seq<Seq<char>>,
    dead: Seq<Seq<char>>,
    y: Seq<char>,
) -> bool {
    &&& defines(after, y) ==> defines(before, y) && !dead.contains(y)
    &&& !dead.contains(y) ==> (resolved(before, y) matches Some(d) ==> resolved(after, y) == Some(d)
        || forall|l: Seq<char>| #[trigger] d.loads.contains(l) ==> exposed.contains(l))
}

/// Two joined lists define what one of them defines, and the definition
/// that counts is that of the second list if it has one.
pub proof fn lemma_resolved_joined(a: Seq<DefinitionView>, b: Seq<DefinitionView>, y: Seq<char>)
    ensures
        defines(a + b, y) == (defines(a, y) || defines(b, y)),
        resolved(a + b, y) == (match resolved(b, y) {
            Some(d) => Some(d),
            None => resolved(a, y),
        }),
        resolved(a, y) is Some == defines(a, y),
        resolved(b, y) is Some == defines(b, y),
    decreases b.len(),
{
    lemma_nodes_of_resolved(a, y);
    lemma_nodes_of_resolved(b, y);
    if b.len() == 0 {
        assert(a + b =~= a);
    } else {
        let front = b.drop_last();
        lemma_resolved_joined(a, front, y);
        lemma_nodes_of_resolved(front, y);
        assert((a + b).drop_last() =~= a + front);
        assert((a + b).last() == b.last());
    }
    if defines(a, y) {
        let i = choose|i: int| 0 <= i < a.len() && (#[trigger] a[i]).id == y;
        assert((a + b)[i].id == y);
    }
    if defines(b, y) {
        let i = choose|i: int| 0 <= i < b.len() && (#[trigger] b[i]).id == y;
        assert((a + b)[a.len() + i].id == y);
    }
    if defines(a + b, y) {
        let i = choose|i: int| 0 <= i < (a + b).len() && (#[trigger] (a + b)[i]).id == y;
        if i < a.len() {
            assert(a[i].id == y);
        } else {
            assert(b[i - a.len()].id == y);
        }
    }
}

/// What is kept of two lists is kept of the lists joined.
pub proof fn lemma_keeps_joined(
    a: Seq<DefinitionView>,
    a2: Seq<DefinitionView>,
    b: Seq<DefinitionView>,
    b2: Seq<DefinitionView>,
    exposed: Seq<Seq<char>>,
    dead: Seq<Seq<char>>,
    y: Seq<char>,
)
    requires
        keeps(a, a2, exposed, dead, y),
        keeps(b, b2, exposed, dead, y),
    ensures
        keeps(a + b, a2 + b2, exposed, dead, y),
{
    lemma_resolved_joined(a, b, y);
    lemma_resolved_joined(a2, b2, y);
}

/// The definition that counts for a module is one of the list.
pub proof fn lemma_resolved_member(defs: Seq<DefinitionView>, y: Seq<char>)
    ensures
        resolved(defs, y) matches Some(d) ==> exists|i: int|
            0 <= i < defs.len() && #[trigger] defs[i] == d,
    decreases defs.len(),
{
    if defs.len() > 0 {
        if defs.last().id == y {
            assert(defs[defs.len() - 1] == defs.last());
        } else {
            lemma_resolved_member(defs.drop_last(), y);
            if resolved(defs, y) is Some {
                let d = resolved(defs, y).unwrap();
                let i = choose|i: int| 0 <= i < defs.drop_last().len() && #[trigger] defs.drop_last()[i] == d;
                assert(defs[i] == d);
            }
        }
    }
}

/// Every definition of a table comes from one of its properties, and loads
/// what the calls within the property's value load.
pub proof fn lemma_definition_source(props: Seq<NodeView>, fmt: FormatView, i: int)
    requires
        0 <= i < definitions_of(props, fmt).len(),
    ensures
        exists|j: int|
            0 <= j < props.len() && (#[trigger] props[j]).children.len() == 2 && definitions_of(
                props,
                fmt,
            )[i].loads == requires_in(props[j].children[1], fmt),
    decreases props.len(),
{
    if props.len() > 0 {
        let front = props.drop_last();
        let before = definitions_of(front, fmt);
        if i < before.len() {
            lemma_definition_source(front, fmt, i);
            let j = choose|j: int|
                0 <= j < front.len() && (#[trigger] front[j]).children.len() == 2 && before[i].loads
                    == requires_in(front[j].children[1], fmt);
            assert(props[j] == front[j]);
            assert(definitions_of(props, fmt)[i] == before[i]);
        } else {
            assert(props[props.len() - 1] == props.last());
            assert(defined_id(props.last()) is Some);
        }
    }
}

/// What the definitions of a table load, a walk over a node that holds the
/// table as an ordinary object literal takes in.
proof fn lemma_dissolved_exposes(x: NodeView, o: NodeView, fmt: FormatView, i: int, l: Seq<char>)
    requires
        object_of(value_of(x)) == Some(o),
        0 <= i < definitions_of(o.children, fmt).len(),
        definitions_of(o.children, fmt)[i].loads.contains(l),
    ensures
        requires_in(x, fmt).contains(l),
{
    lemma_definition_source(o.children, fmt, i);
    let j = choose|j: int|
        0 <= j < o.children.len() && (#[trigger] o.children[j]).children.len() == 2
            && definitions_of(o.children, fmt)[i].loads == requires_in(
            o.children[j].children[1],
            fmt,
        );
    let prop = o.children[j];
    lemma_requires_child(prop, fmt, 1, l);
    lemma_requires_child(o, fmt, j, l);
    let v = value_of(x);
    if v.kind != Kind::Object {
        assert(v.children[0] == o);
        lemma_requires_child(v, fmt, 0, l);
    }
    if is_binding(x) {
        lemma_requires_child(x, fmt, 1, l);
    }
}

/// What is kept at a top-level position when it is shaken.
pub proof fn lemma_position_keeps(
    x: NodeView,
    dead: Seq<Seq<char>>,
    fmt: FormatView,
    by_symbol: bool,
    exposed: Seq<Seq<char>>,
    y: Seq<char>,
)
    requires
        forall|l: Seq<char>| #[trigger]
            position_entries(shaken_position(x, dead, fmt, by_symbol), fmt, by_symbol).contains(l)
                ==> exposed.contains(l),
    ensures
        keeps(
            position_definitions(x, fmt, by_symbol),
            position_definitions(shaken_position(x, dead, fmt, by_symbol), fmt, by_symbol),
            exposed,
            dead,
            y,
        ),
{
    let x2 = shaken_position(x, dead, fmt, by_symbol);
    let before = position_definitions(x, fmt, by_symbol);
    let after = position_definitions(x2, fmt, by_symbol);
    lemma_shaken_position(x, dead, fmt, by_symbol);
    lemma_nodes_of_resolved(before, y);
    lemma_nodes_of_resolved(after, y);
    match table_in(x, fmt, by_symbol) {
        None => {
            assert(before =~= seq![]);
        },
        Some(o) => {
            let o2 = pruned_table(o, dead);
            let kept = definitions_of(o2.children, fmt);
            lemma_definitions_of_pruned(o.children, dead, fmt);
            lemma_surviving_resolved(before, dead, y);
            lemma_nodes_of_resolved(kept, y);
            if table_in(x2, fmt, by_symbol) is Some {
                assert(table_in(x2, fmt, by_symbol) == Some(o2));
            } else {
                assert(after =~= seq![]);
                if !dead.contains(y) && resolved(before, y) is Some {
                    let d = resolved(before, y).unwrap();
                    lemma_resolved_member(kept, y);
                    let i = choose|i: int| 0 <= i < kept.len() && #[trigger] kept[i] == d;
                    assert forall|l: Seq<char>| #[trigger] d.loads.contains(l) implies exposed.contains(
                        l,
                    ) by {
                        lemma_dissolved_exposes(x2, o2, fmt, i, l);
                        assert(position_entries(x2, fmt, by_symbol).contains(l));
                    }
                }
            }
        },
    }
}

/// What is kept of the definitions of a top-level statement when it is
/// shaken.
pub proof fn lemma_statement_keeps(
    s: NodeView,
    dead: Seq<Seq<char>>,
    fmt: FormatView,
    by_symbol: bool,
    exposed: Seq<Seq<char>>,
    y: Seq<char>,
    n: int,
)
    requires
        0 <= n <= s.children.len(),
        forall|l: Seq<char>| #[trigger]
            statement_entries(shaken_statement(s, dead, fmt, by_symbol), fmt, by_symbol).contains(l)
                ==> exposed.contains(l),
    ensures
        keeps(
            statement_definitions(s, fmt, by_symbol, n),
            statement_definitions(shaken_statement(s, dead, fmt, by_symbol), fmt, by_symbol, n),
            exposed,
            dead,
            y,
        ),
    decreases n,
{
    let t = shaken_statement(s, dead, fmt, by_symbol);
    lemma_shaken_statement(s, dead, fmt, by_symbol);
    if n > 0 {
        lemma_statement_keeps(s, dead, fmt, by_symbol, exposed, y, n - 1);
        assert(is_position(t, n - 1) == is_position(s, n - 1));
        if is_position(s, n - 1) {
            let x = s.children[n - 1];
            let x2 = shaken_position(x, dead, fmt, by_symbol);
            assert(t.children[n - 1] == x2);
            assert forall|l: Seq<char>| #[trigger]
                position_entries(x2, fmt, by_symbol).contains(l) implies exposed.contains(l) by {
                assert(child_entries(t, n - 1, fmt, by_symbol).contains(l));
                lemma_child_in_statement(t, fmt, by_symbol, n - 1, t.children.len() as int, l);
            }
            lemma_position_keeps(x, dead, fmt, by_symbol, exposed, y);
            lemma_keeps_joined(
                statement_definitions(s, fmt, by_symbol, n - 1),
                statement_definitions(t, fmt, by_symbol, n - 1),
                position_definitions(x, fmt, by_symbol),
                position_definitions(x2, fmt, by_symbol),
                exposed,
                dead,
                y,
            );
        }
    } else {
        lemma_nodes_of_resolved(seq![], y);
        assert(statement_definitions(s, fmt, by_symbol, 0) =~= seq![]);
    }
}

/// What is kept of the definitions of a unit when it is shaken by its own
/// graph: the shaken unit defines reachable modules of the unit only, and
/// for every reachable module the definition that counted still counts, or
/// all that it loads is loaded from outside the tables of the shaken unit.
pub proof fn lemma_unit_keeps(program: NodeView, fmt: FormatView, y: Seq<char>, n: int)
    requires
        0 <= n <= program.children.len(),
    ensures
        keeps(
            definitions_upto(program, fmt, uses_symbol(program, fmt), n),
            definitions_upto(shake_unit(program, fmt), fmt, uses_symbol(program, fmt), n),
            entry_calls(shake_unit(program, fmt), fmt),
            bundle_graph(program, fmt).unreachable_ids(),
            y,
        ),
    decreases n,
{
    let dead = bundle_graph(program, fmt).unreachable_ids();
    let m = uses_symbol(program, fmt);
    let once = shake_unit(program, fmt);
    let exposed = entry_calls(once, fmt);
    lemma_shake_unit_shape(program, fmt);
    if n > 0 {
        lemma_unit_keeps(program, fmt, y, n - 1);
        let s = program.children[n - 1];
        let t = once.children[n - 1];
        assert(t == shaken_statement(s, dead, fmt, m));
        lemma_shaken_statement(s, dead, fmt, m);
        assert forall|l: Seq<char>| #[trigger]
            statement_entries(t, fmt, m).contains(l) implies exposed.contains(l) by {
            lemma_statement_in_unit(once, fmt, m, n - 1, once.children.len() as int, l);
        }
        lemma_statement_keeps(s, dead, fmt, m, exposed, y, s.children.len() as int);
        lemma_keeps_joined(
            definitions_upto(program, fmt, m, n - 1),
            definitions_upto(once, fmt, m, n - 1),
            statement_definitions(s, fmt, m, s.children.len() as int),
            statement_definitions(t, fmt, m, t.children.len() as int),
            exposed,
            dead,
            y,
        );
    } else {
        lemma_nodes_of_resolved(seq![], y);
        assert(definitions_upto(program, fmt, m, 0) =~= seq![]);
    }
}

/// What the children of a statement load outside the tables, one of them
/// loads.
proof fn lemma_children_source(s: NodeView, fmt: FormatView, by_symbol: bool, n: int, l: Seq<char>)
    requires
        0 <= n <= s.children.len(),
        children_entries(s, fmt, by_symbol, n).contains(l),
    ensures
        exists|i: int| 0 <= i < n && #[trigger] child_entries(s, i, fmt, by_symbol).contains(l),
    decreases n,
{
    if n > 0 {
        let before = children_entries(s, fmt, by_symbol, n - 1);
        let last = child_entries(s, n - 1, fmt, by_symbol);
        lemma_joined_members(before, last, l);
        if before.contains(l) {
            lemma_children_source(s, fmt, by_symbol, n - 1, l);
            let i = choose|i: int|
                0 <= i < n - 1 && #[trigger] child_entries(s, i, fmt, by_symbol).contains(l);
            assert(child_entries(s, i, fmt, by_symbol).contains(l));
        } else {
            assert(child_entries(s, n - 1, fmt, by_symbol).contains(l));
        }
    }
}

/// What the unit loads from outside its tables, one of its statements
/// loads.
proof fn lemma_unit_source(program: NodeView, fmt: FormatView, by_symbol: bool, n: int, l: Seq<char>)
    requires
        0 <= n <= program.children.len(),
        entry_calls_upto(program, fmt, by_symbol, n).contains(l),
    ensures
        exists|k: int|
            0 <= k < n && #[trigger] statement_entries(program.children[k], fmt, by_symbol).contains(
                l,
            ),
    decreases n,
{
    if n > 0 {
        let before = entry_calls_upto(program, fmt, by_symbol, n - 1);
        let last = statement_entries(program.children[n - 1], fmt, by_symbol);
        lemma_joined_members(before, last, l);
        if before.contains(l) {
            lemma_unit_source(program, fmt, by_symbol, n - 1, l);
            let k = choose|k: int|
                0 <= k < n - 1 && #[trigger] statement_entries(
                    program.children[k],
                    fmt,
                    by_symbol,
                ).contains(l);
            assert(statement_entries(program.children[k], fmt, by_symbol).contains(l));
        } else {
            assert(statement_entries(program.children[n - 1], fmt, by_symbol).contains(l));
        }
    }
}

/// What a top-level statement loads outside the tables, the shaken
/// statement loads outside the tables.
pub proof fn lemma_statement_entries_stay(
    s: NodeView,
    dead: Seq<Seq<char>>,
    fmt: FormatView,
    by_symbol: bool,
    l: Seq<char>,
)
    requires
        statement_entries(s, fmt, by_symbol).contains(l),
    ensures
        statement_entries(shaken_statement(s, dead, fmt, by_symbol), fmt, by_symbol).contains(l),
{
    let t = shaken_statement(s, dead, fmt, by_symbol);
    let n = s.children.len() as int;
    lemma_shaken_statement(s, dead, fmt, by_symbol);
    let own = match load_target(s, fmt) {
        Some(id) => seq![id],
        None => seq![],
    };
    lemma_joined_members(own, children_entries(s, fmt, by_symbol, n), l);
    lemma_joined_members(own, children_entries(t, fmt, by_symbol, n), l);
    if !own.contains(l) {
        lemma_children_source(s, fmt, by_symbol, n, l);
        let i = choose|i: int| 0 <= i < n && #[trigger] child_entries(s, i, fmt, by_symbol).contains(l);
        assert(is_position(t, i) == is_position(s, i));
        if is_position(s, i) {
            let x = s.children[i];
            let x2 = shaken_position(x, dead, fmt, by_symbol);
            assert(t.children[i] == x2);
            lemma_shaken_position(x, dead, fmt, by_symbol);
            if table_in(x, fmt, by_symbol) is Some && table_in(x2, fmt, by_symbol) is None {
                assert(is_binding(x));
                lemma_requires_child(x2, fmt, 0, l);
            }
            assert(child_entries(t, i, fmt, by_symbol).contains(l));
        } else {
            assert(t.children[i] == s.children[i]);
        }
        lemma_child_in_statement(t, fmt, by_symbol, i, n, l);
    }
}

/// What the unit loads from outside its tables, the unit shaken by its own
/// graph loads from outside its tables.
pub proof fn lemma_entries_stay(program: NodeView, fmt: FormatView, l: Seq<char>)
    requires
        entry_calls(program, fmt).contains(l),
    ensures
        entry_calls(shake_unit(program, fmt), fmt).contains(l),
{
    let dead = bundle_graph(program, fmt).unreachable_ids();
    let m = uses_symbol(program, fmt);
    let once = shake_unit(program, fmt);
    let n = program.children.len() as int;
    lemma_shake_unit_shape(program, fmt);
    lemma_unit_source(program, fmt, m, n, l);
    let k = choose|k: int|
        0 <= k < n && #[trigger] statement_entries(program.children[k], fmt, m).contains(l);
    lemma_statement_entries_stay(program.children[k], dead, fmt, m, l);
    lemma_statement_in_unit(once, fmt, m, k, n, l);
}

/// Every module of the unit shaken by its own graph is reachable in the
/// graph of the shaken unit, if it lies on a walk of the unit's graph.
proof fn lemma_walk_stays_reachable(program: NodeView, fmt: FormatView, p: Seq<Seq<char>>, k: int)
    requires
        bundle_graph(program, fmt).is_path(p),
        bundle_graph(program, fmt).entry_points.contains(p[0]),
        0 <= k < p.len(),
        bundle_graph(shake_unit(program, fmt), fmt).has(p[k]),
    ensures
        bundle_graph(shake_unit(program, fmt), fmt).reachable(p[k]),
    decreases k,
{
    let g = bundle_graph(program, fmt);
    let once = shake_unit(program, fmt);
    let g2 = bundle_graph(once, fmt);
    let dead = g.unreachable_ids();
    let m = uses_symbol(program, fmt);
    let defs = definitions(program, fmt);
    let defs2 = definitions(once, fmt);
    let calls = entry_calls(program, fmt);
    let calls2 = entry_calls(once, fmt);
    lemma_shake_unit_shape(program, fmt);
    lemma_graph_keys(program, fmt);
    lemma_graph_keys(once, fmt);
    lemma_bundle_graph(program, fmt);
    lemma_bundle_graph(once, fmt);
    if k == 0 {
        lemma_known_entries_members(calls, ids(nodes_of(defs)), p[0]);
        lemma_entries_stay(program, fmt, p[0]);
        lemma_known_entries_members(calls2, ids(nodes_of(defs2)), p[0]);
        lemma_start_is_reached(g2, g2.entry_points, p[0]);
    } else {
        let from = p[k - 1];
        let to = p[k];
        lemma_walk_is_reachable(g, p, k - 1);
        lemma_unreachable_ids(g, g.modules.len() as int);
        assert(g.edge(from, to));
        let i = choose|i: int|
            0 <= i < g.modules.len() && (#[trigger] g.modules[i]).id == from
                && g.modules[i].dependencies.contains(to);
        lemma_index_of(g, i);
        assert(ids(g.modules)[i] == from);
        assert(!dead.contains(from)) by {
            if dead.contains(from) {
                let j = choose|j: int|
                    0 <= j < g.modules.len() && (#[trigger] g.modules[j]).id == from
                        && !g.reachable(from);
            }
        }
        lemma_nodes_of_resolved(defs, from);
        lemma_nodes_of_resolved(defs2, from);
        let d = resolved(defs, from).unwrap();
        assert(nodes_of(defs)[i] == node_of(d));
        lemma_distinct(d.loads);
        assert(d.loads.contains(to));
        lemma_unit_keeps(program, fmt, from, program.children.len() as int);
        if resolved(defs2, from) == Some(d) {
            assert(g2.has(from));
            lemma_walk_stays_reachable(program, fmt, p, k - 1);
            lemma_has(g2, from);
            let j = g2.index_of(from);
            assert(nodes_of(defs2)[j] == node_of(d));
            assert(g2.modules[j].dependencies.contains(to));
            assert(g2.edge(from, to));
            lemma_reach_step(g2, g2.entry_points, from, to);
        } else {
            assert(calls2.contains(to));
            lemma_known_entries_members(calls2, ids(nodes_of(defs2)), to);
            lemma_start_is_reached(g2, g2.entry_points, to);
        }
    }
}

/// A second shaking changes nothing: the unit that has been shaken by its
/// own graph has no unreachable module left.
pub proof fn lemma_shake_unit_twice(program: NodeView, fmt: FormatView)
    ensures
        bundle_graph(shake_unit(program, fmt), fmt).unreachable_ids() == Seq::<Seq<char>>::empty(),
        shake_unit(shake_unit(program, fmt), fmt) == shake_unit(program, fmt),
{
    let g = bundle_graph(program, fmt);
    let once = shake_unit(program, fmt);
    let g2 = bundle_graph(once, fmt);
    let dead = g.unreachable_ids();
    let defs = definitions(program, fmt);
    let defs2 = definitions(once, fmt);
    lemma_shake_unit_shape(program, fmt);
    lemma_graph_keys(program, fmt);
    lemma_graph_keys(once, fmt);
    assert forall|i: int| 0 <= i < g2.modules.len() implies g2.reachable(
        (#[trigger] g2.modules[i]).id,
    ) by {
        let y = g2.modules[i].id;
        assert(ids(g2.modules)[i] == y);
        lemma_nodes_of_resolved(defs2, y);
        lemma_nodes_of_resolved(defs, y);
        lemma_unit_keeps(program, fmt, y, program.children.len() as int);
        assert(defines(defs, y) && !dead.contains(y));
        lemma_unreachable_ids(g, g.modules.len() as int);
        let j = choose|j: int| 0 <= j < ids(g.modules).len() && ids(g.modules)[j] == y;
        assert(g.modules[j].id == y);
        assert(g.reachable(y));
        let p = choose|p: Seq<Seq<char>>| #[trigger]
            g.is_path(p) && g.entry_points.contains(p[0]) && p.last() == y;
        lemma_walk_stays_reachable(program, fmt, p, p.len() - 1);
    }
    lemma_nothing_unreachable(g2, g2.modules.len() as int);
    assert(g2.unreachable_ids() =~= seq![]);
    lemma_shaken_nothing(once, fmt);
}

/// Whether every modules table of the unit is still one when the unit has
/// been shaken by its own graph. A table that is bound to the symbol always
/// is; a table that is known by its shape may lose so many definitions
/// that the shape is lost.
pub open spec fn tables_stay(program: NodeView, fmt: FormatView) -> bool {
    let dead = bundle_graph(program, fmt).unreachable_ids();
    let m = uses_symbol(program, fmt);
    forall|k: int, i: int|
        0 <= k < program.children.len() && is_position(program.children[k], i) && (
        #[trigger] table_in(program.children[k].children[i], fmt, m)) is Some ==> table_in(
            shaken_position(program.children[k].children[i], dead, fmt, m),
            fmt,
            m,
        ) is Some
}

/// The survivors of two joined lists are the survivors of the one and then
/// those of the other.
pub proof fn lemma_surviving_joined(a: Seq<DefinitionView>, b: Seq<DefinitionView>, dead: Seq<Seq<char>>)
    ensures
        surviving(a + b, dead) == surviving(a, dead) + surviving(b, dead),
    decreases b.len(),
{
    if b.len() == 0 {
        assert(a + b =~= a);
        assert(surviving(a, dead) + surviving(b, dead) =~= surviving(a, dead));
    } else {
        lemma_surviving_joined(a, b.drop_last(), dead);
        assert((a + b).drop_last() =~= a + b.drop_last());
        assert((a + b).last() == b.last());
        let front = surviving(a, dead) + surviving(b.drop_last(), dead);
        if !dead.contains(b.last().id) {
            assert(front.push(b.last()) =~= surviving(a, dead) + surviving(b, dead));
        }
    }
}

/// Where the tables of a top-level statement stay tables, the definitions
/// of the shaken statement are the survivors of the statement's.
proof fn lemma_statement_survivors(
    s: NodeView,
    dead: Seq<Seq<char>>,
    fmt: FormatView,
    by_symbol: bool,
    n: int,
)
    requires
        0 <= n <= s.children.len(),
        forall|i: int|
            is_position(s, i) && (#[trigger] table_in(s.children[i], fmt, by_symbol)) is Some
                ==> table_in(shaken_position(s.children[i], dead, fmt, by_symbol), fmt, by_symbol)
                is Some,
    ensures
        statement_definitions(shaken_statement(s, dead, fmt, by_symbol), fmt, by_symbol, n)
            == surviving(statement_definitions(s, fmt, by_symbol, n), dead),
    decreases n,
{
    let t = shaken_statement(s, dead, fmt, by_symbol);
    lemma_shaken_statement(s, dead, fmt, by_symbol);
    if n > 0 {
        lemma_statement_survivors(s, dead, fmt, by_symbol, n - 1);
        assert(is_position(t, n - 1) == is_position(s, n - 1));
        if is_position(s, n - 1) {
            let x = s.children[n - 1];
            let x2 = shaken_position(x, dead, fmt, by_symbol);
            assert(t.children[n - 1] == x2);
            lemma_shaken_position(x, dead, fmt, by_symbol);
            match table_in(x, fmt, by_symbol) {
                Some(o) => {
                    assert(table_in(x2, fmt, by_symbol) == Some(pruned_table(o, dead)));
                    lemma_definitions_of_pruned(o.children, dead, fmt);
                },
                None => {
                    assert(position_definitions(x, fmt, by_symbol) =~= seq![]);
                },
            }
            lemma_surviving_joined(
                statement_definitions(s, fmt, by_symbol, n - 1),
                position_definitions(x, fmt, by_symbol),
                dead,
            );
        }
    } else {
        assert(statement_definitions(s, fmt, by_symbol, 0) =~= seq![]);
    }
}

/// Where the tables of the unit stay tables, the definitions of the unit
/// shaken by its own graph are the survivors of the unit's.
proof fn lemma_unit_survivors(program: NodeView, fmt: FormatView, n: int)
    requires
        0 <= n <= program.children.len(),
        tables_stay(program, fmt),
    ensures
        definitions_upto(shake_unit(program, fmt), fmt, uses_symbol(program, fmt), n) == surviving(
            definitions_upto(program, fmt, uses_symbol(program, fmt), n),
            bundle_graph(program, fmt).unreachable_ids(),
        ),
    decreases n,
{
    let dead = bundle_graph(program, fmt).unreachable_ids();
    let m = uses_symbol(program, fmt);
    let once = shake_unit(program, fmt);
    lemma_shake_unit_shape(program, fmt);
    if n > 0 {
        lemma_unit_survivors(program, fmt, n - 1);
        let s = program.children[n - 1];
        assert(once.children[n - 1] == shaken_statement(s, dead, fmt, m));
        lemma_shaken_statement(s, dead, fmt, m);
        assert forall|i: int|
            is_position(s, i) && (#[trigger] table_in(s.children[i], fmt, m)) is Some implies table_in(
            shaken_position(s.children[i], dead, fmt, m),
            fmt,
            m,
        ) is Some by {
            assert(table_in(program.children[n - 1].children[i], fmt, m) is Some);
        }
        lemma_statement_survivors(s, dead, fmt, m, s.children.len() as int);
        lemma_surviving_joined(
            definitions_upto(program, fmt, m, n - 1),
            statement_definitions(s, fmt, m, s.children.len() as int),
            dead,
        );
    } else {
        assert(definitions_upto(program, fmt, m, 0) =~= seq![]);
    }
}

/// A unit that binds its table to the symbol keeps its tables when it is
/// shaken.
pub proof fn lemma_bound_tables_stay(program: NodeView, fmt: FormatView)
    requires
        uses_symbol(program, fmt),
    ensures
        tables_stay(program, fmt),
{
    let dead = bundle_graph(program, fmt).unreachable_ids();
    assert forall|k: int, i: int|
        0 <= k < program.children.len() && is_position(program.children[k], i) && (
        #[trigger] table_in(program.children[k].children[i], fmt, true)) is Some implies table_in(
        shaken_position(program.children[k].children[i], dead, fmt, true),
        fmt,
        true,
    ) is Some by {
        lemma_shaken_position(program.children[k].children[i], dead, fmt, true);
    }
}

/// After shaking, the modules that remain are the modules that the entry
/// points reach: the unit shaken by its own graph defines, with the
/// definitions it had, exactly the reachable modules of the unit. This
/// holds where the tables of the unit stay tables, as they do in every
/// unit that binds its table to the symbol.
pub proof fn lemma_shake_unit_leaves_reachable(program: NodeView, fmt: FormatView)
    requires
        tables_stay(program, fmt),
    ensures
        definitions(shake_unit(program, fmt), fmt) == surviving(
            definitions(program, fmt),
            bundle_graph(program, fmt).unreachable_ids(),
        ),
        forall|y: Seq<char>| #[trigger]
            bundle_graph(shake_unit(program, fmt), fmt).has(y) <==> bundle_graph(program, fmt).has(y)
                && bundle_graph(program, fmt).reachable(y),
{
    let g = bundle_graph(program, fmt);
    let once = shake_unit(program, fmt);
    let g2 = bundle_graph(once, fmt);
    let dead = g.unreachable_ids();
    let defs = definitions(program, fmt);
    let defs2 = definitions(once, fmt);
    lemma_shake_unit_shape(program, fmt);
    lemma_unit_survivors(program, fmt, program.children.len() as int);
    lemma_graph_keys(program, fmt);
    lemma_graph_keys(once, fmt);
    lemma_unreachable_ids(g, g.modules.len() as int);
    assert forall|y: Seq<char>| #[trigger] g2.has(y) <==> g.has(y) && g.reachable(y) by {
        lemma_nodes_of_resolved(defs, y);
        lemma_nodes_of_resolved(defs2, y);
        lemma_surviving_resolved(defs, dead, y);
        if g.has(y) {
            let j = choose|j: int| 0 <= j < ids(g.modules).len() && ids(g.modules)[j] == y;
            assert(g.modules[j].id == y);
            if dead.contains(y) {
                let i = choose|i: int|
                    0 <= i < g.modules.len() && (#[trigger] g.modules[i]).id == y && !g.reachable(y);
            }
        }
    }
}

} // verus!
