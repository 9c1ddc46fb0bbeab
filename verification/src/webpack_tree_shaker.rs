//! The shaker: it deletes from the syntax tree the definitions of modules
//! that no entry point reaches, and the bare calls that load them.

use vstd::prelude::*;
use crate::ast::{lemma_views, lemma_views_push, views, Kind, Node, NodeView};
use crate::bundle::{
    binding, call_target, defined_id, holds_position, is_binding, is_position, load_target,
    position_table, position_value, property_id, table_in, unit_uses_symbol, uses_symbol,
    value_of, with_object, with_value, BundleFormat, FormatView,
};
use crate::text::{has_text, lemma_texts_push, texts};

verus! {

/// The properties of a modules table that stay: all but the definitions of
/// the modules in `dead`.
pub open spec fn pruned(props: Seq<NodeView>, dead: Seq<Seq<char>>) -> Seq<NodeView>
    decreases props.len(),
{
    if props.len() == 0 {
        seq![]
    } else {
        let before = pruned(props.drop_last(), dead);
        match defined_id(props.last()) {
            Some(id) => if dead.contains(id) {
                before
            } else {
                before.push(props.last())
            },
            None => before.push(props.last()),
        }
    }
}

/// The identifiers of the definitions that leave a modules table, in order.
pub open spec fn pruned_ids(props: Seq<NodeView>, dead: Seq<Seq<char>>) -> Seq<Seq<char>>
    decreases props.len(),
{
    if props.len() == 0 {
        seq![]
    } else {
        let before = pruned_ids(props.drop_last(), dead);
        match defined_id(props.last()) {
            Some(id) => if dead.contains(id) {
                before.push(id)
            } else {
                before
            },
            None => before,
        }
    }
}

/// The module that a bare load call names: the statement is an expression
/// statement whose expression is a call of the load function.
pub open spec fn bare_call(stmt: NodeView, fmt: FormatView) -> Option<Seq<char>> {
    if stmt.kind == Kind::ExprStmt && stmt.children.len() == 1 {
        load_target(stmt.children[0], fmt)
    } else {
        None
    }
}

/// Whether a statement is a bare call that loads a module of `dead`.
pub open spec fn is_orphan(stmt: NodeView, dead: Seq<Seq<char>>, fmt: FormatView) -> bool {
    match bare_call(stmt, fmt) {
        Some(id) => dead.contains(id),
        None => false,
    }
}

/// A modules table without the definitions of the modules in `dead`.
pub open spec fn pruned_table(table: NodeView, dead: Seq<Seq<char>>) -> NodeView {
    NodeView { children: pruned(table.children, dead), ..table }
}

/// A top-level position after shaking: the modules table that stands there
/// loses the definitions of the modules in `dead`.
pub open spec fn shaken_position(x: NodeView, dead: Seq<Seq<char>>, fmt: FormatView, by_symbol: bool) -> NodeView {
    match table_in(x, fmt, by_symbol) {
        Some(o) => with_value(x, with_object(value_of(x), pruned_table(o, dead))),
        None => x,
    }
}

/// A top-level statement after shaking: its modules tables are pruned, the
/// rest of it stays as it is.
pub open spec fn shaken_statement(s: NodeView, dead: Seq<Seq<char>>, fmt: FormatView, by_symbol: bool) -> NodeView {
    NodeView {
        children: Seq::new(
            s.children.len(),
            |i: int|
                if is_position(s, i) {
                    shaken_position(s.children[i], dead, fmt, by_symbol)
                } else {
                    s.children[i]
                },
        ),
        ..s
    }
}

/// The first `n` top-level statements after shaking: the bare calls that
/// load a module of `dead` are left out, the other statements are shaken.
pub open spec fn shaken_upto(
    program: NodeView,
    dead: Seq<Seq<char>>,
    fmt: FormatView,
    by_symbol: bool,
    n: int,
) -> Seq<NodeView>
    decreases n,
{
    if n <= 0 || n > program.children.len() {
        seq![]
    } else {
        let before = shaken_upto(program, dead, fmt, by_symbol, n - 1);
        if is_orphan(program.children[n - 1], dead, fmt) {
            before
        } else {
            before.push(shaken_statement(program.children[n - 1], dead, fmt, by_symbol))
        }
    }
}

/// The unit after shaking. Every modules table of the unit loses the
/// definitions of the modules in `dead`, and the unit's top-level sequence
/// loses the bare calls that load a module in `dead`. Nothing else
/// changes: statements below the top level stay, and so do object literals
/// that are no modules table of the unit. A table that becomes empty stays,
/// and so does what it is bound to.
pub open spec fn shaken(program: NodeView, dead: Seq<Seq<char>>, fmt: FormatView) -> NodeView {
    NodeView {
        children: shaken_upto(
            program,
            dead,
            fmt,
            uses_symbol(program, fmt),
            program.children.len() as int,
        ),
        ..program
    }
}

/// The identifiers of the definitions that shaking deletes from the tables
/// among the first `n` children of a top-level statement.
pub open spec fn statement_deleted(
    s: NodeView,
    dead: Seq<Seq<char>>,
    fmt: FormatView,
    by_symbol: bool,
    n: int,
) -> Seq<Seq<char>>
    decreases n,
{
    if n <= 0 || n > s.children.len() {
        seq![]
    } else {
        let before = statement_deleted(s, dead, fmt, by_symbol, n - 1);
        if is_position(s, n - 1) {
            match table_in(s.children[n - 1], fmt, by_symbol) {
                Some(o) => before + pruned_ids(o.children, dead),
                None => before,
            }
        } else {
            before
        }
    }
}

/// The identifiers of the definitions that shaking deletes from the first
/// `n` top-level statements.
pub open spec fn deleted_definitions_upto(
    program: NodeView,
    dead: Seq<Seq<char>>,
    fmt: FormatView,
    by_symbol: bool,
    n: int,
) -> Seq<Seq<char>>
    decreases n,
{
    if n <= 0 || n > program.children.len() {
        seq![]
    } else {
        let before = deleted_definitions_upto(program, dead, fmt, by_symbol, n - 1);
        if is_orphan(program.children[n - 1], dead, fmt) {
            before
        } else {
            before + statement_deleted(
                program.children[n - 1],
                dead,
                fmt,
                by_symbol,
                program.children[n - 1].children.len() as int,
            )
        }
    }
}

/// The identifiers of the definitions that shaking deletes, in source
/// order.
pub open spec fn deleted_definitions(program: NodeView, dead: Seq<Seq<char>>, fmt: FormatView) -> Seq<
    Seq<char>,
> {
    deleted_definitions_upto(
        program,
        dead,
        fmt,
        uses_symbol(program, fmt),
        program.children.len() as int,
    )
}

/// The modules named by the bare calls that shaking deletes from the first
/// `n` top-level statements.
pub open spec fn deleted_calls_upto(program: NodeView, dead: Seq<Seq<char>>, fmt: FormatView, n: int) -> Seq<
    Seq<char>,
>
    decreases n,
{
    if n <= 0 || n > program.children.len() {
        seq![]
    } else {
        let before = deleted_calls_upto(program, dead, fmt, n - 1);
        if is_orphan(program.children[n - 1], dead, fmt) {
            before.push(bare_call(program.children[n - 1], fmt).unwrap())
        } else {
            before
        }
    }
}

/// The modules named by the bare calls that shaking deletes: the top-level
/// statements that load a module of `dead`, in source order.
pub open spec fn deleted_calls(program: NodeView, dead: Seq<Seq<char>>, fmt: FormatView) -> Seq<
    Seq<char>,
> {
    deleted_calls_upto(program, dead, fmt, program.children.len() as int)
}

/// What a shaking deleted.
#[derive(Debug)]
pub struct Deleted {
    /// The identifiers of the definitions deleted.
    pub definitions: Vec<String>,
    /// The modules named by the bare calls deleted.
    pub calls: Vec<String>,
}

/// The module that a bare load call names.
pub fn bare_call_target(stmt: &Node, fmt: &BundleFormat) -> (r: Option<String>)
    ensures
        r.is_some() == bare_call(stmt@, fmt@).is_some(),
        r matches Some(s) ==> bare_call(stmt@, fmt@) == Some(s@),
{
    proof {
        lemma_views(stmt.children@);
    }
    if stmt.kind == Kind::ExprStmt && stmt.children.len() == 1 {
        call_target(&stmt.children[0], fmt)
    } else {
        None
    }
}

/// Copies a modules table without the definitions of the modules in `dead`.
pub fn prune_table(table: &Node, dead: &Vec<String>, deleted: &mut Deleted) -> (out: Node)
    ensures
        out@ == pruned_table(table@, texts(dead@)),
        texts(final(deleted).definitions@) == texts(old(deleted).definitions@) + pruned_ids(
            table@.children,
            texts(dead@),
        ),
        final(deleted).calls == old(deleted).calls,
{
    let ghost all = views(table.children@);
    let ghost start = texts(deleted.definitions@);
    let mut children: Vec<Node> = Vec::new();
    let mut i: usize = 0;
    proof {
        lemma_views(table.children@);
        lemma_views(children@);
        assert(all.subrange(0, 0) =~= seq![]);
        assert(views(children@) =~= seq![]);
        assert(start + seq![] =~= start);
    }
    while i < table.children.len()
        invariant
            i <= table.children@.len(),
            all == views(table.children@),
            all.len() == table.children@.len(),
            views(children@) == pruned(all.subrange(0, i as int), texts(dead@)),
            texts(deleted.definitions@) == start + pruned_ids(
                all.subrange(0, i as int),
                texts(dead@),
            ),
            deleted.calls == old(deleted).calls,
        decreases table.children@.len() - i,
    {
        let prop = &table.children[i];
        proof {
            lemma_views(table.children@);
            let prefix = all.subrange(0, i + 1);
            assert(prefix.drop_last() =~= all.subrange(0, i as int));
            assert(prefix.last() == prop@);
        }
        let mut keep = true;
        match property_id(prop) {
            Some(id) => {
                if has_text(dead, &id) {
                    keep = false;
                    proof {
                        lemma_texts_push(deleted.definitions@, id);
                        let done = pruned_ids(all.subrange(0, i as int), texts(dead@));
                        assert((start + done).push(id@) =~= start + done.push(id@));
                    }
                    deleted.definitions.push(id);
                }
            },
            None => {},
        }
        if keep {
            let c = prop.clone();
            proof {
                lemma_views_push(children@, c);
            }
            children.push(c);
        }
        i += 1;
    }
    assert(all.subrange(0, i as int) =~= all);
    Node {
        category: table.category,
        kind: table.kind,
        span: table.span,
        text: table.text.clone(),
        bits: table.bits,
        children,
    }
}

/// A copy of `n` with other children.
fn with_children(n: &Node, children: Vec<Node>) -> (out: Node)
    ensures
        out@ == (NodeView { children: views(children@), ..n@ }),
{
    Node {
        category: n.category,
        kind: n.kind,
        span: n.span,
        text: n.text.clone(),
        bits: n.bits,
        children,
    }
}

/// Shakes a top-level position.
fn shake_position(
    x: &Node,
    dead: &Vec<String>,
    fmt: &BundleFormat,
    by_symbol: bool,
    deleted: &mut Deleted,
) -> (out: Node)
    ensures
        out@ == shaken_position(x@, texts(dead@), fmt@, by_symbol),
        texts(final(deleted).definitions@) == texts(old(deleted).definitions@) + (match table_in(
            x@,
            fmt@,
            by_symbol,
        ) {
            Some(o) => pruned_ids(o.children, texts(dead@)),
            None => seq![],
        }),
        final(deleted).calls == old(deleted).calls,
{
    proof {
        lemma_views(x.children@);
    }
    match position_table(x, fmt, by_symbol) {
        None => {
            assert(texts(deleted.definitions@) + seq![] =~= texts(deleted.definitions@));
            x.clone()
        },
        Some(table) => {
            let pruned = prune_table(table, dead, deleted);
            let value = position_value(x);
            proof {
                lemma_views(value.children@);
            }
            let new_value = if value.kind == Kind::Object {
                pruned
            } else {
                let mut one: Vec<Node> = Vec::new();
                one.push(pruned);
                proof {
                    lemma_views(one@);
                    assert(views(one@) =~= seq![pruned@]);
                }
                with_children(value, one)
            };
            if binding(x) {
                let mut two: Vec<Node> = Vec::new();
                two.push(x.children[0].clone());
                two.push(new_value);
                proof {
                    lemma_views(two@);
                    assert(views(two@) =~= x@.children.update(1, new_value@));
                }
                with_children(x, two)
            } else {
                new_value
            }
        },
    }
}

/// Shakes a top-level statement.
fn shake_statement(
    s: &Node,
    dead: &Vec<String>,
    fmt: &BundleFormat,
    by_symbol: bool,
    deleted: &mut Deleted,
) -> (out: Node)
    ensures
        out@ == shaken_statement(s@, texts(dead@), fmt@, by_symbol),
        texts(final(deleted).definitions@) == texts(old(deleted).definitions@)
            + statement_deleted(s@, texts(dead@), fmt@, by_symbol, s@.children.len() as int),
        final(deleted).calls == old(deleted).calls,
{
    let ghost d = texts(dead@);
    let ghost start = texts(deleted.definitions@);
    let ghost want = shaken_statement(s@, d, fmt@, by_symbol).children;
    let mut children: Vec<Node> = Vec::new();
    let mut i: usize = 0;
    proof {
        lemma_views(s.children@);
        lemma_views(children@);
        assert(views(children@) =~= want.subrange(0, 0));
        assert(start + seq![] =~= start);
    }
    while i < s.children.len()
        invariant
            i <= s.children@.len(),
            d == texts(dead@),
            s@.children.len() == s.children@.len(),
            want == shaken_statement(s@, d, fmt@, by_symbol).children,
            views(children@) == want.subrange(0, i as int),
            texts(deleted.definitions@) == start + statement_deleted(
                s@,
                d,
                fmt@,
                by_symbol,
                i as int,
            ),
            deleted.calls == old(deleted).calls,
        decreases s.children@.len() - i,
    {
        let ghost done = statement_deleted(s@, d, fmt@, by_symbol, i as int);
        proof {
            lemma_views(s.children@);
        }
        let c = if holds_position(s, i) {
            let c = shake_position(&s.children[i], dead, fmt, by_symbol, deleted);
            proof {
                let more = match table_in(s@.children[i as int], fmt@, by_symbol) {
                    Some(o) => pruned_ids(o.children, d),
                    None => seq![],
                };
                assert((start + done) + more =~= start + (done + more));
                assert(done + seq![] =~= done);
            }
            c
        } else {
            s.children[i].clone()
        };
        proof {
            lemma_views_push(children@, c);
            assert(want.subrange(0, i as int).push(c@) =~= want.subrange(0, i + 1));
        }
        children.push(c);
        i += 1;
    }
    assert(want.subrange(0, i as int) =~= want);
    with_children(s, children)
}

/// Shakes a unit: gives the unit without the definitions of the modules in
/// `dead` and without the top-level bare calls that load them, and records
/// in `deleted` what was left out.
pub fn shake_tree(program: &Node, dead: &Vec<String>, fmt: &BundleFormat, deleted: &mut Deleted) -> (out:
    Node)
    ensures
        out@ == shaken(program@, texts(dead@), fmt@),
        texts(final(deleted).definitions@) == texts(old(deleted).definitions@)
            + deleted_definitions(program@, texts(dead@), fmt@),
        texts(final(deleted).calls@) == texts(old(deleted).calls@) + deleted_calls(
            program@,
            texts(dead@),
            fmt@,
        ),
{
    let ghost d = texts(dead@);
    let ghost p = program@;
    let ghost start_defs = texts(deleted.definitions@);
    let ghost start_calls = texts(deleted.calls@);
    let by_symbol = unit_uses_symbol(program, fmt);
    let mut children: Vec<Node> = Vec::new();
    let mut k: usize = 0;
    proof {
        lemma_views(program.children@);
        lemma_views(children@);
        assert(views(children@) =~= seq![]);
        assert(start_defs + seq![] =~= start_defs);
        assert(start_calls + seq![] =~= start_calls);
    }
    while k < program.children.len()
        invariant
            k <= program.children@.len(),
            d == texts(dead@),
            p == program@,
            p.children.len() == program.children@.len(),
            views(children@) == shaken_upto(p, d, fmt@, by_symbol, k as int),
            texts(deleted.definitions@) == start_defs + deleted_definitions_upto(
                p,
                d,
                fmt@,
                by_symbol,
                k as int,
            ),
            texts(deleted.calls@) == start_calls + deleted_calls_upto(p, d, fmt@, k as int),
        decreases program.children@.len() - k,
    {
        let s = &program.children[k];
        let ghost done_defs = deleted_definitions_upto(p, d, fmt@, by_symbol, k as int);
        let ghost done_calls = deleted_calls_upto(p, d, fmt@, k as int);
        proof {
            lemma_views(program.children@);
        }
        let mut orphan: Option<String> = None;
        match bare_call_target(s, fmt) {
            Some(id) => {
                if has_text(dead, &id) {
                    orphan = Some(id);
                }
            },
            None => {},
        }
        match orphan {
            Some(id) => {
                proof {
                    lemma_texts_push(deleted.calls@, id);
                    assert((start_calls + done_calls).push(id@) =~= start_calls + done_calls.push(
                        id@,
                    ));
                }
                deleted.calls.push(id);
            },
            None => {
                let c = shake_statement(s, dead, fmt, by_symbol, deleted);
                proof {
                    lemma_views_push(children@, c);
                    let more = statement_deleted(s@, d, fmt@, by_symbol, s@.children.len() as int);
                    assert((start_defs + done_defs) + more =~= start_defs + (done_defs + more));
                }
                children.push(c);
            },
        }
        k += 1;
    }
    with_children(program, children)
}

/// The module that a node assigns the loaded value of: the node is a
/// declarator or an assignment whose value is a call of the load function.
pub open spec fn assigned_load(n: NodeView, fmt: FormatView) -> Option<Seq<char>> {
    if (n.kind == Kind::Declarator || n.kind == Kind::Assign) && n.children.len() == 2 {
        load_target(n.children[1], fmt)
    } else {
        None
    }
}

/// The modules whose loaded value is assigned somewhere within `n`, in
/// source order.
pub open spec fn assigned_loads(n: NodeView, fmt: FormatView) -> Seq<Seq<char>>
    decreases n, 1int,
{
    let own = match assigned_load(n, fmt) {
        Some(id) => seq![id],
        None => seq![],
    };
    own + assigned_loads_all(n.children, fmt)
}

/// The modules whose loaded value is assigned somewhere within a sequence
/// of nodes.
pub open spec fn assigned_loads_all(nodes: Seq<NodeView>, fmt: FormatView) -> Seq<Seq<char>>
    decreases nodes, 0int,
{
    if nodes.len() == 0 {
        seq![]
    } else {
        assigned_loads_all(nodes.drop_last(), fmt) + assigned_loads(nodes.last(), fmt)
    }
}

/// The members of `list` that are not in `held`, in order.
pub open spec fn released(list: Seq<Seq<char>>, held: Seq<Seq<char>>) -> Seq<Seq<char>>
    decreases list.len(),
{
    if list.len() == 0 {
        seq![]
    } else if held.contains(list.last()) {
        released(list.drop_last(), held)
    } else {
        released(list.drop_last(), held).push(list.last())
    }
}

/// Appends the modules whose loaded value is assigned somewhere within `n`.
pub fn collect_assigned_loads(n: &Node, fmt: &BundleFormat, out: &mut Vec<String>)
    ensures
        texts(final(out)@) == texts(old(out)@) + assigned_loads(n@, fmt@),
    decreases n,
{
    let ghost start = texts(out@);
    proof {
        lemma_views(n.children@);
    }
    if (n.kind == Kind::Declarator || n.kind == Kind::Assign) && n.children.len() == 2 {
        match call_target(&n.children[1], fmt) {
            Some(id) => {
                proof {
                    lemma_texts_push(out@, id);
                }
                out.push(id);
            },
            None => {},
        }
    }
    let ghost own = texts(out@);
    let ghost all = views(n.children@);
    let mut i: usize = 0;
    proof {
        assert(all.subrange(0, 0) =~= seq![]);
        assert(own + seq![] =~= own);
    }
    while i < n.children.len()
        invariant
            i <= n.children@.len(),
            all == views(n.children@),
            all.len() == n.children@.len(),
            texts(out@) == own + assigned_loads_all(all.subrange(0, i as int), fmt@),
        decreases n.children@.len() - i,
    {
        proof {
            lemma_views(n.children@);
            let prefix = all.subrange(0, i + 1);
            assert(prefix.drop_last() =~= all.subrange(0, i as int));
            assert(prefix.last() == n.children@[i as int]@);
        }
        collect_assigned_loads(&n.children[i], fmt, out);
        proof {
            let done = assigned_loads_all(all.subrange(0, i as int), fmt@);
            let next = assigned_loads(n.children@[i as int]@, fmt@);
            assert((own + done) + next =~= own + (done + next));
        }
        i += 1;
    }
    proof {
        assert(all.subrange(0, i as int) =~= all);
        let own_part = match assigned_load(n@, fmt@) {
            Some(id) => seq![id],
            None => seq![],
        };
        assert(own =~= start + own_part);
        assert((start + own_part) + assigned_loads_all(all, fmt@) =~= start + (own_part
            + assigned_loads_all(all, fmt@)));
    }
}

/// The modules of `unused_modules` whose loaded value is assigned nowhere
/// in the unit. A more cautious shaker deletes only these.
pub fn get_safely_removable_modules(
    program: &Node,
    unused_modules: &Vec<String>,
    fmt: &BundleFormat,
) -> (out: Vec<String>)
    ensures
        texts(out@) == released(texts(unused_modules@), assigned_loads(program@, fmt@)),
{
    let mut held: Vec<String> = Vec::new();
    assert(texts(held@) =~= seq![]);
    collect_assigned_loads(program, fmt, &mut held);
    assert(seq![] + assigned_loads(program@, fmt@) =~= assigned_loads(program@, fmt@));
    let ghost all = texts(unused_modules@);
    let mut out: Vec<String> = Vec::new();
    let mut i: usize = 0;
    assert(texts(out@) =~= seq![]);
    assert(all.subrange(0, 0) =~= seq![]);
    while i < unused_modules.len()
        invariant
            i <= unused_modules@.len(),
            all == texts(unused_modules@),
            texts(held@) == assigned_loads(program@, fmt@),
            texts(out@) == released(all.subrange(0, i as int), texts(held@)),
        decreases unused_modules@.len() - i,
    {
        let ghost prefix = all.subrange(0, i + 1);
        assert(prefix.drop_last() =~= all.subrange(0, i as int));
        assert(prefix.last() == unused_modules@[i as int]@);
        if !has_text(&held, &unused_modules[i]) {
            let id = unused_modules[i].clone();
            proof {
                lemma_texts_push(out@, id);
            }
            out.push(id);
        }
        i += 1;
    }
    assert(all.subrange(0, i as int) =~= all);
    out
}

/// Figures about one shaking.
#[derive(Debug)]
pub struct WebpackTreeShakingStats {
    pub total_modules: usize,
    pub used_modules: usize,
    pub unused_modules: usize,
    pub entry_modules: usize,
    pub unused_module_ids: Vec<String>,
    pub removed_bare_calls: usize,
}

pub ghost struct StatsView {
    pub total_modules: nat,
    pub used_modules: nat,
    pub unused_modules: nat,
    pub entry_modules: nat,
    pub unused_module_ids: Seq<Seq<char>>,
    pub removed_bare_calls: nat,
}

impl View for WebpackTreeShakingStats {
    type V = StatsView;

    open spec fn view(&self) -> StatsView {
        StatsView {
            total_modules: self.total_modules as nat,
            used_modules: self.used_modules as nat,
            unused_modules: self.unused_modules as nat,
            entry_modules: self.entry_modules as nat,
            unused_module_ids: texts(self.unused_module_ids@),
            removed_bare_calls: self.removed_bare_calls as nat,
        }
    }
}

impl WebpackTreeShakingStats {
    /// The share of the modules that are unused, in hundredths of a per
    /// cent, rounded down. Zero where there is no module.
    pub fn removal_rate_bp(&self) -> (r: u128)
        ensures
            self.total_modules == 0 ==> r == 0,
            self.total_modules > 0 ==> r == (self.unused_modules as int * 10000)
                / self.total_modules as int,
    {
        if self.total_modules == 0 {
            0
        } else {
            ((self.unused_modules as u128) * 10000) / (self.total_modules as u128)
        }
    }
}

/// A shaker that works on the syntax tree of a bundle.
#[derive(Debug)]
pub struct WebpackModuleTreeShaker {
    /// Whether the last shaking deleted anything.
    pub changed: bool,
    /// The graph to shake by. Where there is none, the shaker analyses the
    /// unit itself.
    pub module_graph: Option<crate::webpack_module_graph::WebpackModuleGraph>,
    /// What the last shaking deleted.
    pub deleted: Deleted,
}

impl WebpackModuleTreeShaker {
    pub fn new() -> (s: WebpackModuleTreeShaker)
        ensures
            !s.changed,
            s.module_graph is None,
            s.deleted.definitions@.len() == 0,
            s.deleted.calls@.len() == 0,
    {
        WebpackModuleTreeShaker {
            changed: false,
            module_graph: None,
            deleted: Deleted { definitions: Vec::new(), calls: Vec::new() },
        }
    }

/// Whether the last shaking deleted anything.
    pub fn has_changed(&self) -> (b: bool)
        ensures
            b == self.changed,
    {
        self.changed
    }

/// Sets the graph to shake by.
    pub fn set_module_graph(&mut self, module_graph: crate::webpack_module_graph::WebpackModuleGraph)
        ensures
            final(self).module_graph == Some(module_graph),
            final(self).changed == old(self).changed,
            final(self).deleted == old(self).deleted,
    {
        self.module_graph = Some(module_graph);
    }

    /// Analyses a unit and keeps its graph to shake by.
    pub fn analyze(&mut self, program: &Node)
        ensures
            final(self).module_graph matches Some(g) && g@
                == crate::webpack_module_graph::hydrated(program@, BundleFormat::standard()),
            final(self).changed == old(self).changed,
            final(self).deleted == old(self).deleted,
    {
        let mut graph = crate::webpack_module_graph::WebpackModuleGraph::new();
        graph.hydrate_module_graph_from_chunk(program);
        self.module_graph = Some(graph);
    }

    /// The figures of the graph and of the last shaking. All zero where
    /// there is no graph.
    pub fn get_stats(&self) -> (stats: WebpackTreeShakingStats)
        ensures
            match self.module_graph {
                Some(g) => stats@ == (StatsView {
                    total_modules: g@.modules.len(),
                    used_modules: g@.reachable_modules.len(),
                    unused_modules: g@.unused_modules().len(),
                    entry_modules: g@.entry_modules.len(),
                    unused_module_ids: g@.unused_modules(),
                    removed_bare_calls: self.deleted.calls@.len(),
                }),
                None => stats@ == (StatsView {
                    total_modules: 0,
                    used_modules: 0,
                    unused_modules: 0,
                    entry_modules: 0,
                    unused_module_ids: seq![],
                    removed_bare_calls: self.deleted.calls@.len(),
                }),
            },
    {
        match &self.module_graph {
            Some(g) => {
                let unused = g.get_unused_modules();
                WebpackTreeShakingStats {
                    total_modules: g.modules.len(),
                    used_modules: g.reachable_modules.len(),
                    unused_modules: unused.len(),
                    entry_modules: g.entry_modules.len(),
                    unused_module_ids: unused,
                    removed_bare_calls: self.deleted.calls.len(),
                }
            },
            None => {
                let none: Vec<String> = Vec::new();
                assert(texts(none@) =~= seq![]);
                WebpackTreeShakingStats {
                    total_modules: 0,
                    used_modules: 0,
                    unused_modules: 0,
                    entry_modules: 0,
                    unused_module_ids: none,
                    removed_bare_calls: self.deleted.calls.len(),
                }
            },
        }
    }

    /// Shakes a unit in place, by the graph that was set or, where none was
    /// set, by the graph of the unit itself, which the shaker keeps.
    pub fn visit_mut_program(&mut self, program: &mut Node)
        ensures
            final(self).module_graph matches Some(g) && (match old(self).module_graph {
                Some(g0) => g == g0,
                None => g@ == crate::webpack_module_graph::hydrated(
                    old(program)@,
                    BundleFormat::standard(),
                ),
            }) && final(program)@ == shaken(old(program)@, g@.unused_modules(), g@.format)
                && texts(final(self).deleted.definitions@) == deleted_definitions(
                old(program)@,
                g@.unused_modules(),
                g@.format,
            ) && texts(final(self).deleted.calls@) == deleted_calls(
                old(program)@,
                g@.unused_modules(),
                g@.format,
            ),
            final(self).changed == (final(self).deleted.definitions@.len() > 0
                || final(self).deleted.calls@.len() > 0),
    {
        if self.module_graph.is_none() {
            self.analyze(program);
        }
        let mut deleted = Deleted { definitions: Vec::new(), calls: Vec::new() };
        assert(texts(deleted.definitions@) =~= seq![]);
        assert(texts(deleted.calls@) =~= seq![]);
        let out = match &self.module_graph {
            Some(g) => {
                let unused = g.get_unused_modules();
                let out = shake_tree(program, &unused, &g.format, &mut deleted);
                proof {
                    let d = deleted_definitions(program@, g@.unused_modules(), g@.format);
                    let c = deleted_calls(program@, g@.unused_modules(), g@.format);
                    assert(seq![] + d =~= d);
                    assert(seq![] + c =~= c);
                }
                out
            },
            None => program.clone(),
        };
        self.changed = deleted.definitions.len() > 0 || deleted.calls.len() > 0;
        self.deleted = deleted;
        *program = out;
    }
}

/// The unit after it was shaken by its own graph, for a bundle with the
/// standard names.
pub open spec fn shaken_unit(program: NodeView) -> NodeView {
    let g = crate::webpack_module_graph::hydrated(program, BundleFormat::standard());
    shaken(program, g.unused_modules(), g.format)
}

/// The figures of shaking a unit by its own graph.
pub open spec fn shaking_stats(program: NodeView) -> StatsView {
    let g = crate::webpack_module_graph::hydrated(program, BundleFormat::standard());
    StatsView {
        total_modules: g.modules.len(),
        used_modules: g.reachable_modules.len(),
        unused_modules: g.unused_modules().len(),
        entry_modules: g.entry_modules.len(),
        unused_module_ids: g.unused_modules(),
        removed_bare_calls: deleted_calls(program, g.unused_modules(), g.format).len(),
    }
}

/// Analyses a unit and shakes it in place. Gives the figures of the
/// shaking.
pub fn perform_webpack_tree_shaking(program: &mut Node) -> (stats: WebpackTreeShakingStats)
    ensures
        final(program)@ == shaken_unit(old(program)@),
        stats@ == shaking_stats(old(program)@),
{
    let mut shaker = WebpackModuleTreeShaker::new();
    shaker.visit_mut_program(program);
    shaker.get_stats()
}

impl Default for WebpackModuleTreeShaker {
    fn default() -> (s: WebpackModuleTreeShaker)
        ensures
            !s.changed,
            s.module_graph is None,
            s.deleted.definitions@.len() == 0,
            s.deleted.calls@.len() == 0,
    {
        WebpackModuleTreeShaker::new()
    }
}

} // verus!
