//! The conditional transformer: it deletes what lies within a range whose
//! condition is false, and replaces the expressions that value directives
//! point at.

use vstd::prelude::*;
use crate::ast::{lemma_views, lemma_views_push, views, Category, Kind, Node, NodeView};
use crate::directive::{
    directive_views, pair_directives, pair_spec, sort_by_pos, Directive, DirectiveError,
    DirectiveErrorView, DirectiveView,
};
use crate::json::{condition_spec, query_spec, Json, JsonView};
use crate::macro_parser::{macro_views, MacroNode, MacroNodeView};
use crate::meta_data::{literal, render, text_literal};
use crate::span::Span;

verus! {

/// The remove-list and the replace-list of one pass.
pub struct RemoveReplaceTransformer {
    /// The ranges to delete. A node is deleted if one of them contains it.
    pub remove_list: Vec<Span>,
    /// Positions and the literals to put there. An expression is replaced if
    /// it starts at the position of an entry; the first such entry counts.
    pub replace_expr_list: Vec<(u32, Node)>,
}

/// The two lists as plain values.
pub ghost struct Lists {
    pub remove: Seq<Span>,
    pub replace: Seq<(u32, NodeView)>,
}

/// The positions and values of a replace-list.
pub open spec fn replace_views(list: Seq<(u32, Node)>) -> Seq<(u32, NodeView)> {
    Seq::new(list.len(), |i: int| (list[i].0, list[i].1@))
}

impl View for RemoveReplaceTransformer {
    type V = Lists;

    open spec fn view(&self) -> Lists {
        Lists { remove: self.remove_list@, replace: replace_views(self.replace_expr_list@) }
    }
}

/// The lists that a sequence of directives amounts to under a metadata
/// document: the range of every conditional whose condition is false, and
/// for every value directive its position with the literal of the value at
/// its path, or, where the path is absent, the string literal of its
/// default. The first value directive with neither fails.
pub open spec fn evaluate_spec(meta: JsonView, directives: Seq<DirectiveView>) -> Result<
    Lists,
    DirectiveErrorView,
>
    decreases directives.len(),
{
    if directives.len() == 0 {
        Ok(Lists { remove: seq![], replace: seq![] })
    } else {
        match evaluate_spec(meta, directives.drop_last()) {
            Err(e) => Err(e),
            Ok(lists) => match directives.last() {
                DirectiveView::If { range, condition } => {
                    if condition_spec(meta, condition) {
                        Ok(lists)
                    } else {
                        Ok(Lists { remove: lists.remove.push(range), ..lists })
                    }
                },
                DirectiveView::DefineInline { pos, value, default } => {
                    match query_spec(meta, value) {
                        Some(v) => Ok(
                            Lists { replace: lists.replace.push((pos, literal(v))), ..lists },
                        ),
                        None => match default {
                            Some(d) => Ok(
                                Lists {
                                    replace: lists.replace.push(
                                        (pos, text_literal(Category::Expr, d)),
                                    ),
                                    ..lists
                                },
                            ),
                            None => Err(
                                DirectiveErrorView::UnresolvedValueInline { pos, path: value },
                            ),
                        },
                    }
                },
            },
        }
    }
}

/// A failure on a prefix of the directives is the failure of the whole.
pub proof fn lemma_evaluate_failure(meta: JsonView, directives: Seq<DirectiveView>, n: int)
    requires
        0 <= n <= directives.len(),
        evaluate_spec(meta, directives.subrange(0, n)) is Err,
    ensures
        evaluate_spec(meta, directives) == evaluate_spec(meta, directives.subrange(0, n)),
    decreases directives.len() - n,
{
    if n < directives.len() {
        let next = directives.subrange(0, n + 1);
        assert(next.drop_last() =~= directives.subrange(0, n));
        lemma_evaluate_failure(meta, directives, n + 1);
    } else {
        assert(directives.subrange(0, n) =~= directives);
    }
}

/// What a list of annotations amounts to under a metadata document: they
/// are ordered by position, paired, and evaluated.
pub open spec fn transform_spec(meta: JsonView, macros: Seq<(u32, MacroNodeView)>) -> Result<
    Lists,
    DirectiveErrorView,
> {
    match pair_spec(sort_by_pos(macros)) {
        Err(e) => Err(e),
        Ok(directives) => evaluate_spec(meta, directives),
    }
}

/// Evaluates the directives against the metadata.
pub fn evaluate_directives(meta: &Json, directives: &Vec<Directive>) -> (r: Result<
    RemoveReplaceTransformer,
    DirectiveError,
>)
    ensures
        match r {
            Ok(t) => evaluate_spec(meta@, directive_views(directives@)) == Ok::<
                Lists,
                DirectiveErrorView,
            >(t@),
            Err(e) => evaluate_spec(meta@, directive_views(directives@)) == Err::<
                Lists,
                DirectiveErrorView,
            >(e@),
        },
{
    let ghost all = directive_views(directives@);
    let mut remove_list: Vec<Span> = Vec::new();
    let mut replace_expr_list: Vec<(u32, Node)> = Vec::new();
    let mut i: usize = 0;
    assert(all.subrange(0, 0) =~= seq![]);
    assert(replace_views(replace_expr_list@) =~= seq![]);
    while i < directives.len()
        invariant
            i <= directives@.len(),
            all == directive_views(directives@),
            evaluate_spec(meta@, all.subrange(0, i as int)) == Ok::<Lists, DirectiveErrorView>(
                Lists { remove: remove_list@, replace: replace_views(replace_expr_list@) },
            ),
        decreases directives@.len() - i,
    {
        let ghost prefix = all.subrange(0, i + 1);
        proof {
            assert(prefix.drop_last() =~= all.subrange(0, i as int));
            assert(prefix.last() == directives@[i as int]@);
        }
        match &directives[i] {
            Directive::If(d) => {
                if !meta.evaluate_bool(d.condition.as_str()) {
                    remove_list.push(d.range);
                }
            },
            Directive::DefineInline(d) => {
                let replacement = match meta.query(d.value.as_str()) {
                    Some(v) => render(v),
                    None => match &d.default {
                        Some(s) => Node::leaf(
                            Category::Expr,
                            Kind::Str,
                            Span::dummy(),
                            s.clone(),
                            0,
                        ),
                        None => {
                            proof {
                                lemma_evaluate_failure(meta@, all, i + 1);
                            }
                            return Err(
                                DirectiveError::UnresolvedValueInline {
                                    pos: d.pos,
                                    path: d.value.clone(),
                                },
                            );
                        },
                    },
                };
                let entry = (d.pos, replacement);
                assert(replace_views(replace_expr_list@.push(entry)) =~= replace_views(
                    replace_expr_list@,
                ).push((d.pos, replacement@)));
                replace_expr_list.push(entry);
            },
        }
        i += 1;
    }
    assert(all.subrange(0, i as int) =~= all);
    Ok(RemoveReplaceTransformer { remove_list, replace_expr_list })
}

/// Turns the annotations of a unit into the lists of the pass, or says why
/// they cannot be applied.
pub fn condition_transform(meta_data: Json, macros: Vec<(u32, MacroNode)>) -> (r: Result<
    RemoveReplaceTransformer,
    DirectiveError,
>)
    ensures
        match r {
            Ok(t) => transform_spec(meta_data@, macro_views(macros@)) == Ok::<
                Lists,
                DirectiveErrorView,
            >(t@),
            Err(e) => transform_spec(meta_data@, macro_views(macros@)) == Err::<
                Lists,
                DirectiveErrorView,
            >(e@),
        },
{
    match pair_directives(&macros) {
        Err(e) => Err(e),
        Ok(directives) => evaluate_directives(&meta_data, &directives),
    }
}

/// Whether one of the ranges contains `span`.
pub open spec fn in_removed(remove: Seq<Span>, span: Span) -> bool {
    exists|i: int| 0 <= i < remove.len() && (#[trigger] remove[i]).covers(span)
}

/// The index of the first entry at or after `from` whose key is `pos`, or
/// the length of the list.
pub open spec fn replacement_index(replace: Seq<(u32, NodeView)>, pos: u32, from: int) -> int
    decreases replace.len() - from,
{
    if from < 0 || from >= replace.len() {
        replace.len() as int
    } else if replace[from].0 == pos {
        from
    } else {
        replacement_index(replace, pos, from + 1)
    }
}

/// The literal that the replace-list holds for `pos`.
pub open spec fn replacement(replace: Seq<(u32, NodeView)>, pos: u32) -> Option<NodeView> {
    let i = replacement_index(replace, pos, 0);
    if 0 <= i < replace.len() {
        Some(replace[i].1)
    } else {
        None
    }
}

/// Whether nodes of this category can be deleted: module items, statements
/// and expressions.
pub open spec fn is_removable(category: Category) -> bool {
    category != Category::Part
}

/// Whether nodes of this category are statements or module items.
pub open spec fn is_statement(category: Category) -> bool {
    category == Category::Stmt || category == Category::ModuleItem
}

/// Whether the children of a node of this kind form an ordered sequence of
/// statements, out of which a statement can be taken.
pub open spec fn is_sequence(kind: Kind) -> bool {
    kind == Kind::Program || kind == Kind::Block
}

/// What the transformer does at a node.
pub ghost enum Action {
    /// The node is deleted.
    Remove,
    /// The node is replaced by this literal.
    Replace(NodeView),
    /// The node stays and its children are visited.
    Descend,
}

/// The rule that fires at a node of the given category and range. Deletion
/// comes first; replacement applies to expressions only.
pub open spec fn decide(lists: Lists, category: Category, span: Span) -> Action {
    if is_removable(category) && in_removed(lists.remove, span) {
        Action::Remove
    } else if category == Category::Expr && replacement(lists.replace, span.lo) is Some {
        Action::Replace(replacement(lists.replace, span.lo).unwrap())
    } else {
        Action::Descend
    }
}

/// The node that stands in the place of `n` after the pass. A deleted
/// expression leaves the literal `null`; a deleted statement that is not
/// part of a sequence leaves the empty statement.
pub open spec fn rewrite(lists: Lists, n: NodeView) -> NodeView
    decreases n, 1int,
{
    match decide(lists, n.category, n.span) {
        Action::Remove => if n.category == Category::Expr {
            NodeView::null()
        } else {
            NodeView::empty_stmt(n.category)
        },
        Action::Replace(r) => r,
        Action::Descend => NodeView {
            children: rewrite_all(lists, n.children, is_sequence(n.kind)),
            ..n
        },
    }
}

/// The children of a node after the pass. In a sequence, deleted statements
/// are left out and the sequence shrinks.
pub open spec fn rewrite_all(lists: Lists, nodes: Seq<NodeView>, sequence: bool) -> Seq<NodeView>
    decreases nodes, 0int,
{
    if nodes.len() == 0 {
        seq![]
    } else {
        let before = rewrite_all(lists, nodes.drop_last(), sequence);
        let n = nodes.last();
        if sequence && is_statement(n.category) && in_removed(lists.remove, n.span) {
            before
        } else {
            before.push(rewrite(lists, n))
        }
    }
}

/// The result of a decision, with the literal borrowed from the
/// replace-list.
pub enum Decision<'a> {
    Remove,
    Replace(&'a Node),
    Descend,
}

impl<'a> View for Decision<'a> {
    type V = Action;

    open spec fn view(&self) -> Action {
        match self {
            Decision::Remove => Action::Remove,
            Decision::Replace(n) => Action::Replace(n@),
            Decision::Descend => Action::Descend,
        }
    }
}

impl RemoveReplaceTransformer {
    /// Whether a range of the remove-list contains `span`.
    pub fn is_removed(&self, span: Span) -> (b: bool)
        ensures
            b == in_removed(self@.remove, span),
    {
        let mut i: usize = 0;
        while i < self.remove_list.len()
            invariant
                i <= self.remove_list@.len(),
                forall|k: int| 0 <= k < i ==> !(#[trigger] self.remove_list@[k]).covers(span),
            decreases self.remove_list@.len() - i,
        {
            if self.remove_list[i].contains(span) {
                return true;
            }
            i += 1;
        }
        false
    }

    /// The literal to put in the place of an expression that starts at
    /// `pos`.
    pub fn find_replacement(&self, pos: u32) -> (r: Option<&Node>)
        ensures
            r.is_some() == replacement(self@.replace, pos).is_some(),
            r matches Some(n) ==> replacement(self@.replace, pos) == Some(n@),
    {
        let mut i: usize = 0;
        while i < self.replace_expr_list.len()
            invariant
                i <= self.replace_expr_list@.len(),
                replacement_index(self@.replace, pos, 0) == replacement_index(
                    self@.replace,
                    pos,
                    i as int,
                ),
            decreases self.replace_expr_list@.len() - i,
        {
            if self.replace_expr_list[i].0 == pos {
                return Some(&self.replace_expr_list[i].1);
            }
            i += 1;
        }
        None
    }

    /// The rule that fires at a node of the given category and range.
    pub fn decide(&self, category: Category, span: Span) -> (d: Decision<'_>)
        ensures
            d@ == decide(self@, category, span),
    {
        if category != Category::Part && self.is_removed(span) {
            return Decision::Remove;
        }
        if category == Category::Expr {
            match self.find_replacement(span.lo) {
                Some(n) => {
                    return Decision::Replace(n);
                },
                None => {},
            }
        }
        Decision::Descend
    }

    /// Applies the pass to a node and everything below it.
    pub fn rewrite(&self, node: &Node) -> (out: Node)
        ensures
            out@ == rewrite(self@, node@),
        decreases node,
    {
        match self.decide(node.category, node.span) {
            Decision::Remove => {
                if node.category == Category::Expr {
                    Node::null()
                } else {
                    Node::empty_stmt(node.category)
                }
            },
            Decision::Replace(r) => r.clone(),
            Decision::Descend => {
                let sequence = node.kind == Kind::Program || node.kind == Kind::Block;
                let ghost all = views(node.children@);
                let mut children: Vec<Node> = Vec::new();
                let mut i: usize = 0;
                proof {
                    lemma_views(node.children@);
                    lemma_views(children@);
                    assert(all.subrange(0, 0) =~= seq![]);
                    assert(views(children@) =~= seq![]);
                }
                while i < node.children.len()
                    invariant
                        i <= node.children@.len(),
                        all == views(node.children@),
                        all.len() == node.children@.len(),
                        sequence == is_sequence(node.kind),
                        views(children@) == rewrite_all(
                            self@,
                            all.subrange(0, i as int),
                            sequence,
                        ),
                    decreases node.children@.len() - i,
                {
                    let child = &node.children[i];
                    proof {
                        let prefix = all.subrange(0, i + 1);
                        lemma_views(node.children@);
                        assert(prefix.drop_last() =~= all.subrange(0, i as int));
                        assert(prefix.last() == child@);
                    }
                    let is_stmt = child.category == Category::Stmt || child.category
                        == Category::ModuleItem;
                    if !(sequence && is_stmt && self.is_removed(child.span)) {
                        let c = self.rewrite(child);
                        proof {
                            lemma_views_push(children@, c);
                        }
                        children.push(c);
                    }
                    i += 1;
                }
                assert(all.subrange(0, i as int) =~= all);
                Node {
                    category: node.category,
                    kind: node.kind,
                    span: node.span,
                    text: node.text.clone(),
                    bits: node.bits,
                    children,
                }
            },
        }
    }

    /// Applies the pass to an entry of the unit's top-level sequence, in
    /// place.
    pub fn visit_mut_module_item(&self, node: &mut Node)
        ensures
            final(node)@ == rewrite(self@, old(node)@),
    {
        let out = self.rewrite(node);
        *node = out;
    }

    /// Applies the pass to a statement, in place.
    pub fn visit_mut_stmt(&self, node: &mut Node)
        ensures
            final(node)@ == rewrite(self@, old(node)@),
    {
        let out = self.rewrite(node);
        *node = out;
    }

    /// Applies the pass to an expression, in place.
    pub fn visit_mut_expr(&self, node: &mut Node)
        ensures
            final(node)@ == rewrite(self@, old(node)@),
    {
        let out = self.rewrite(node);
        *node = out;
    }
}

/// With nothing to delete and nothing to replace, the pass leaves every
/// tree as it is.
pub proof fn lemma_rewrite_nothing(lists: Lists, n: NodeView)
    requires
        lists.remove.len() == 0,
        lists.replace.len() == 0,
    ensures
        rewrite(lists, n) == n,
    decreases n, 1int,
{
    lemma_rewrite_all_nothing(lists, n.children, is_sequence(n.kind));
}

/// With nothing to delete and nothing to replace, the pass leaves every
/// sequence of nodes as it is.
pub proof fn lemma_rewrite_all_nothing(lists: Lists, nodes: Seq<NodeView>, sequence: bool)
    requires
        lists.remove.len() == 0,
        lists.replace.len() == 0,
    ensures
        rewrite_all(lists, nodes, sequence) == nodes,
    decreases nodes, 0int,
{
    if nodes.len() > 0 {
        lemma_rewrite_all_nothing(lists, nodes.drop_last(), sequence);
        lemma_rewrite_nothing(lists, nodes.last());
        assert(nodes.drop_last().push(nodes.last()) =~= nodes);
    }
}

/// Nested conditionals: where an inner range lies within an outer one and
/// either of them is to be deleted, every node within the inner range is
/// deleted.
pub proof fn lemma_nesting_tolerance(
    lists: Lists,
    outer: Span,
    inner: Span,
    category: Category,
    span: Span,
)
    requires
        outer.covers(inner),
        inner.covers(span),
        is_removable(category),
        lists.remove.contains(outer) || lists.remove.contains(inner),
    ensures
        decide(lists, category, span) == Action::Remove,
{
    if lists.remove.contains(inner) {
        let i = choose|i: int| 0 <= i < lists.remove.len() && lists.remove[i] == inner;
        assert(lists.remove[i].covers(span));
    } else {
        let i = choose|i: int| 0 <= i < lists.remove.len() && lists.remove[i] == outer;
        assert(lists.remove[i].covers(span));
    }
}

/// The ranges to delete that the directives amount to; none where their
/// evaluation fails.
pub open spec fn removed_ranges(meta: JsonView, directives: Seq<DirectiveView>) -> Seq<Span> {
    match evaluate_spec(meta, directives) {
        Ok(lists) => lists.remove,
        Err(_) => seq![],
    }
}

/// The remove-list holds exactly the ranges of the conditionals whose
/// condition is false.
pub proof fn lemma_remove_list(meta: JsonView, directives: Seq<DirectiveView>, range: Span)
    requires
        evaluate_spec(meta, directives) is Ok,
    ensures
        removed_ranges(meta, directives).contains(range) <==> exists|i: int|
            0 <= i < directives.len() && (#[trigger] directives[i] matches DirectiveView::If {
                range: r,
                condition,
            } && r == range && !condition_spec(meta, condition)),
    decreases directives.len(),
{
    let listed = removed_ranges(meta, directives);
    if directives.len() > 0 {
        let front = directives.drop_last();
        lemma_remove_list(meta, front, range);
        let before = removed_ranges(meta, front);
        let falsy = |i: int|
            directives[i] matches DirectiveView::If { range: r, condition } && r == range
                && !condition_spec(meta, condition);
        if listed.contains(range) {
            let k = choose|k: int| 0 <= k < listed.len() && listed[k] == range;
            if k < before.len() {
                assert(before[k] == range);
                assert(before.contains(range));
                let i = choose|i: int|
                    0 <= i < front.len() && (#[trigger] front[i] matches DirectiveView::If {
                        range: r,
                        condition,
                    } && r == range && !condition_spec(meta, condition));
                assert(directives[i] == front[i]);
            } else {
                assert(falsy(directives.len() - 1));
            }
        }
        if exists|i: int|
            0 <= i < directives.len() && (#[trigger] directives[i] matches DirectiveView::If {
                range: r,
                condition,
            } && r == range && !condition_spec(meta, condition)) {
            let i = choose|i: int|
                0 <= i < directives.len() && (#[trigger] directives[i] matches DirectiveView::If {
                    range: r,
                    condition,
                } && r == range && !condition_spec(meta, condition));
            if i < front.len() {
                assert(front[i] == directives[i]);
                assert(before.contains(range));
                let k = choose|k: int| 0 <= k < before.len() && before[k] == range;
                assert(listed[k] == range);
            } else {
                assert(listed[listed.len() - 1] == range);
            }
        }
    }
}

/// Whether every node of a tree lies at the synthetic position.
pub open spec fn is_generated(n: NodeView) -> bool
    decreases n,
{
    n.span == Span::synthetic() && forall|i: int|
        0 <= i < n.children.len() ==> is_generated(#[trigger] n.children[i])
}

/// Whether the lists speak of real positions only: no range starts at the
/// synthetic position, no replacement is keyed by it, and every replacement
/// is a generated tree.
pub open spec fn is_grounded(lists: Lists) -> bool {
    &&& forall|i: int| 0 <= i < lists.remove.len() ==> (#[trigger] lists.remove[i]).lo > 0
    &&& forall|i: int|
        0 <= i < lists.replace.len() ==> (#[trigger] lists.replace[i]).0 > 0 && is_generated(
            lists.replace[i].1,
        )
}

/// The literal of a JSON value is a generated tree.
pub proof fn lemma_literal_is_generated(v: JsonView)
    ensures
        is_generated(literal(v)),
    decreases v,
{
    match v {
        JsonView::Array(items) => {
            assert forall|i: int| 0 <= i < items.len() implies is_generated(
                #[trigger] literal(v).children[i],
            ) by {
                lemma_literal_is_generated(items[i]);
            }
        },
        JsonView::Object(members) => {
            assert forall|i: int| 0 <= i < members.len() implies is_generated(
                #[trigger] literal(v).children[i],
            ) by {
                lemma_literal_is_generated(members[i].1);
                let m = literal(v).children[i];
                assert(m.children[0].children.len() == 0);
                assert(is_generated(m.children[0]));
                assert(is_generated(m.children[1]));
            }
        },
        _ => {},
    }
}

/// No key of grounded lists is the synthetic position.
proof fn lemma_no_replacement_at_zero(lists: Lists, from: int)
    requires
        is_grounded(lists),
        0 <= from,
    ensures
        replacement_index(lists.replace, 0, from) >= lists.replace.len(),
    decreases lists.replace.len() - from,
{
    if from < lists.replace.len() {
        lemma_no_replacement_at_zero(lists, from + 1);
    }
}

/// A pass with grounded lists leaves generated trees as they are.
pub proof fn lemma_generated_is_fixed(lists: Lists, n: NodeView)
    requires
        is_grounded(lists),
        is_generated(n),
    ensures
        rewrite(lists, n) == n,
    decreases n, 1int,
{
    lemma_no_replacement_at_zero(lists, 0);
    lemma_generated_all_fixed(lists, n.children, is_sequence(n.kind));
}

proof fn lemma_generated_all_fixed(lists: Lists, nodes: Seq<NodeView>, sequence: bool)
    requires
        is_grounded(lists),
        forall|i: int| 0 <= i < nodes.len() ==> is_generated(#[trigger] nodes[i]),
    ensures
        rewrite_all(lists, nodes, sequence) == nodes,
    decreases nodes, 0int,
{
    if nodes.len() > 0 {
        let front = nodes.drop_last();
        assert forall|i: int| 0 <= i < front.len() implies is_generated(#[trigger] front[i]) by {
            assert(front[i] == nodes[i]);
        }
        lemma_generated_all_fixed(lists, front, sequence);
        assert(is_generated(nodes[nodes.len() - 1]));
        lemma_generated_is_fixed(lists, nodes.last());
        assert(front.push(nodes.last()) =~= nodes);
    }
}

/// The replacement found for a position is one of the list's literals.
proof fn lemma_replacement_is_listed(lists: Lists, pos: u32, from: int)
    requires
        0 <= from <= lists.replace.len(),
    ensures
        from <= replacement_index(lists.replace, pos, from),
    decreases lists.replace.len() - from,
{
    if from < lists.replace.len() {
        lemma_replacement_is_listed(lists, pos, from + 1);
    }
}

/// A second pass with the same lists changes nothing, as long as the lists
/// speak of real positions only.
pub proof fn lemma_rewrite_twice(lists: Lists, n: NodeView)
    requires
        is_grounded(lists),
    ensures
        rewrite(lists, rewrite(lists, n)) == rewrite(lists, n),
    decreases n, 1int,
{
    lemma_no_replacement_at_zero(lists, 0);
    match decide(lists, n.category, n.span) {
        Action::Remove => {
            let left = rewrite(lists, n);
            assert(left.children.len() == 0);
            assert(is_generated(left));
            lemma_generated_is_fixed(lists, left);
        },
        Action::Replace(r) => {
            lemma_replacement_is_listed(lists, n.span.lo, 0);
            lemma_generated_is_fixed(lists, r);
        },
        Action::Descend => {
            lemma_rewrite_all_twice(lists, n.children, is_sequence(n.kind));
        },
    }
}

/// A second pass over a rewritten sequence changes nothing.
pub proof fn lemma_rewrite_all_twice(lists: Lists, nodes: Seq<NodeView>, sequence: bool)
    requires
        is_grounded(lists),
    ensures
        rewrite_all(lists, rewrite_all(lists, nodes, sequence), sequence) == rewrite_all(
            lists,
            nodes,
            sequence,
        ),
    decreases nodes, 0int,
{
    if nodes.len() > 0 {
        let front = nodes.drop_last();
        let n = nodes.last();
        let before = rewrite_all(lists, front, sequence);
        lemma_rewrite_all_twice(lists, front, sequence);
        if !(sequence && is_statement(n.category) && in_removed(lists.remove, n.span)) {
            let x = rewrite(lists, n);
            lemma_rewrite_twice(lists, n);
            let once = before.push(x);
            assert(once.drop_last() =~= before);
            assert(once.last() == x);
            match decide(lists, n.category, n.span) {
                Action::Remove => {
                    assert(!in_removed(lists.remove, x.span));
                },
                Action::Replace(r) => {
                    lemma_replacement_is_listed(lists, n.span.lo, 0);
                    assert(!in_removed(lists.remove, x.span));
                },
                Action::Descend => {},
            }
        }
    }
}

} // verus!
