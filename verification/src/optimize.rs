//! The whole pass over one unit: scan the comments for directives, apply
//! them to the tree, then shake the bundle.

use vstd::prelude::*;
use crate::ast::{Node, NodeView};
use crate::bundle::{BundleFormat, FormatView};
use crate::directive::{
    pair_run, pair_spec, sort_by_pos, DirectiveError, DirectiveErrorView, DirectiveView,
};
use crate::json::{condition_spec, Json, JsonView};
use crate::macro_parser::{
    annotations, lemma_scan_twice, remaining, Comments, CommentsView, MacroNodeView, MacroParser,
};
use crate::parser::{analyze, bundle_graph};
use crate::shake_laws::{lemma_shake_unit_twice, lemma_shaken_nothing, shake_unit};
use crate::transform::{
    condition_transform, evaluate_spec, lemma_rewrite_nothing, rewrite, transform_spec, Lists,
};
use crate::webpack_tree_shaker::{shake_tree, shaken, Deleted};

verus! {

/// The tree of a unit after the conditional transformer and the shaker, or
/// the reason why the unit's directives cannot be applied.
pub open spec fn optimize_spec(
    program: NodeView,
    comments: CommentsView,
    meta: JsonView,
    ns: Seq<char>,
    fmt: FormatView,
) -> Result<NodeView, DirectiveErrorView> {
    match transform_spec(meta, annotations(comments, ns)) {
        Err(e) => Err(e),
        Ok(lists) => {
            let transformed = rewrite(lists, program);
            Ok(shaken(transformed, bundle_graph(transformed, fmt).unreachable_ids(), fmt))
        },
    }
}

/// Runs the whole pass for the directives of the namespace `namespace` and
/// a bundle of the format `fmt`. Gives the new tree and the comment stream
/// without the directives' comments. On failure nothing is returned but
/// the failure.
pub fn optimize_with(
    program: &Node,
    comments: &Comments,
    config: Json,
    namespace: &'static str,
    fmt: &BundleFormat,
) -> (r: Result<(Node, Comments), DirectiveError>)
    ensures
        match r {
            Ok((tree, rest)) => optimize_spec(program@, comments@, config@, namespace@, fmt@)
                == Ok::<NodeView, DirectiveErrorView>(tree@) && rest@ == remaining(
                comments@,
                namespace@,
            ),
            Err(e) => optimize_spec(program@, comments@, config@, namespace@, fmt@) == Err::<
                NodeView,
                DirectiveErrorView,
            >(e@),
        },
{
    let parser = MacroParser::new(namespace);
    let (rest, macros) = parser.scan(comments);
    match condition_transform(config, macros) {
        Err(e) => Err(e),
        Ok(transformer) => {
            let transformed = transformer.rewrite(program);
            let graph = analyze(&transformed, fmt);
            let dead = graph.get_unreachable_modules();
            let mut deleted = Deleted { definitions: Vec::new(), calls: Vec::new() };
            let tree = shake_tree(&transformed, &dead, fmt, &mut deleted);
            Ok((tree, rest))
        },
    }
}

/// Runs the whole pass for the namespace `common` and the standard bundle
/// format.
pub fn optimize(program: &Node, comments: &Comments, config: Json) -> (r: Result<
    (Node, Comments),
    DirectiveError,
>)
    ensures
        match r {
            Ok((tree, rest)) => optimize_spec(
                program@,
                comments@,
                config@,
                "common"@,
                BundleFormat::standard(),
            ) == Ok::<NodeView, DirectiveErrorView>(tree@) && rest@ == remaining(
                comments@,
                "common"@,
            ),
            Err(e) => optimize_spec(
                program@,
                comments@,
                config@,
                "common"@,
                BundleFormat::standard(),
            ) == Err::<NodeView, DirectiveErrorView>(e@),
        },
{
    let fmt = BundleFormat::webpack();
    optimize_with(program, comments, config, "common", &fmt)
}

/// Directives that are all conditionals with a true condition ask for
/// nothing: both lists are empty.
pub proof fn lemma_true_conditions_change_nothing(meta: JsonView, directives: Seq<DirectiveView>)
    requires
        forall|i: int|
            0 <= i < directives.len() ==> (#[trigger] directives[i] matches DirectiveView::If {
                range,
                condition,
            } && condition_spec(meta, condition)),
    ensures
        evaluate_spec(meta, directives) == Ok::<Lists, DirectiveErrorView>(
            Lists { remove: seq![], replace: seq![] },
        ),
    decreases directives.len(),
{
    if directives.len() > 0 {
        let front = directives.drop_last();
        assert forall|i: int|
            0 <= i < front.len() implies (#[trigger] front[i] matches DirectiveView::If {
            range,
            condition,
        } && condition_spec(meta, condition)) by {
            assert(front[i] == directives[i]);
        }
        lemma_true_conditions_change_nothing(meta, front);
        assert(directives[directives.len() - 1] == directives.last());
    }
}

/// A stream without annotations asks for nothing.
pub proof fn lemma_no_annotations(meta: JsonView)
    ensures
        transform_spec(meta, seq![]) == Ok::<Lists, DirectiveErrorView>(
            Lists { remove: seq![], replace: seq![] },
        ),
{
    let none = Seq::<(u32, MacroNodeView)>::empty();
    assert(seq![] =~= none);
    assert(sort_by_pos(none) =~= none);
    assert(pair_run(none).stack =~= seq![]);
    assert(pair_spec(none) == Ok::<Seq<DirectiveView>, DirectiveErrorView>(seq![]));
}

/// Where the directives ask for nothing, the pass only shakes: the result
/// is the unit shaken by its own graph, and the unit itself where every
/// module is reachable.
pub proof fn lemma_optimize_without_directives(
    program: NodeView,
    comments: CommentsView,
    meta: JsonView,
    ns: Seq<char>,
    fmt: FormatView,
)
    requires
        transform_spec(meta, annotations(comments, ns)) == Ok::<Lists, DirectiveErrorView>(
            Lists { remove: seq![], replace: seq![] },
        ),
    ensures
        optimize_spec(program, comments, meta, ns, fmt) == Ok::<NodeView, DirectiveErrorView>(
            shake_unit(program, fmt),
        ),
        bundle_graph(program, fmt).unreachable_ids().len() == 0 ==> optimize_spec(
            program,
            comments,
            meta,
            ns,
            fmt,
        ) == Ok::<NodeView, DirectiveErrorView>(program),
{
    let lists = Lists { remove: seq![], replace: seq![] };
    lemma_rewrite_nothing(lists, program);
    if bundle_graph(program, fmt).unreachable_ids().len() == 0 {
        assert(bundle_graph(program, fmt).unreachable_ids() =~= seq![]);
        lemma_shaken_nothing(program, fmt);
    }
}

/// The pass is idempotent: wherever it succeeds, run on its own result,
/// with the comments it left, it changes nothing.
pub proof fn lemma_optimize_twice(
    program: NodeView,
    comments: CommentsView,
    meta: JsonView,
    ns: Seq<char>,
    fmt: FormatView,
)
    requires
        transform_spec(meta, annotations(comments, ns)) is Ok,
    ensures
        optimize_spec(program, comments, meta, ns, fmt) matches Ok(once) && optimize_spec(
            once,
            remaining(comments, ns),
            meta,
            ns,
            fmt,
        ) == Ok::<NodeView, DirectiveErrorView>(once),
{
    let lists = match transform_spec(meta, annotations(comments, ns)) {
        Ok(lists) => lists,
        Err(_) => arbitrary(),
    };
    let transformed = rewrite(lists, program);
    let once = shake_unit(transformed, fmt);
    lemma_scan_twice(comments, ns);
    lemma_no_annotations(meta);
    assert(annotations(remaining(comments, ns), ns) =~= seq![]);
    lemma_optimize_without_directives(once, remaining(comments, ns), meta, ns, fmt);
    lemma_shake_unit_twice(transformed, fmt);
}

} // verus!
