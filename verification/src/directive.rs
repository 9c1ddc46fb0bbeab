//! Directives: what the annotations of a unit ask for, once the `if` and
//! `endif` annotations have been paired.

use vstd::prelude::*;
use crate::grammar::{attr_value, find_attr};
use crate::macro_parser::{macro_views, MacroNode, MacroNodeView};
use crate::span::Span;
use crate::text::{decimal, decimal_text};

verus! {

/// A region to keep or to delete, depending on a condition.
#[derive(Debug)]
pub struct IfDirective {
    pub range: Span,
    pub condition: String,
}

/// An expression to replace by a value of the metadata.
#[derive(Debug)]
pub struct DefineInlineDirective {
    pub pos: u32,
    pub value: String,
    pub default: Option<String>,
}

/// What an annotation, or a pair of annotations, asks for.
#[derive(Debug)]
pub enum Directive {
    If(IfDirective),
    DefineInline(DefineInlineDirective),
}

pub ghost enum DirectiveView {
    If { range: Span, condition: Seq<char> },
    DefineInline { pos: u32, value: Seq<char>, default: Option<Seq<char>> },
}

impl View for Directive {
    type V = DirectiveView;

    open spec fn view(&self) -> DirectiveView {
        match self {
            Directive::If(d) => DirectiveView::If { range: d.range, condition: d.condition@ },
            Directive::DefineInline(d) => DirectiveView::DefineInline {
                pos: d.pos,
                value: d.value@,
                default: match d.default {
                    Some(s) => Some(s@),
                    None => None,
                },
            },
        }
    }
}

/// The values of a list of directives.
pub open spec fn directive_views(directives: Seq<Directive>) -> Seq<DirectiveView> {
    Seq::new(directives.len(), |i: int| directives[i]@)
}

/// Why a unit's directives cannot be applied.
#[derive(Debug)]
pub enum DirectiveError {
    /// The directive at `pos` lacks an attribute it requires.
    MalformedDirective { pos: u32, directive: String },
    /// The `if` at `pos` is never closed, or the `endif` at `pos` closes
    /// nothing.
    UnpairedDirective { pos: u32, directive: String },
    /// The value directive at `pos` names a path that the metadata lacks,
    /// and gives no default.
    UnresolvedValueInline { pos: u32, path: String },
}

pub ghost enum DirectiveErrorView {
    MalformedDirective { pos: u32, directive: Seq<char> },
    UnpairedDirective { pos: u32, directive: Seq<char> },
    UnresolvedValueInline { pos: u32, path: Seq<char> },
}

impl View for DirectiveError {
    type V = DirectiveErrorView;

    open spec fn view(&self) -> DirectiveErrorView {
        match self {
            DirectiveError::MalformedDirective { pos, directive } => {
                DirectiveErrorView::MalformedDirective { pos: *pos, directive: directive@ }
            },
            DirectiveError::UnpairedDirective { pos, directive } => {
                DirectiveErrorView::UnpairedDirective { pos: *pos, directive: directive@ }
            },
            DirectiveError::UnresolvedValueInline { pos, path } => {
                DirectiveErrorView::UnresolvedValueInline { pos: *pos, path: path@ }
            },
        }
    }
}

impl DirectiveErrorView {
    /// The text that describes the failure to a reader.
    pub open spec fn description(self) -> Seq<char> {
        match self {
            DirectiveErrorView::MalformedDirective { pos, directive } => "Malformed directive '"@
                + directive + "' at position "@ + decimal(pos as nat)
                + ": a required attribute is missing"@,
            DirectiveErrorView::UnpairedDirective { pos, directive } => "Unpaired directive '"@
                + directive + "' at position "@ + decimal(pos as nat),
            DirectiveErrorView::UnresolvedValueInline { pos, path } => "Unresolved value '"@ + path
                + "' at position "@ + decimal(pos as nat)
                + ": the metadata has no such path and no default is given"@,
        }
    }
}

impl DirectiveError {
    /// The position of the directive that failed.
    pub fn position(&self) -> (pos: u32)
        ensures
            pos == match self@ {
                DirectiveErrorView::MalformedDirective { pos, directive } => pos,
                DirectiveErrorView::UnpairedDirective { pos, directive } => pos,
                DirectiveErrorView::UnresolvedValueInline { pos, path } => pos,
            },
    {
        match self {
            DirectiveError::MalformedDirective { pos, directive } => *pos,
            DirectiveError::UnpairedDirective { pos, directive } => *pos,
            DirectiveError::UnresolvedValueInline { pos, path } => *pos,
        }
    }

    /// The text that describes the failure to a reader.
    pub fn message(&self) -> (out: String)
        ensures
            out@ == self@.description(),
    {
        match self {
            DirectiveError::MalformedDirective { pos, directive } => {
                let mut out = "Malformed directive '".to_owned();
                out.append(directive.as_str());
                out.append("' at position ");
                out.append(decimal_text(*pos as u128).as_str());
                out.append(": a required attribute is missing");
                out
            },
            DirectiveError::UnpairedDirective { pos, directive } => {
                let mut out = "Unpaired directive '".to_owned();
                out.append(directive.as_str());
                out.append("' at position ");
                out.append(decimal_text(*pos as u128).as_str());
                out
            },
            DirectiveError::UnresolvedValueInline { pos, path } => {
                let mut out = "Unresolved value '".to_owned();
                out.append(path.as_str());
                out.append("' at position ");
                out.append(decimal_text(*pos as u128).as_str());
                out.append(": the metadata has no such path and no default is given");
                out
            },
        }
    }
}

/// The first index at or after `from` whose item lies at a position after
/// `pos`, or the length of `items`.
pub open spec fn insertion_point<T>(items: Seq<(u32, T)>, pos: u32, from: int) -> int
    decreases items.len() - from,
{
    if from < 0 || from >= items.len() {
        items.len() as int
    } else if items[from].0 > pos {
        from
    } else {
        insertion_point(items, pos, from + 1)
    }
}

/// `items` ordered by position. Items at one position keep their order.
pub open spec fn sort_by_pos<T>(items: Seq<(u32, T)>) -> Seq<(u32, T)>
    decreases items.len(),
{
    if items.len() == 0 {
        items
    } else {
        let before = sort_by_pos(items.drop_last());
        before.insert(insertion_point(before, items.last().0, 0), items.last())
    }
}

/// Whether positions never go down along `items`.
pub open spec fn ordered<T>(items: Seq<(u32, T)>) -> bool {
    forall|i: int, j: int| 0 <= i <= j < items.len() ==> items[i].0 <= items[j].0
}

/// `insertion_point` names the first item that lies after `pos`.
pub proof fn lemma_insertion_point<T>(items: Seq<(u32, T)>, pos: u32, from: int)
    requires
        0 <= from <= items.len(),
    ensures
        from <= insertion_point(items, pos, from) <= items.len(),
        forall|i: int| from <= i < insertion_point(items, pos, from) ==> items[i].0 <= pos,
        insertion_point(items, pos, from) < items.len() ==> items[insertion_point(
            items,
            pos,
            from,
        )].0 > pos,
    decreases items.len() - from,
{
    if from < items.len() && items[from].0 <= pos {
        lemma_insertion_point(items, pos, from + 1);
    }
}

/// Sorting gives an ordered sequence with the same items.
pub proof fn lemma_sort_by_pos<T>(items: Seq<(u32, T)>)
    ensures
        ordered(sort_by_pos(items)),
        sort_by_pos(items).len() == items.len(),
        sort_by_pos(items).to_multiset() == items.to_multiset(),
    decreases items.len(),
{
    broadcast use vstd::seq_lib::group_to_multiset_ensures;

    if items.len() > 0 {
        let front = items.drop_last();
        let x = items.last();
        lemma_sort_by_pos(front);
        let before = sort_by_pos(front);
        let j = insertion_point(before, x.0, 0);
        lemma_insertion_point(before, x.0, 0);
        let after = before.insert(j, x);
        assert forall|a: int, b: int| 0 <= a <= b < after.len() implies after[a].0
            <= after[b].0 by {
            if a < j && b > j {
                assert(after[a] == before[a]);
                assert(after[b] == before[b - 1]);
            } else if a >= j && b > j {
                if a > j {
                    assert(after[a] == before[a - 1]);
                }
                assert(after[b] == before[b - 1]);
                assert(before[j].0 > x.0);
            }
        }
        vstd::seq_lib::to_multiset_insert(before, j, x);
        assert(front.push(x) =~= items);
    }
}

/// Sorting leaves an ordered sequence as it is.
pub proof fn lemma_sort_ordered<T>(items: Seq<(u32, T)>)
    requires
        ordered(items),
    ensures
        sort_by_pos(items) == items,
    decreases items.len(),
{
    if items.len() > 0 {
        let front = items.drop_last();
        assert forall|i: int, j: int| 0 <= i <= j < front.len() implies front[i].0
            <= front[j].0 by {
            assert(front[i] == items[i]);
            assert(front[j] == items[j]);
        }
        lemma_sort_ordered(front);
        lemma_insertion_point(front, items.last().0, 0);
        let at = insertion_point(front, items.last().0, 0);
        if at < front.len() {
            assert(front[at] == items[at]);
            assert(items[at].0 <= items[items.len() - 1].0);
        }
        assert(front.insert(at, items.last()) =~= items);
    }
}

/// The items of `items` in the order that `order` lists their indices.
pub open spec fn pick<T>(items: Seq<T>, order: Seq<usize>) -> Seq<T> {
    Seq::new(order.len(), |k: int| items[order[k] as int])
}

/// Whether `order` lists indices of `items` by position, and indices of
/// items at one position in rising order.
pub open spec fn is_stable_order<T>(items: Seq<(u32, T)>, order: Seq<usize>) -> bool {
    &&& forall|k: int| 0 <= k < order.len() ==> (#[trigger] order[k]) < items.len()
    &&& forall|k: int, l: int|
        0 <= k < l < order.len() ==> items[(#[trigger] order[k]) as int].0 < items[(
        #[trigger] order[l]) as int].0 || (items[order[k] as int].0 == items[order[l] as int].0
            && order[k] < order[l])
}

/// The order in which to read `macros` so that positions never go down and
/// annotations at one position keep their order.
pub fn sorted_order(macros: &Vec<(u32, MacroNode)>) -> (order: Vec<usize>)
    ensures
        order@.len() == macros@.len(),
        is_stable_order(macro_views(macros@), order@),
        pick(macro_views(macros@), order@) == sort_by_pos(macro_views(macros@)),
{
    let ghost all = macro_views(macros@);
    let mut order: Vec<usize> = Vec::new();
    let mut i: usize = 0;
    assert(all.subrange(0, 0) =~= seq![]);
    assert(pick(all, order@) =~= seq![]);
    while i < macros.len()
        invariant
            i <= macros@.len(),
            all == macro_views(macros@),
            order@.len() == i,
            forall|k: int| 0 <= k < order@.len() ==> #[trigger] order@[k] < i,
            is_stable_order(all, order@),
            pick(all, order@) == sort_by_pos(all.subrange(0, i as int)),
        decreases macros@.len() - i,
    {
        let pos = macros[i].0;
        let ghost sorted = pick(all, order@);
        let ghost before = order@;
        let mut j: usize = 0;
        while j < order.len() && macros[order[j]].0 <= pos
            invariant
                j <= order@.len(),
                order@.len() == i,
                i < macros@.len(),
                all == macro_views(macros@),
                pos == all[i as int].0,
                sorted == pick(all, order@),
                before == order@,
                forall|k: int| 0 <= k < order@.len() ==> #[trigger] order@[k] < i,
                forall|k: int| 0 <= k < j ==> all[(#[trigger] order@[k]) as int].0 <= pos,
                insertion_point(sorted, pos, 0) == insertion_point(sorted, pos, j as int),
            decreases order@.len() - j,
        {
            assert(sorted[j as int].0 == macros@[order@[j as int] as int].0);
            j += 1;
        }
        proof {
            if j < order@.len() {
                assert(sorted[j as int].0 == macros@[order@[j as int] as int].0);
            }
            let prefix = all.subrange(0, i + 1);
            assert(prefix.drop_last() =~= all.subrange(0, i as int));
            assert(prefix.last() == all[i as int]);
            assert(pick(all, order@.insert(j as int, i)) =~= sorted.insert(j as int, all[i as int]));
        }
        order.insert(j, i);
        proof {
            let now = order@;
            assert forall|k: int| 0 <= k < now.len() implies (#[trigger] now[k]) < all.len() by {
                if k < j {
                    assert(now[k] == before[k]);
                } else if k > j {
                    assert(now[k] == before[k - 1]);
                }
            }
            assert forall|k: int, l: int| 0 <= k < l < now.len() implies all[(
            #[trigger] now[k]) as int].0 < all[(#[trigger] now[l]) as int].0 || (all[now[k] as int].0
                == all[now[l] as int].0 && now[k] < now[l]) by {
                let k0 = if k < j { k } else { k - 1 };
                let l0 = if l < j { l } else { l - 1 };
                if k != j {
                    assert(now[k] == before[k0]);
                }
                if l != j {
                    assert(now[l] == before[l0]);
                }
                if k == j {
                    assert(before[j as int] == now[l] || l0 > j);
                    assert(all[before[j as int] as int].0 > pos);
                    if l0 > j {
                        assert(all[before[j as int] as int].0 <= all[before[l0] as int].0);
                    }
                } else if l == j {
                    assert(all[before[k0] as int].0 <= pos);
                    assert(before[k0] < i);
                }
            }
        }
        i += 1;
    }
    assert(all.subrange(0, i as int) =~= all);
    order
}

/// The state of the pairing machine: the open `if`s, innermost last, each
/// with its position and condition; the directives emitted so far; and the
/// first failure, after which nothing changes any more.
pub ghost struct Pairing {
    pub stack: Seq<(u32, Seq<char>)>,
    pub out: Seq<DirectiveView>,
    pub failure: Option<DirectiveErrorView>,
}

/// The machine's move on the annotation `m` attached at `pos`.
pub open spec fn pair_step(state: Pairing, pos: u32, m: MacroNodeView) -> Pairing {
    if state.failure is Some {
        state
    } else if m.directive == "if"@ {
        match attr_value(m.attrs, "condition"@) {
            Some(c) => Pairing { stack: state.stack.push((pos, c)), ..state },
            None => Pairing {
                failure: Some(
                    DirectiveErrorView::MalformedDirective { pos, directive: m.directive },
                ),
                ..state
            },
        }
    } else if m.directive == "endif"@ {
        if state.stack.len() == 0 {
            Pairing {
                failure: Some(
                    DirectiveErrorView::UnpairedDirective { pos, directive: m.directive },
                ),
                ..state
            }
        } else {
            let open = state.stack.last();
            Pairing {
                stack: state.stack.drop_last(),
                out: state.out.push(
                    DirectiveView::If {
                        range: Span { lo: open.0, hi: pos },
                        condition: open.1,
                    },
                ),
                ..state
            }
        }
    } else if m.directive == "define-inline"@ {
        match attr_value(m.attrs, "value"@) {
            Some(v) => Pairing {
                out: state.out.push(
                    DirectiveView::DefineInline {
                        pos,
                        value: v,
                        default: attr_value(m.attrs, "default"@),
                    },
                ),
                ..state
            },
            None => Pairing {
                failure: Some(
                    DirectiveErrorView::MalformedDirective { pos, directive: m.directive },
                ),
                ..state
            },
        }
    } else {
        state
    }
}

/// The machine's state after it has read `macros` from the start.
pub open spec fn pair_run(macros: Seq<(u32, MacroNodeView)>) -> Pairing
    decreases macros.len(),
{
    if macros.len() == 0 {
        Pairing { stack: seq![], out: seq![], failure: None }
    } else {
        pair_step(pair_run(macros.drop_last()), macros.last().0, macros.last().1)
    }
}

/// The directives that a list of annotations, read in order, amounts to. An
/// `if` that is still open at the end fails like a stray `endif`; the
/// innermost open one is reported.
pub open spec fn pair_spec(macros: Seq<(u32, MacroNodeView)>) -> Result<
    Seq<DirectiveView>,
    DirectiveErrorView,
> {
    let end = pair_run(macros);
    match end.failure {
        Some(e) => Err(e),
        None => if end.stack.len() == 0 {
            Ok(end.out)
        } else {
            Err(DirectiveErrorView::UnpairedDirective { pos: end.stack.last().0, directive: "if"@ })
        },
    }
}

/// Once the machine has failed, reading on does not change its state.
pub proof fn lemma_failure_is_final(macros: Seq<(u32, MacroNodeView)>, n: int)
    requires
        0 <= n <= macros.len(),
        pair_run(macros.subrange(0, n)).failure is Some,
    ensures
        pair_run(macros) == pair_run(macros.subrange(0, n)),
    decreases macros.len() - n,
{
    if n < macros.len() {
        let next = macros.subrange(0, n + 1);
        assert(next.drop_last() =~= macros.subrange(0, n));
        lemma_failure_is_final(macros, n + 1);
    } else {
        assert(macros.subrange(0, n) =~= macros);
    }
}

/// The open `if`s of the machine, as the scanner holds them.
pub open spec fn stack_views(stack: Seq<(u32, String)>) -> Seq<(u32, Seq<char>)> {
    Seq::new(stack.len(), |i: int| (stack[i].0, stack[i].1@))
}

/// Orders the annotations by position and pairs each `endif` with the
/// innermost open `if`.
pub fn pair_directives(macros: &Vec<(u32, MacroNode)>) -> (r: Result<
    Vec<Directive>,
    DirectiveError,
>)
    ensures
        match r {
            Ok(d) => pair_spec(sort_by_pos(macro_views(macros@))) == Ok::<
                Seq<DirectiveView>,
                DirectiveErrorView,
            >(directive_views(d@)),
            Err(e) => pair_spec(sort_by_pos(macro_views(macros@))) == Err::<
                Seq<DirectiveView>,
                DirectiveErrorView,
            >(e@),
        },
{
    let order = sorted_order(macros);
    let ghost sorted = sort_by_pos(macro_views(macros@));
    let mut stack: Vec<(u32, String)> = Vec::new();
    let mut out: Vec<Directive> = Vec::new();
    let mut k: usize = 0;
    assert(sorted.subrange(0, 0) =~= seq![]);
    assert(stack_views(stack@) =~= seq![]);
    assert(directive_views(out@) =~= seq![]);
    while k < order.len()
        invariant
            k <= order@.len(),
            order@.len() == macros@.len(),
            forall|j: int| 0 <= j < order@.len() ==> #[trigger] order@[j] < macros@.len(),
            sorted == sort_by_pos(macro_views(macros@)),
            sorted == pick(macro_views(macros@), order@),
            pair_run(sorted.subrange(0, k as int)) == (Pairing {
                stack: stack_views(stack@),
                out: directive_views(out@),
                failure: None,
            }),
        decreases order@.len() - k,
    {
        let pos = macros[order[k]].0;
        let m = &macros[order[k]].1;
        let ghost prefix = sorted.subrange(0, k + 1);
        let ghost state = pair_run(sorted.subrange(0, k as int));
        proof {
            assert(prefix.drop_last() =~= sorted.subrange(0, k as int));
            assert(prefix.last() == (pos, m@));
            assert(pair_run(prefix) == pair_step(state, pos, m@));
        }
        if m.directive == "if".to_owned() {
            match find_attr(&m.attrs, "condition") {
                Some(c) => {
                    let entry = (pos, c.clone());
                    assert(stack_views(stack@.push(entry)) =~= stack_views(stack@).push(
                        (pos, c@),
                    ));
                    stack.push(entry);
                },
                None => {
                    proof {
                        lemma_failure_is_final(sorted, k + 1);
                    }
                    return Err(
                        DirectiveError::MalformedDirective { pos, directive: m.directive.clone() },
                    );
                },
            }
        } else if m.directive == "endif".to_owned() {
            match stack.pop() {
                Some(open) => {
                    let d = Directive::If(
                        IfDirective { range: Span { lo: open.0, hi: pos }, condition: open.1 },
                    );
                    proof {
                        assert(stack_views(stack@) =~= state.stack.drop_last());
                        assert(directive_views(out@.push(d)) =~= directive_views(out@).push(d@));
                    }
                    out.push(d);
                },
                None => {
                    proof {
                        lemma_failure_is_final(sorted, k + 1);
                    }
                    return Err(
                        DirectiveError::UnpairedDirective { pos, directive: m.directive.clone() },
                    );
                },
            }
        } else if m.directive == "define-inline".to_owned() {
            match find_attr(&m.attrs, "value") {
                Some(v) => {
                    let default = match find_attr(&m.attrs, "default") {
                        Some(s) => Some(s.clone()),
                        None => None,
                    };
                    let d = Directive::DefineInline(
                        DefineInlineDirective { pos, value: v.clone(), default },
                    );
                    assert(directive_views(out@.push(d)) =~= directive_views(out@).push(d@));
                    out.push(d);
                },
                None => {
                    proof {
                        lemma_failure_is_final(sorted, k + 1);
                    }
                    return Err(
                        DirectiveError::MalformedDirective { pos, directive: m.directive.clone() },
                    );
                },
            }
        }
        k += 1;
    }
    assert(sorted.subrange(0, k as int) =~= sorted);
    if stack.len() > 0 {
        let open = &stack[stack.len() - 1];
        return Err(
            DirectiveError::UnpairedDirective { pos: open.0, directive: "if".to_owned() },
        );
    }
    Ok(out)
}

/// An annotation that opens a conditional.
pub open spec fn opens(m: MacroNodeView, condition: Seq<char>) -> bool {
    m.directive == "if"@ && attr_value(m.attrs, "condition"@) == Some(condition)
}

/// An annotation that closes a conditional.
pub open spec fn closes(m: MacroNodeView) -> bool {
    m.directive == "endif"@
}

/// Nested conditionals give two ranges, the inner one within the outer
/// one: an `if` at `a`, an `if` at `b`, an `endif` at `c` and an `endif` at
/// `d`, read in this order, pair the second with the third and the first
/// with the fourth.
pub proof fn lemma_nested_pairing(
    a: u32,
    b: u32,
    c: u32,
    d: u32,
    outer: MacroNodeView,
    inner: MacroNodeView,
    inner_end: MacroNodeView,
    outer_end: MacroNodeView,
    outer_condition: Seq<char>,
    inner_condition: Seq<char>,
)
    requires
        a <= b <= c <= d,
        opens(outer, outer_condition),
        opens(inner, inner_condition),
        closes(inner_end),
        closes(outer_end),
    ensures
        pair_spec(seq![(a, outer), (b, inner), (c, inner_end), (d, outer_end)]) == Ok::<
            Seq<DirectiveView>,
            DirectiveErrorView,
        >(
            seq![
                DirectiveView::If { range: Span { lo: b, hi: c }, condition: inner_condition },
                DirectiveView::If { range: Span { lo: a, hi: d }, condition: outer_condition },
            ],
        ),
        (Span { lo: a, hi: d }).covers(Span { lo: b, hi: c }),
{
    reveal_strlit("if");
    reveal_strlit("endif");
    assert("if"@ != "endif"@) by {
        assert("if"@.len() == 2);
        assert("endif"@.len() == 5);
    }
    let s4 = seq![(a, outer), (b, inner), (c, inner_end), (d, outer_end)];
    let s3 = seq![(a, outer), (b, inner), (c, inner_end)];
    let s2 = seq![(a, outer), (b, inner)];
    let s1 = seq![(a, outer)];
    let s0 = Seq::<(u32, MacroNodeView)>::empty();
    assert(s4.drop_last() =~= s3);
    assert(s3.drop_last() =~= s2);
    assert(s2.drop_last() =~= s1);
    assert(s1.drop_last() =~= s0);
    let r0 = pair_run(s0);
    let r1 = pair_run(s1);
    let r2 = pair_run(s2);
    let r3 = pair_run(s3);
    let r4 = pair_run(s4);
    assert(r0.stack =~= seq![] && r0.out =~= seq![] && r0.failure is None);
    assert(r1 == pair_step(r0, a, outer));
    assert(r1.stack =~= seq![(a, outer_condition)] && r1.out =~= seq![] && r1.failure is None);
    assert(r2 == pair_step(r1, b, inner));
    assert(r2.stack =~= seq![(a, outer_condition), (b, inner_condition)] && r2.out =~= seq![]
        && r2.failure is None);
    assert(r3 == pair_step(r2, c, inner_end));
    assert(r3.stack =~= seq![(a, outer_condition)]);
    assert(r3.out =~= seq![
        DirectiveView::If { range: Span { lo: b, hi: c }, condition: inner_condition },
    ]);
    assert(r4 == pair_step(r3, d, outer_end));
    assert(r4.stack =~= seq![]);
    assert(r4.out =~= seq![
        DirectiveView::If { range: Span { lo: b, hi: c }, condition: inner_condition },
        DirectiveView::If { range: Span { lo: a, hi: d }, condition: outer_condition },
    ]);
}

} // verus!
