//! The order in which the reachable modules of a bundle can run: every
//! module after the modules it loads, as far as cycles allow.

use vstd::prelude::*;
use crate::text::{chars_of, has_text, lemma_texts_push, texts};
use crate::webpack_module_graph::{module_ids, module_views, WebpackModule, WebpackModuleView};

verus! {

/// Whether `a` is smaller than `b` at the first index, from `from` on, at
/// which the two differ. Both have the same length.
pub open spec fn differs_below(a: Seq<char>, b: Seq<char>, from: int) -> bool
    decreases a.len() - from,
{
    if from < 0 || from >= a.len() || from >= b.len() {
        false
    } else if a[from] != b[from] {
        (a[from] as u32) < (b[from] as u32)
    } else {
        differs_below(a, b, from + 1)
    }
}

/// Whether the identifier `a` comes before `b`: the shorter one first, and
/// of two equally long ones the one that is smaller where they first
/// differ. Numbers written without leading zeros come in the order of
/// their values.
pub open spec fn precedes(a: Seq<char>, b: Seq<char>) -> bool {
    a.len() < b.len() || (a.len() == b.len() && differs_below(a, b, 0))
}

/// Whether the identifier `a` comes before `b`.
pub fn comes_before(a: &String, b: &String) -> (r: bool)
    ensures
        r == precedes(a@, b@),
{
    let x = chars_of(a.as_str());
    let y = chars_of(b.as_str());
    if x.len() != y.len() {
        return x.len() < y.len();
    }
    let mut i: usize = 0;
    while i < x.len()
        invariant
            i <= x@.len(),
            x@.len() == y@.len(),
            x@ == a@,
            y@ == b@,
            differs_below(a@, b@, 0) == differs_below(a@, b@, i as int),
        decreases x@.len() - i,
    {
        if x[i] != y[i] {
            return (x[i] as u32) < (y[i] as u32);
        }
        i += 1;
    }
    false
}

/// Whether the module at `i` is still to be listed: it is reachable and
/// `listed` does not name it.
pub open spec fn is_left(
    modules: Seq<WebpackModuleView>,
    reached: Seq<Seq<char>>,
    listed: Seq<Seq<char>>,
    i: int,
) -> bool {
    reached.contains(modules[i].id) && !listed.contains(modules[i].id)
}

/// Whether a module has to wait for the module `d`: `d` is a reachable
/// module of the graph that is not listed yet.
pub open spec fn waits_for(
    modules: Seq<WebpackModuleView>,
    reached: Seq<Seq<char>>,
    listed: Seq<Seq<char>>,
    d: Seq<char>,
) -> bool {
    reached.contains(d) && module_ids(modules).contains(d) && !listed.contains(d)
}

/// Whether the module at `i` can run: it waits for none of the modules it
/// loads.
pub open spec fn is_ready(
    modules: Seq<WebpackModuleView>,
    reached: Seq<Seq<char>>,
    listed: Seq<Seq<char>>,
    i: int,
) -> bool {
    forall|k: int|
        0 <= k < modules[i].dependencies.len() ==> !waits_for(
            modules,
            reached,
            listed,
            #[trigger] modules[i].dependencies[k],
        )
}

/// The module with the least identifier among the first `n` that are left
/// and, if `ready` is asked for, can run.
pub open spec fn least_upto(
    modules: Seq<WebpackModuleView>,
    reached: Seq<Seq<char>>,
    listed: Seq<Seq<char>>,
    ready: bool,
    n: int,
) -> Option<int>
    decreases n,
{
    if n <= 0 || n > modules.len() {
        None
    } else {
        let best = least_upto(modules, reached, listed, ready, n - 1);
        let i = n - 1;
        if is_left(modules, reached, listed, i) && (!ready || is_ready(modules, reached, listed, i))
            && (match best {
            Some(b) => precedes(modules[i].id, modules[b].id),
            None => true,
        }) {
            Some(i)
        } else {
            best
        }
    }
}

/// The module to list next: the least that can run, or, where a cycle
/// keeps every module waiting, the least that is left. None when nothing
/// is left.
pub open spec fn next_pick(
    modules: Seq<WebpackModuleView>,
    reached: Seq<Seq<char>>,
    listed: Seq<Seq<char>>,
) -> Option<int> {
    match least_upto(modules, reached, listed, true, modules.len() as int) {
        Some(i) => Some(i),
        None => least_upto(modules, reached, listed, false, modules.len() as int),
    }
}

/// The list after at most `steps` more modules have been listed.
pub open spec fn order_from(
    modules: Seq<WebpackModuleView>,
    reached: Seq<Seq<char>>,
    listed: Seq<Seq<char>>,
    steps: nat,
) -> Seq<Seq<char>>
    decreases steps,
{
    if steps == 0 {
        listed
    } else {
        match next_pick(modules, reached, listed) {
            Some(i) => order_from(
                modules,
                reached,
                listed.push(modules[i].id),
                (steps - 1) as nat,
            ),
            None => listed,
        }
    }
}

/// The execution order of the reachable modules.
pub open spec fn execution_order(modules: Seq<WebpackModuleView>, reached: Seq<Seq<char>>) -> Seq<
    Seq<char>,
> {
    order_from(modules, reached, seq![], modules.len())
}

/// What `least_upto` picks is a module that is left, and that can run if
/// that was asked for; it picks none only if there is no such module.
pub proof fn lemma_least_upto(
    modules: Seq<WebpackModuleView>,
    reached: Seq<Seq<char>>,
    listed: Seq<Seq<char>>,
    ready: bool,
    n: int,
)
    requires
        0 <= n <= modules.len(),
    ensures
        match least_upto(modules, reached, listed, ready, n) {
            Some(i) => 0 <= i < n && is_left(modules, reached, listed, i) && (!ready || is_ready(
                modules,
                reached,
                listed,
                i,
            )),
            None => forall|i: int|
                0 <= i < n ==> !(#[trigger] is_left(modules, reached, listed, i) && (!ready
                    || is_ready(modules, reached, listed, i))),
        },
    decreases n,
{
    if n > 0 {
        lemma_least_upto(modules, reached, listed, ready, n - 1);
    }
}

/// Whether the module at `i` can run.
fn ready_at(modules: &Vec<WebpackModule>, reached: &Vec<String>, listed: &Vec<String>, i: usize) -> (r:
    bool)
    requires
        i < modules@.len(),
    ensures
        r == is_ready(module_views(modules@), texts(reached@), texts(listed@), i as int),
{
    let ghost m = module_views(modules@);
    let deps = &modules[i].dependencies;
    assert(m[i as int].dependencies == texts(deps@));
    let mut k: usize = 0;
    while k < deps.len()
        invariant
            k <= deps@.len(),
            i < modules@.len(),
            m == module_views(modules@),
            m[i as int].dependencies == texts(deps@),
            forall|q: int|
                0 <= q < k ==> !waits_for(
                    m,
                    texts(reached@),
                    texts(listed@),
                    #[trigger] m[i as int].dependencies[q],
                ),
        decreases deps@.len() - k,
    {
        let d = &deps[k];
        assert(m[i as int].dependencies[k as int] == d@);
        if has_text(reached, d) && !has_text(listed, d) && is_module(modules, d) {
            return false;
        }
        k += 1;
    }
    true
}

/// Whether the graph has a module named `id`.
fn is_module(modules: &Vec<WebpackModule>, id: &String) -> (r: bool)
    ensures
        r == module_ids(module_views(modules@)).contains(id@),
{
    let ghost keys = module_ids(module_views(modules@));
    let mut i: usize = 0;
    while i < modules.len()
        invariant
            i <= modules@.len(),
            keys == module_ids(module_views(modules@)),
            forall|q: int| 0 <= q < i ==> keys[q] != id@,
        decreases modules@.len() - i,
    {
        if modules[i].id == *id {
            assert(keys[i as int] == id@);
            return true;
        }
        i += 1;
    }
    false
}

/// The module with the least identifier among those that are left and, if
/// `ready` is asked for, can run.
fn least(modules: &Vec<WebpackModule>, reached: &Vec<String>, listed: &Vec<String>, ready: bool) -> (r:
    Option<usize>)
    ensures
        match r {
            Some(i) => least_upto(
                module_views(modules@),
                texts(reached@),
                texts(listed@),
                ready,
                modules@.len() as int,
            ) == Some(i as int) && i < modules@.len(),
            None => least_upto(
                module_views(modules@),
                texts(reached@),
                texts(listed@),
                ready,
                modules@.len() as int,
            ) is None,
        },
{
    let ghost m = module_views(modules@);
    let mut best: Option<usize> = None;
    let mut i: usize = 0;
    while i < modules.len()
        invariant
            i <= modules@.len(),
            m == module_views(modules@),
            match best {
                Some(b) => least_upto(m, texts(reached@), texts(listed@), ready, i as int) == Some(
                    b as int,
                ) && b < i,
                None => least_upto(m, texts(reached@), texts(listed@), ready, i as int) is None,
            },
        decreases modules@.len() - i,
    {
        let id = &modules[i].id;
        assert(m[i as int].id == id@);
        let left = has_text(reached, id) && !has_text(listed, id);
        if left && (!ready || ready_at(modules, reached, listed, i)) {
            let better = match best {
                Some(b) => {
                    assert(m[b as int].id == modules@[b as int].id@);
                    comes_before(id, &modules[b].id)
                },
                None => true,
            };
            if better {
                best = Some(i);
            }
        }
        i += 1;
    }
    best
}

/// Lists the reachable modules in the order in which they can run. At
/// each place stands the module with the least identifier among those
/// that wait for no other; where a cycle keeps every module waiting, the
/// module with the least identifier of all that are left.
pub fn calculate_execution_order(modules: &Vec<WebpackModule>, reached: &Vec<String>) -> (order:
    Vec<String>)
    ensures
        texts(order@) == execution_order(module_views(modules@), texts(reached@)),
{
    let ghost m = module_views(modules@);
    let ghost r = texts(reached@);
    let n = modules.len();
    let mut order: Vec<String> = Vec::new();
    let mut steps: usize = n;
    assert(texts(order@) =~= seq![]);
    while steps > 0
        invariant
            m == module_views(modules@),
            r == texts(reached@),
            order_from(m, r, texts(order@), steps as nat) == execution_order(m, r),
        decreases steps,
    {
        let pick = match least(modules, reached, &order, true) {
            Some(i) => Some(i),
            None => least(modules, reached, &order, false),
        };
        match pick {
            Some(i) => {
                let id = modules[i].id.clone();
                proof {
                    assert(m[i as int].id == id@);
                    lemma_texts_push(order@, id);
                }
                order.push(id);
                steps -= 1;
            },
            None => {
                return order;
            },
        }
    }
    order
}

/// Whether `listed` names reachable modules of the graph, each once.
pub open spec fn lists_modules(
    modules: Seq<WebpackModuleView>,
    reached: Seq<Seq<char>>,
    listed: Seq<Seq<char>>,
) -> bool {
    &&& listed.no_duplicates()
    &&& forall|k: int|
        0 <= k < listed.len() ==> reached.contains(#[trigger] listed[k]) && module_ids(
            modules,
        ).contains(listed[k])
}

/// A list of modules with one more module that was left is a list of
/// modules.
proof fn lemma_lists_one_more(
    modules: Seq<WebpackModuleView>,
    reached: Seq<Seq<char>>,
    listed: Seq<Seq<char>>,
    i: int,
)
    requires
        lists_modules(modules, reached, listed),
        0 <= i < modules.len(),
        is_left(modules, reached, listed, i),
    ensures
        lists_modules(modules, reached, listed.push(modules[i].id)),
{
    let more = listed.push(modules[i].id);
    assert(module_ids(modules)[i] == modules[i].id);
    assert forall|a: int, b: int| 0 <= a < more.len() && 0 <= b < more.len() && a
        != b implies more[a] != more[b] by {
        if a < listed.len() && b < listed.len() {
            assert(more[a] == listed[a] && more[b] == listed[b]);
        } else if a < listed.len() {
            assert(listed.contains(more[a]));
        } else {
            assert(listed.contains(more[b]));
        }
    }
    assert forall|k: int| 0 <= k < more.len() implies reached.contains(#[trigger] more[k])
        && module_ids(modules).contains(more[k]) by {
        if k < listed.len() {
            assert(more[k] == listed[k]);
        }
    }
}

/// The execution order names reachable modules of the graph only, each
/// once, and where no two modules share an identifier it names every
/// reachable module.
pub proof fn lemma_order_from(
    modules: Seq<WebpackModuleView>,
    reached: Seq<Seq<char>>,
    listed: Seq<Seq<char>>,
    steps: nat,
)
    requires
        lists_modules(modules, reached, listed),
    ensures
        lists_modules(modules, reached, order_from(modules, reached, listed, steps)),
        module_ids(modules).no_duplicates() && steps + listed.len() >= modules.len() ==> forall|
            i: int,
        |
            0 <= i < modules.len() && reached.contains((#[trigger] modules[i]).id) ==> order_from(
                modules,
                reached,
                listed,
                steps,
            ).contains(modules[i].id),
    decreases steps,
{
    let keys = module_ids(modules);
    let n = modules.len() as int;
    lemma_least_upto(modules, reached, listed, true, n);
    lemma_least_upto(modules, reached, listed, false, n);
    if steps == 0 {
        if keys.no_duplicates() && listed.len() >= modules.len() {
            vstd::seq_lib::seq_to_set_is_finite(listed);
            vstd::seq_lib::seq_to_set_is_finite(keys);
            listed.unique_seq_to_set();
            keys.unique_seq_to_set();
            assert(listed.to_set().subset_of(keys.to_set())) by {
                assert forall|x: Seq<char>| listed.to_set().contains(x) implies keys.to_set().contains(
                    x,
                ) by {
                    let k = choose|k: int| 0 <= k < listed.len() && listed[k] == x;
                    assert(keys.contains(listed[k]));
                }
            }
            vstd::set_lib::lemma_len_subset(listed.to_set(), keys.to_set());
            vstd::set_lib::lemma_subset_equality(listed.to_set(), keys.to_set());
            assert forall|i: int|
                0 <= i < modules.len() && reached.contains(
                    (#[trigger] modules[i]).id,
                ) implies listed.contains(modules[i].id) by {
                assert(keys[i] == modules[i].id);
                assert(keys.to_set().contains(modules[i].id));
                assert(listed.to_set().contains(modules[i].id));
            }
        }
    } else {
        match next_pick(modules, reached, listed) {
            Some(p) => {
                lemma_lists_one_more(modules, reached, listed, p);
                lemma_order_from(modules, reached, listed.push(modules[p].id), (steps - 1) as nat);
            },
            None => {
                assert forall|i: int|
                    0 <= i < modules.len() && reached.contains(
                        (#[trigger] modules[i]).id,
                    ) implies listed.contains(modules[i].id) by {
                    assert(!is_left(modules, reached, listed, i));
                }
            },
        }
    }
}

/// The execution order lists the reachable modules of the graph, each
/// once, as long as no two modules share an identifier.
pub proof fn lemma_execution_order(modules: Seq<WebpackModuleView>, reached: Seq<Seq<char>>)
    requires
        module_ids(modules).no_duplicates(),
    ensures
        execution_order(modules, reached).no_duplicates(),
        forall|x: Seq<char>| #[trigger]
            execution_order(modules, reached).contains(x) <==> reached.contains(x) && module_ids(
                modules,
            ).contains(x),
{
    let order = execution_order(modules, reached);
    let keys = module_ids(modules);
    lemma_order_from(modules, reached, seq![], modules.len());
    assert forall|x: Seq<char>| #[trigger]
        order.contains(x) <==> reached.contains(x) && keys.contains(x) by {
        if order.contains(x) {
            let k = choose|k: int| 0 <= k < order.len() && order[k] == x;
            assert(reached.contains(order[k]));
        }
        if reached.contains(x) && keys.contains(x) {
            let i = choose|i: int| 0 <= i < keys.len() && keys[i] == x;
            assert(modules[i].id == x);
        }
    }
}

} // verus!
