//! A record of what an optimisation changed, and what follows from it for
//! the module graph.

use vstd::prelude::*;
use crate::ast::{lemma_views, views, Kind, Node, NodeView};
use crate::bundle::{canonical, canonical_text, is_ident};
use crate::text::{
    decimal, decimal_text, has_text, lemma_texts_push, position, texts,
};
use crate::webpack_module_graph::{
    module_views, WebpackModule, WebpackModuleGraph, WebpackModuleGraphView, WebpackModuleView,
};

verus! {

/// A stretch of source text that was removed, with a note on it.
#[derive(Debug)]
pub struct RemovedSpan {
    pub start: usize,
    pub end: usize,
    pub context: String,
}

impl View for RemovedSpan {
    type V = (usize, usize, Seq<char>);

    open spec fn view(&self) -> (usize, usize, Seq<char>) {
        (self.start, self.end, self.context@)
    }
}

/// The values of a list of removed spans.
pub open spec fn removed_views(spans: Seq<RemovedSpan>) -> Seq<(usize, usize, Seq<char>)> {
    Seq::new(spans.len(), |i: int| spans[i]@)
}

/// The record of an optimisation.
#[derive(Debug)]
pub struct MutationTracker {
    /// One line for every change, in order.
    pub mutations: Vec<String>,
    /// The modules that have become unreachable, each named once.
    pub unreachable_modules: Vec<String>,
    /// The modules whose import was eliminated, each named once.
    pub eliminated_imports: Vec<String>,
    /// The variables that are no longer used, each named once.
    pub unused_variables: Vec<String>,
    /// The spans that were removed, in order.
    pub removed_spans: Vec<RemovedSpan>,
}

pub ghost struct TrackerView {
    pub mutations: Seq<Seq<char>>,
    pub unreachable_modules: Seq<Seq<char>>,
    pub eliminated_imports: Seq<Seq<char>>,
    pub unused_variables: Seq<Seq<char>>,
    pub removed_spans: Seq<(usize, usize, Seq<char>)>,
}

impl View for MutationTracker {
    type V = TrackerView;

    open spec fn view(&self) -> TrackerView {
        TrackerView {
            mutations: texts(self.mutations@),
            unreachable_modules: texts(self.unreachable_modules@),
            eliminated_imports: texts(self.eliminated_imports@),
            unused_variables: texts(self.unused_variables@),
            removed_spans: removed_views(self.removed_spans@),
        }
    }
}

/// A list with `s` as a member: `s` goes to the end unless it is there
/// already.
pub open spec fn with_member(list: Seq<Seq<char>>, s: Seq<char>) -> Seq<Seq<char>> {
    if list.contains(s) {
        list
    } else {
        list.push(s)
    }
}

/// Makes `s` a member of `list`.
pub fn add_member(list: &mut Vec<String>, s: String)
    ensures
        texts(final(list)@) == with_member(texts(old(list)@), s@),
{
    if !has_text(list, &s) {
        proof {
            lemma_texts_push(list@, s);
        }
        list.push(s);
    }
}

impl TrackerView {
    /// The record in which nothing is recorded.
    pub open spec fn empty() -> TrackerView {
        TrackerView {
            mutations: seq![],
            unreachable_modules: seq![],
            eliminated_imports: seq![],
            unused_variables: seq![],
            removed_spans: seq![],
        }
    }

    /// The record with one more line.
    pub open spec fn noted(self, line: Seq<char>) -> TrackerView {
        TrackerView { mutations: self.mutations.push(line), ..self }
    }

    /// The record after a module was marked unreachable.
    pub open spec fn marked(self, module_id: Seq<char>, reason: Seq<char>) -> TrackerView {
        TrackerView {
            unreachable_modules: with_member(self.unreachable_modules, module_id),
            ..self
        }.noted("Module "@ + module_id + " marked unreachable: "@ + reason)
    }

    /// The record after an import was eliminated.
    pub open spec fn eliminated(self, module_id: Seq<char>, variable: Seq<char>) -> TrackerView {
        TrackerView {
            eliminated_imports: with_member(self.eliminated_imports, module_id),
            unused_variables: with_member(self.unused_variables, variable),
            ..self
        }.noted("Import eliminated: "@ + module_id + " -> "@ + variable)
    }

    /// The record after a span was removed.
    pub open spec fn removed(self, start: usize, end: usize, context: Seq<char>) -> TrackerView {
        TrackerView { removed_spans: self.removed_spans.push((start, end, context)), ..self }.noted(
            "Removed span "@ + decimal(start as nat) + "-"@ + decimal(end as nat) + ": "@ + context,
        )
    }
}

impl MutationTracker {
    pub fn new() -> (t: MutationTracker)
        ensures
            t@ == TrackerView::empty(),
    {
        let t = MutationTracker {
            mutations: Vec::new(),
            unreachable_modules: Vec::new(),
            eliminated_imports: Vec::new(),
            unused_variables: Vec::new(),
            removed_spans: Vec::new(),
        };
        assert(t@.mutations =~= seq![]);
        assert(t@.unreachable_modules =~= seq![]);
        assert(t@.eliminated_imports =~= seq![]);
        assert(t@.unused_variables =~= seq![]);
        assert(t@.removed_spans =~= seq![]);
        t
    }

    /// Adds a line to the record.
    pub fn add_mutation(&mut self, description: String)
        ensures
            final(self)@ == old(self)@.noted(description@),
    {
        proof {
            lemma_texts_push(self.mutations@, description);
        }
        self.mutations.push(description);
    }

    /// Records that a module has become unreachable, and why.
    pub fn mark_module_unreachable(&mut self, module_id: String, reason: String)
        ensures
            final(self)@ == old(self)@.marked(module_id@, reason@),
    {
        let mut line = "Module ".to_owned();
        line.append(module_id.as_str());
        line.append(" marked unreachable: ");
        line.append(reason.as_str());
        add_member(&mut self.unreachable_modules, module_id);
        self.add_mutation(line);
    }

    /// Records that the import of a module into a variable was eliminated.
    pub fn track_eliminated_import(&mut self, module_id: String, variable_name: String)
        ensures
            final(self)@ == old(self)@.eliminated(module_id@, variable_name@),
    {
        let mut line = "Import eliminated: ".to_owned();
        line.append(module_id.as_str());
        line.append(" -> ");
        line.append(variable_name.as_str());
        add_member(&mut self.eliminated_imports, module_id);
        add_member(&mut self.unused_variables, variable_name);
        self.add_mutation(line);
    }

    /// Records that a span was removed.
    pub fn track_removed_span(&mut self, start: usize, end: usize, context: String)
        ensures
            final(self)@ == old(self)@.removed(start, end, context@),
    {
        let mut line = "Removed span ".to_owned();
        line.append(decimal_text(start as u128).as_str());
        line.append("-");
        line.append(decimal_text(end as u128).as_str());
        line.append(": ");
        line.append(context.as_str());
        let span = RemovedSpan { start, end, context };
        assert(removed_views(self.removed_spans@.push(span)) =~= removed_views(
            self.removed_spans@,
        ).push(span@));
        self.removed_spans.push(span);
        self.add_mutation(line);
    }

    /// Whether anything was recorded.
    pub fn has_mutations(&self) -> (b: bool)
        ensures
            b == (self@.mutations.len() > 0),
    {
        self.mutations.len() > 0
    }

    /// How many modules have become unreachable.
    pub fn unreachable_module_count(&self) -> (n: usize)
        ensures
            n == self@.unreachable_modules.len(),
    {
        self.unreachable_modules.len()
    }
}

/// The variables that the loaded value of one module is bound to.
#[derive(Debug)]
pub struct VariableUsage {
    pub module_id: String,
    pub variables: Vec<String>,
}

impl View for VariableUsage {
    type V = (Seq<char>, Seq<Seq<char>>);

    open spec fn view(&self) -> (Seq<char>, Seq<Seq<char>>) {
        (self.module_id@, texts(self.variables@))
    }
}

/// The modules and variables of a list of usages.
pub open spec fn usage_views(usages: Seq<VariableUsage>) -> Seq<(Seq<char>, Seq<Seq<char>>)> {
    Seq::new(usages.len(), |i: int| usages[i]@)
}

/// The modules of a list of usages.
pub open spec fn usage_keys(usages: Seq<(Seq<char>, Seq<Seq<char>>)>) -> Seq<Seq<char>> {
    Seq::new(usages.len(), |i: int| usages[i].0)
}

/// The module and the variable of an import: the node is a declarator that
/// binds a name to `__webpack_require__(n)` for a numeric literal `n`.
pub open spec fn import_binding(n: NodeView) -> Option<(Seq<char>, Seq<char>)> {
    if n.kind == Kind::Declarator && n.children.len() == 2 && n.children[0].kind == Kind::Ident
        && n.children[1].kind == Kind::Call && n.children[1].children.len() >= 2 && is_ident(
        n.children[1].children[0],
        "__webpack_require__"@,
    ) && n.children[1].children[1].kind == Kind::Num {
        Some((canonical(n.children[1].children[1].text), n.children[0].text))
    } else {
        None
    }
}

/// The imports within `n`, in source order.
pub open spec fn import_bindings(n: NodeView) -> Seq<(Seq<char>, Seq<char>)>
    decreases n, 1int,
{
    let own = match import_binding(n) {
        Some(b) => seq![b],
        None => seq![],
    };
    own + import_bindings_all(n.children)
}

/// The imports within a sequence of nodes, in source order.
pub open spec fn import_bindings_all(nodes: Seq<NodeView>) -> Seq<(Seq<char>, Seq<char>)>
    decreases nodes, 0int,
{
    if nodes.len() == 0 {
        seq![]
    } else {
        import_bindings_all(nodes.drop_last()) + import_bindings(nodes.last())
    }
}

/// The usages with one more import: the variable joins the variables of its
/// module; a module not seen before goes to the end.
pub open spec fn with_usage(
    usages: Seq<(Seq<char>, Seq<Seq<char>>)>,
    module_id: Seq<char>,
    variable: Seq<char>,
) -> Seq<(Seq<char>, Seq<Seq<char>>)> {
    let at = position(usage_keys(usages), module_id, 0);
    if at < usages.len() {
        usages.update(at, (module_id, with_member(usages[at].1, variable)))
    } else {
        usages.push((module_id, seq![variable]))
    }
}

/// The usages that a list of imports amounts to.
pub open spec fn usages_of(bindings: Seq<(Seq<char>, Seq<char>)>) -> Seq<
    (Seq<char>, Seq<Seq<char>>),
>
    decreases bindings.len(),
{
    if bindings.len() == 0 {
        seq![]
    } else {
        with_usage(usages_of(bindings.drop_last()), bindings.last().0, bindings.last().1)
    }
}

/// The module and the variable of an import.
pub fn binding_of(n: &Node) -> (r: Option<(String, String)>)
    ensures
        r.is_some() == import_binding(n@).is_some(),
        r matches Some(b) ==> import_binding(n@) == Some((b.0@, b.1@)),
{
    proof {
        lemma_views(n.children@);
    }
    if n.kind == Kind::Declarator && n.children.len() == 2 && n.children[0].kind == Kind::Ident
        && n.children[1].kind == Kind::Call {
        let call = &n.children[1];
        proof {
            lemma_views(call.children@);
        }
        if call.children.len() >= 2 && call.children[0].kind == Kind::Ident
            && call.children[0].text == "__webpack_require__".to_owned()
            && call.children[1].kind == Kind::Num {
            return Some((canonical_text(&call.children[1].text), n.children[0].text.clone()));
        }
    }
    None
}

/// Records one more import.
fn add_usage(usages: &mut Vec<VariableUsage>, module_id: String, variable: String)
    ensures
        usage_views(final(usages)@) == with_usage(usage_views(old(usages)@), module_id@, variable@),
{
    let ghost before = usage_views(usages@);
    let ghost keys = usage_keys(before);
    let mut i: usize = 0;
    while i < usages.len()
        invariant
            i <= usages@.len(),
            before == usage_views(usages@),
            before == usage_views(old(usages)@),
            keys == usage_keys(before),
            position(keys, module_id@, 0) == position(keys, module_id@, i as int),
        decreases usages@.len() - i,
    {
        assert(keys[i as int] == usages@[i as int].module_id@);
        if usages[i].module_id == module_id {
            add_member(&mut usages[i].variables, variable);
            assert(usage_views(usages@) =~= before.update(
                i as int,
                (module_id@, with_member(before[i as int].1, variable@)),
            ));
            return ;
        }
        i += 1;
    }
    let mut variables: Vec<String> = Vec::new();
    variables.push(variable);
    assert(texts(variables@) =~= seq![variable@]);
    usages.push(VariableUsage { module_id, variables });
    assert(usage_views(usages@) =~= before.push((module_id@, seq![variable@])));
}

/// Records the imports within `n`, after those of `done`.
fn collect_usages(n: &Node, usages: &mut Vec<VariableUsage>, Ghost(done): Ghost<
    Seq<(Seq<char>, Seq<char>)>,
>)
    requires
        usage_views(old(usages)@) == usages_of(done),
    ensures
        usage_views(final(usages)@) == usages_of(done + import_bindings(n@)),
    decreases n,
{
    let ghost own = match import_binding(n@) {
        Some(b) => seq![b],
        None => seq![],
    };
    match binding_of(n) {
        Some((module_id, variable)) => {
            proof {
                let now = done + own;
                assert(now.drop_last() =~= done);
                assert(now.last() == (module_id@, variable@));
            }
            add_usage(usages, module_id, variable);
        },
        None => {
            assert(done + own =~= done);
        },
    }
    let ghost all = views(n.children@);
    let mut i: usize = 0;
    proof {
        lemma_views(n.children@);
        assert(all.subrange(0, 0) =~= seq![]);
        assert(done + own + seq![] =~= done + own);
    }
    while i < n.children.len()
        invariant
            i <= n.children@.len(),
            all == views(n.children@),
            all.len() == n.children@.len(),
            usage_views(usages@) == usages_of(
                done + own + import_bindings_all(all.subrange(0, i as int)),
            ),
        decreases n.children@.len() - i,
    {
        let ghost sofar = done + own + import_bindings_all(all.subrange(0, i as int));
        proof {
            lemma_views(n.children@);
            let prefix = all.subrange(0, i + 1);
            assert(prefix.drop_last() =~= all.subrange(0, i as int));
            assert(prefix.last() == n.children@[i as int]@);
        }
        collect_usages(&n.children[i], usages, Ghost(sofar));
        proof {
            let next = import_bindings(n.children@[i as int]@);
            assert(sofar + next =~= done + own + (import_bindings_all(all.subrange(0, i as int))
                + next));
        }
        i += 1;
    }
    proof {
        assert(all.subrange(0, i as int) =~= all);
        assert(done + own + import_bindings_all(all) =~= done + (own + import_bindings_all(all)));
    }
}

/// Finds, for every module that a unit imports, the variables that its
/// loaded value is bound to.
pub fn analyze_variable_usage(program: &Node) -> (usages: Vec<VariableUsage>)
    ensures
        usage_views(usages@) == usages_of(import_bindings(program@)),
{
    let mut usages: Vec<VariableUsage> = Vec::new();
    assert(usage_views(usages@) =~= seq![]);
    collect_usages(program, &mut usages, Ghost(Seq::empty()));
    assert(Seq::<(Seq<char>, Seq<char>)>::empty() =~= seq![]);
    assert(seq![] + import_bindings(program@) =~= import_bindings(program@));
    usages
}

/// Whether the loaded value of `module_id` is bound to `variable`.
pub open spec fn has_variable(
    usages: Seq<(Seq<char>, Seq<Seq<char>>)>,
    module_id: Seq<char>,
    variable: Seq<char>,
) -> bool {
    let at = position(usage_keys(usages), module_id, 0);
    at < usages.len() && usages[at].1.contains(variable)
}

/// The record after the first `n` variables of one module have been
/// compared: every variable that `after` no longer has is recorded as an
/// eliminated import.
pub open spec fn compared_variables(
    t: TrackerView,
    module_id: Seq<char>,
    variables: Seq<Seq<char>>,
    after: Seq<(Seq<char>, Seq<Seq<char>>)>,
    n: int,
) -> TrackerView
    decreases n,
{
    if n <= 0 || n > variables.len() {
        t
    } else {
        let so_far = compared_variables(t, module_id, variables, after, n - 1);
        if has_variable(after, module_id, variables[n - 1]) {
            so_far
        } else {
            so_far.eliminated(module_id, variables[n - 1])
        }
    }
}

/// The record after the first `n` modules of `before` have been compared
/// with `after`.
pub open spec fn compared(
    t: TrackerView,
    before: Seq<(Seq<char>, Seq<Seq<char>>)>,
    after: Seq<(Seq<char>, Seq<Seq<char>>)>,
    n: int,
) -> TrackerView
    decreases n,
{
    if n <= 0 || n > before.len() {
        t
    } else {
        compared_variables(
            compared(t, before, after, n - 1),
            before[n - 1].0,
            before[n - 1].1,
            after,
            before[n - 1].1.len() as int,
        )
    }
}

/// Whether the loaded value of `module_id` is bound to `variable`.
pub fn uses_variable(usages: &Vec<VariableUsage>, module_id: &String, variable: &String) -> (b:
    bool)
    ensures
        b == has_variable(usage_views(usages@), module_id@, variable@),
{
    let ghost keys = usage_keys(usage_views(usages@));
    let mut i: usize = 0;
    while i < usages.len()
        invariant
            i <= usages@.len(),
            keys == usage_keys(usage_views(usages@)),
            position(keys, module_id@, 0) == position(keys, module_id@, i as int),
        decreases usages@.len() - i,
    {
        assert(keys[i as int] == usages@[i as int].module_id@);
        if usages[i].module_id == *module_id {
            assert(usage_views(usages@)[i as int].1 == texts(usages@[i as int].variables@));
            return has_text(&usages[i].variables, variable);
        }
        i += 1;
    }
    false
}

/// Compares the imports before and after an optimisation and records every
/// import that is gone.
pub fn track_eliminated_dependencies(
    before: &Vec<VariableUsage>,
    after: &Vec<VariableUsage>,
    mutation_tracker: &mut MutationTracker,
)
    ensures
        final(mutation_tracker)@ == compared(
            old(mutation_tracker)@,
            usage_views(before@),
            usage_views(after@),
            before@.len() as int,
        ),
{
    let ghost start = mutation_tracker@;
    let ghost b = usage_views(before@);
    let ghost a = usage_views(after@);
    let mut i: usize = 0;
    while i < before.len()
        invariant
            i <= before@.len(),
            b == usage_views(before@),
            a == usage_views(after@),
            mutation_tracker@ == compared(start, b, a, i as int),
        decreases before@.len() - i,
    {
        let usage = &before[i];
        let ghost at_module = mutation_tracker@;
        assert(b[i as int] == usage@);
        let mut k: usize = 0;
        while k < usage.variables.len()
            invariant
                k <= usage.variables@.len(),
                a == usage_views(after@),
                mutation_tracker@ == compared_variables(
                    at_module,
                    usage.module_id@,
                    texts(usage.variables@),
                    a,
                    k as int,
                ),
            decreases usage.variables@.len() - k,
        {
            if !uses_variable(after, &usage.module_id, &usage.variables[k]) {
                mutation_tracker.track_eliminated_import(
                    usage.module_id.clone(),
                    usage.variables[k].clone(),
                );
            }
            k += 1;
        }
        i += 1;
    }
}

/// The modules whose identifier is not in `gone`, in order.
pub open spec fn modules_without(modules: Seq<WebpackModuleView>, gone: Seq<Seq<char>>) -> Seq<
    WebpackModuleView,
>
    decreases modules.len(),
{
    if modules.len() == 0 {
        seq![]
    } else if gone.contains(modules.last().id) {
        modules_without(modules.drop_last(), gone)
    } else {
        modules_without(modules.drop_last(), gone).push(modules.last())
    }
}

/// Whether a module is an entry point or a dependency of some module.
pub open spec fn still_referenced(g: WebpackModuleGraphView, module_id: Seq<char>) -> bool {
    g.entry_modules.contains(module_id) || exists|i: int|
        0 <= i < g.modules.len() && (#[trigger] g.modules[i]).dependencies.contains(module_id)
}

/// The graph after the first `n` eliminated imports have been looked at:
/// a module whose import was eliminated leaves the graph unless it is
/// still referenced.
pub open spec fn after_imports(g: WebpackModuleGraphView, imports: Seq<Seq<char>>, n: int) -> WebpackModuleGraphView
    decreases n,
{
    if n <= 0 || n > imports.len() {
        g
    } else {
        let so_far = after_imports(g, imports, n - 1);
        if still_referenced(so_far, imports[n - 1]) {
            so_far
        } else {
            WebpackModuleGraphView {
                modules: modules_without(so_far.modules, seq![imports[n - 1]]),
                ..so_far
            }
        }
    }
}

/// The graph after a record was applied to it: the modules marked
/// unreachable leave it, then the modules whose import was eliminated and
/// that nothing refers to any more.
pub open spec fn insights_applied(g: WebpackModuleGraphView, t: TrackerView) -> WebpackModuleGraphView {
    after_imports(
        WebpackModuleGraphView { modules: modules_without(g.modules, t.unreachable_modules), ..g },
        t.eliminated_imports,
        t.eliminated_imports.len() as int,
    )
}

/// Whether a module is an entry point or a dependency of some module.
pub fn is_module_still_referenced(module_graph: &WebpackModuleGraph, module_id: &str) -> (b: bool)
    ensures
        b == still_referenced(module_graph@, module_id@),
{
    let id = module_id.to_owned();
    if has_text(&module_graph.entry_modules, &id) {
        return true;
    }
    let mut i: usize = 0;
    while i < module_graph.modules.len()
        invariant
            i <= module_graph.modules@.len(),
            id@ == module_id@,
            forall|k: int|
                0 <= k < i ==> !(#[trigger] module_graph@.modules[k]).dependencies.contains(
                    module_id@,
                ),
        decreases module_graph.modules@.len() - i,
    {
        if has_text(&module_graph.modules[i].dependencies, &id) {
            assert(module_graph@.modules[i as int].dependencies.contains(module_id@));
            return true;
        }
        i += 1;
    }
    false
}

/// Takes out of `modules` those whose identifier is in `gone`.
fn remove_modules(modules: &mut Vec<WebpackModule>, gone: &Vec<String>)
    ensures
        module_views(final(modules)@) == modules_without(module_views(old(modules)@), texts(gone@)),
{
    let ghost all = module_views(modules@);
    let ghost g = texts(gone@);
    let mut i: usize = 0;
    let ghost mut k: int = 0;
    assert(all.subrange(0, 0) =~= seq![]);
    assert(module_views(modules@) =~= seq![] + all.subrange(0, all.len() as int));
    while i < modules.len()
        invariant
            0 <= k <= all.len(),
            i <= modules@.len(),
            g == texts(gone@),
            modules@.len() - i == all.len() - k,
            module_views(modules@) == modules_without(all.subrange(0, k), g) + all.subrange(
                k,
                all.len() as int,
            ),
            modules_without(all.subrange(0, k), g).len() == i,
        decreases modules@.len() - i,
    {
        let ghost kept = modules_without(all.subrange(0, k), g);
        let ghost prefix = all.subrange(0, k + 1);
        proof {
            assert(prefix.drop_last() =~= all.subrange(0, k));
            assert(prefix.last() == all[k]);
            assert(module_views(modules@)[i as int] == all[k]);
        }
        if has_text(gone, &modules[i].id) {
            let ghost before = module_views(modules@);
            modules.remove(i);
            assert(module_views(modules@) =~= before.remove(i as int));
            assert(before.remove(i as int) =~= kept + all.subrange(k + 1, all.len() as int));
        } else {
            assert(module_views(modules@) =~= kept.push(all[k]) + all.subrange(
                k + 1,
                all.len() as int,
            ));
            i += 1;
        }
        proof {
            k = k + 1;
        }
    }
    assert(all.subrange(0, k) =~= all);
    assert(module_views(modules@) =~= modules_without(all, g));
}

/// Applies a record to a module graph.
pub fn apply_mutation_insights_to_graph(
    module_graph: &mut WebpackModuleGraph,
    mutation_tracker: &MutationTracker,
)
    ensures
        final(module_graph)@ == insights_applied(old(module_graph)@, mutation_tracker@),
{
    remove_modules(&mut module_graph.modules, &mutation_tracker.unreachable_modules);
    let ghost start = module_graph@;
    let ghost imports = mutation_tracker@.eliminated_imports;
    let mut i: usize = 0;
    while i < mutation_tracker.eliminated_imports.len()
        invariant
            i <= mutation_tracker.eliminated_imports@.len(),
            imports == mutation_tracker@.eliminated_imports,
            module_graph@ == after_imports(start, imports, i as int),
        decreases mutation_tracker.eliminated_imports@.len() - i,
    {
        let import = &mutation_tracker.eliminated_imports[i];
        assert(imports[i as int] == import@);
        if !is_module_still_referenced(module_graph, import.as_str()) {
            let mut one: Vec<String> = Vec::new();
            one.push(import.clone());
            assert(texts(one@) =~= seq![import@]);
            remove_modules(&mut module_graph.modules, &one);
        }
        i += 1;
    }
}

impl Default for MutationTracker {
    fn default() -> (t: MutationTracker)
        ensures
            t@ == TrackerView::empty(),
    {
        MutationTracker::new()
    }
}

} // verus!
