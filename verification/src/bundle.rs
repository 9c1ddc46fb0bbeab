//! Recognition of the bundle format in a syntax tree: the modules table, the
//! module definitions in it, and the calls of the load function.

use vstd::prelude::*;
use crate::ast::{lemma_views, views, Kind, Node, NodeView};
use crate::text::{chars_of, lemma_texts_push, slice_of, texts};

verus! {

/// The two names by which a bundle is recognised.
#[derive(Debug)]
pub struct BundleFormat {
    /// The name of the function that loads a module.
    pub load_function: String,
    /// The name of the variable that holds the modules table.
    pub modules_table: String,
}

/// The names of a bundle format.
pub ghost struct FormatView {
    pub load_function: Seq<char>,
    pub modules_table: Seq<char>,
}

impl View for BundleFormat {
    type V = FormatView;

    open spec fn view(&self) -> FormatView {
        FormatView { load_function: self.load_function@, modules_table: self.modules_table@ }
    }
}

impl BundleFormat {
    /// The names that the bundler uses unless told otherwise.
    pub open spec fn standard() -> FormatView {
        FormatView {
            load_function: "__webpack_require__"@,
            modules_table: "__webpack_modules__"@,
        }
    }

/// The format with the names that the bundler uses unless told otherwise.
    pub fn webpack() -> (f: BundleFormat)
        ensures
            f@ == BundleFormat::standard(),
    {
        BundleFormat {
            load_function: "__webpack_require__".to_owned(),
            modules_table: "__webpack_modules__".to_owned(),
        }
    }

/// A format with names of one's own.
    pub fn new(load_function: String, modules_table: String) -> (f: BundleFormat)
        ensures
            f@ == (FormatView {
                load_function: load_function@,
                modules_table: modules_table@,
            }),
    {
        BundleFormat { load_function, modules_table }
    }
}

/// The canonical form of a number's decimal rendering: a trailing `.0` is
/// left out.
pub open spec fn canonical(text: Seq<char>) -> Seq<char> {
    if text.len() >= 2 && text[text.len() - 2] == '.' && text[text.len() - 1] == '0' {
        text.subrange(0, text.len() - 2)
    } else {
        text
    }
}

/// The module identifier that a literal stands for: the canonical rendering
/// of a number, the value of a string. Other nodes stand for none.
pub open spec fn module_id(n: NodeView) -> Option<Seq<char>> {
    if n.kind == Kind::Num {
        Some(canonical(n.text))
    } else if n.kind == Kind::Str {
        Some(n.text)
    } else {
        None
    }
}

/// Whether a node is a function or arrow expression.
pub open spec fn is_module_function(n: NodeView) -> bool {
    n.kind == Kind::Function || n.kind == Kind::Arrow
}

/// The identifier that a property defines a module under, if the property
/// has the form `key: value` with a numeric or string key.
pub open spec fn defined_id(prop: NodeView) -> Option<Seq<char>> {
    if prop.kind == Kind::KeyValue && prop.children.len() == 2 {
        module_id(prop.children[0])
    } else {
        None
    }
}

/// Whether a property has the shape of a module definition: a numeric or
/// string key that maps to a function.
pub open spec fn is_module_like(prop: NodeView) -> bool {
    defined_id(prop) is Some && is_module_function(prop.children[1])
}

/// How many of the properties have the shape of a module definition.
pub open spec fn module_like_count(props: Seq<NodeView>) -> nat
    decreases props.len(),
{
    if props.len() == 0 {
        0
    } else {
        module_like_count(props.drop_last()) + if is_module_like(props.last()) {
            1nat
        } else {
            0nat
        }
    }
}

/// Whether an object literal has the shape of a modules table: it has a
/// property, and at least 60 % of its properties have the shape of a module
/// definition.
pub open spec fn looks_like_table(n: NodeView) -> bool {
    n.kind == Kind::Object && n.children.len() > 0 && 5 * module_like_count(n.children) >= 3
        * n.children.len()
}

/// Whether a node is the identifier `name`.
pub open spec fn is_ident(n: NodeView, name: Seq<char>) -> bool {
    n.kind == Kind::Ident && n.text == name
}

/// The object literal that an expression is, directly or in parentheses.
pub open spec fn object_of(v: NodeView) -> Option<NodeView> {
    if v.kind == Kind::Object {
        Some(v)
    } else if v.kind == Kind::Paren && v.children.len() == 1 && v.children[0].kind == Kind::Object {
        Some(v.children[0])
    } else {
        None
    }
}

/// The expression `v` with the object literal `o` in the place of the one
/// that it is.
pub open spec fn with_object(v: NodeView, o: NodeView) -> NodeView {
    if v.kind == Kind::Object {
        o
    } else {
        NodeView { children: seq![o], ..v }
    }
}

/// Whether a node binds a value to a target: a declarator with an
/// initialiser, or an assignment.
pub open spec fn is_binding(x: NodeView) -> bool {
    (x.kind == Kind::Declarator || x.kind == Kind::Assign) && x.children.len() == 2
}

/// Whether a node binds a value to the modules-table symbol.
pub open spec fn binds_symbol(x: NodeView, fmt: FormatView) -> bool {
    is_binding(x) && is_ident(x.children[0], fmt.modules_table)
}

/// The expression at a top-level expression position: the value that a
/// binding binds, or the node itself.
pub open spec fn value_of(x: NodeView) -> NodeView {
    if is_binding(x) {
        x.children[1]
    } else {
        x
    }
}

/// The node `x` with `v` as the expression at its position.
pub open spec fn with_value(x: NodeView, v: NodeView) -> NodeView {
    if is_binding(x) {
        NodeView { children: x.children.update(1, v), ..x }
    } else {
        v
    }
}

/// Whether the child `i` of the top-level statement `s` holds a top-level
/// expression position: it is the expression of an expression statement,
/// which may be an assignment, or a declarator of a declaration.
pub open spec fn is_position(s: NodeView, i: int) -> bool {
    0 <= i < s.children.len() && if s.kind == Kind::ExprStmt {
        s.children.len() == 1
    } else {
        s.children[i].kind == Kind::Declarator
    }
}

/// The modules table at a top-level position. Where the unit binds its
/// table to the modules-table symbol (`by_symbol`), the table is the object
/// literal bound to that symbol, directly or in parentheses. Otherwise it
/// is the object literal at the position, directly or in parentheses, if it
/// has the shape of a modules table.
pub open spec fn table_in(x: NodeView, fmt: FormatView, by_symbol: bool) -> Option<NodeView> {
    if by_symbol {
        if binds_symbol(x, fmt) {
            object_of(x.children[1])
        } else {
            None
        }
    } else {
        match object_of(value_of(x)) {
            Some(o) => if looks_like_table(o) {
                Some(o)
            } else {
                None
            },
            None => None,
        }
    }
}

/// Whether one of the first `n` children of a top-level statement binds an
/// object literal to the modules-table symbol.
pub open spec fn statement_uses_symbol(s: NodeView, fmt: FormatView, n: int) -> bool {
    exists|i: int| 0 <= i < n && is_position(s, i) && #[trigger] table_in(s.children[i], fmt, true) is Some
}

/// Whether one of the first `n` top-level statements of the unit binds an
/// object literal to the modules-table symbol.
pub open spec fn uses_symbol_upto(program: NodeView, fmt: FormatView, n: int) -> bool {
    exists|k: int|
        0 <= k < n && k < program.children.len() && #[trigger] statement_uses_symbol(
            program.children[k],
            fmt,
            program.children[k].children.len() as int,
        )
}

/// Whether the unit declares its modules table by the symbol: a top-level
/// declaration or assignment binds an object literal to it. Only where it
/// does not is a table known by its shape.
pub open spec fn uses_symbol(program: NodeView, fmt: FormatView) -> bool {
    uses_symbol_upto(program, fmt, program.children.len() as int)
}

/// The module that a call loads: the call's callee is the load function
/// and its first argument is a numeric or string literal.
pub open spec fn load_target(n: NodeView, fmt: FormatView) -> Option<Seq<char>> {
    if n.kind == Kind::Call && n.children.len() >= 2 && is_ident(n.children[0], fmt.load_function) {
        module_id(n.children[1])
    } else {
        None
    }
}

/// The modules that the calls within a node load, in source order. Every
/// call counts, however deep it lies.
pub open spec fn requires_in(n: NodeView, fmt: FormatView) -> Seq<Seq<char>>
    decreases n, 1int,
{
    let own = match load_target(n, fmt) {
        Some(id) => seq![id],
        None => seq![],
    };
    own + requires_in_all(n.children, fmt)
}

/// The modules that the calls within a sequence of nodes load.
pub open spec fn requires_in_all(nodes: Seq<NodeView>, fmt: FormatView) -> Seq<Seq<char>>
    decreases nodes, 0int,
{
    if nodes.len() == 0 {
        seq![]
    } else {
        requires_in_all(nodes.drop_last(), fmt) + requires_in(nodes.last(), fmt)
    }
}

/// The modules that the calls at a top-level position load outside the
/// modules table that stands there, if one does.
pub open spec fn position_entries(x: NodeView, fmt: FormatView, by_symbol: bool) -> Seq<Seq<char>> {
    if table_in(x, fmt, by_symbol) is Some {
        if is_binding(x) {
            requires_in(x.children[0], fmt)
        } else {
            seq![]
        }
    } else {
        requires_in(x, fmt)
    }
}

/// The modules that the calls within the child `i` of a top-level statement
/// load outside the modules tables.
pub open spec fn child_entries(s: NodeView, i: int, fmt: FormatView, by_symbol: bool) -> Seq<
    Seq<char>,
> {
    if is_position(s, i) {
        position_entries(s.children[i], fmt, by_symbol)
    } else {
        requires_in(s.children[i], fmt)
    }
}

/// The modules that the calls within the first `n` children of a top-level
/// statement load outside the modules tables.
pub open spec fn children_entries(s: NodeView, fmt: FormatView, by_symbol: bool, n: int) -> Seq<
    Seq<char>,
>
    decreases n,
{
    if n <= 0 || n > s.children.len() {
        seq![]
    } else {
        children_entries(s, fmt, by_symbol, n - 1) + child_entries(s, n - 1, fmt, by_symbol)
    }
}

/// The modules that the calls within a top-level statement load outside
/// the modules tables, in source order.
pub open spec fn statement_entries(s: NodeView, fmt: FormatView, by_symbol: bool) -> Seq<Seq<char>> {
    (match load_target(s, fmt) {
        Some(id) => seq![id],
        None => seq![],
    }) + children_entries(s, fmt, by_symbol, s.children.len() as int)
}

/// The modules that the calls within the first `n` top-level statements
/// load outside the modules tables.
pub open spec fn entry_calls_upto(program: NodeView, fmt: FormatView, by_symbol: bool, n: int) -> Seq<
    Seq<char>,
>
    decreases n,
{
    if n <= 0 || n > program.children.len() {
        seq![]
    } else {
        entry_calls_upto(program, fmt, by_symbol, n - 1) + statement_entries(
            program.children[n - 1],
            fmt,
            by_symbol,
        )
    }
}

/// The modules that the calls of the unit load from outside its modules
/// tables, in source order. Every call counts, however deep it lies, unless
/// it lies within a modules table.
pub open spec fn entry_calls(program: NodeView, fmt: FormatView) -> Seq<Seq<char>> {
    entry_calls_upto(program, fmt, uses_symbol(program, fmt), program.children.len() as int)
}

/// The name of the property that a member access reads from the object
/// `object`: the node has the form `object.name`.
pub open spec fn member_of(n: NodeView, object: Seq<char>) -> Option<Seq<char>> {
    if n.kind == Kind::Member && n.children.len() == 2 && is_ident(n.children[0], object)
        && n.children[1].kind == Kind::Ident {
        Some(n.children[1].text)
    } else {
        None
    }
}

/// The name that a node exports: it is a member access on `exports` or on
/// `__webpack_exports__`.
pub open spec fn exported(n: NodeView) -> Option<Seq<char>> {
    match member_of(n, "exports"@) {
        Some(name) => Some(name),
        None => member_of(n, "__webpack_exports__"@),
    }
}

/// The names that the nodes within `n` export, in source order.
pub open spec fn exports_in(n: NodeView) -> Seq<Seq<char>>
    decreases n, 1int,
{
    let own = match exported(n) {
        Some(name) => seq![name],
        None => seq![],
    };
    own + exports_in_all(n.children)
}

/// The names that the nodes within a sequence of nodes export.
pub open spec fn exports_in_all(nodes: Seq<NodeView>) -> Seq<Seq<char>>
    decreases nodes, 0int,
{
    if nodes.len() == 0 {
        seq![]
    } else {
        exports_in_all(nodes.drop_last()) + exports_in(nodes.last())
    }
}

/// The properties of the load function that the nodes within `n` read, in
/// source order.
pub open spec fn runtime_in(n: NodeView, fmt: FormatView) -> Seq<Seq<char>>
    decreases n, 1int,
{
    let own = match member_of(n, fmt.load_function) {
        Some(name) => seq![name],
        None => seq![],
    };
    own + runtime_in_all(n.children, fmt)
}

/// The properties of the load function that the nodes within a sequence
/// of nodes read.
pub open spec fn runtime_in_all(nodes: Seq<NodeView>, fmt: FormatView) -> Seq<Seq<char>>
    decreases nodes, 0int,
{
    if nodes.len() == 0 {
        seq![]
    } else {
        runtime_in_all(nodes.drop_last(), fmt) + runtime_in(nodes.last(), fmt)
    }
}

/// Whether a node by itself may change state: an assignment, an increment
/// or decrement, a method call, or a call of a named function other than
/// the load function.
pub open spec fn is_effect(n: NodeView, fmt: FormatView) -> bool {
    n.kind == Kind::Assign || n.kind == Kind::Update || (n.kind == Kind::Call && n.children.len()
        >= 1 && (n.children[0].kind == Kind::Member || (n.children[0].kind == Kind::Ident
        && n.children[0].text != fmt.load_function)))
}

/// Whether a node within `n` may change state.
pub open spec fn has_effect(n: NodeView, fmt: FormatView) -> bool
    decreases n, 1int,
{
    is_effect(n, fmt) || has_effect_any(n.children, fmt)
}

/// Whether a node within a sequence of nodes may change state.
pub open spec fn has_effect_any(nodes: Seq<NodeView>, fmt: FormatView) -> bool
    decreases nodes, 0int,
{
    if nodes.len() == 0 {
        false
    } else {
        has_effect_any(nodes.drop_last(), fmt) || has_effect(nodes.last(), fmt)
    }
}

/// A module definition found in a modules table: its identifier, the
/// modules that its body loads and the names it exports, in source order,
/// and whether its body may change state.
pub ghost struct DefinitionView {
    pub id: Seq<char>,
    pub loads: Seq<Seq<char>>,
    pub exports: Seq<Seq<char>>,
    pub has_side_effects: bool,
}

/// The module definitions among the properties of a modules table, in
/// order.
pub open spec fn definitions_of(props: Seq<NodeView>, fmt: FormatView) -> Seq<DefinitionView>
    decreases props.len(),
{
    if props.len() == 0 {
        seq![]
    } else {
        let before = definitions_of(props.drop_last(), fmt);
        match defined_id(props.last()) {
            Some(id) => before.push(
                DefinitionView {
                    id,
                    loads: requires_in(props.last().children[1], fmt),
                    exports: exports_in(props.last().children[1]),
                    has_side_effects: has_effect(props.last().children[1], fmt),
                },
            ),
            None => before,
        }
    }
}

/// The module definitions of the modules table at a top-level position.
pub open spec fn position_definitions(x: NodeView, fmt: FormatView, by_symbol: bool) -> Seq<
    DefinitionView,
> {
    match table_in(x, fmt, by_symbol) {
        Some(o) => definitions_of(o.children, fmt),
        None => seq![],
    }
}

/// The module definitions of the modules tables among the first `n`
/// children of a top-level statement.
pub open spec fn statement_definitions(s: NodeView, fmt: FormatView, by_symbol: bool, n: int) -> Seq<
    DefinitionView,
>
    decreases n,
{
    if n <= 0 || n > s.children.len() {
        seq![]
    } else if is_position(s, n - 1) {
        statement_definitions(s, fmt, by_symbol, n - 1) + position_definitions(
            s.children[n - 1],
            fmt,
            by_symbol,
        )
    } else {
        statement_definitions(s, fmt, by_symbol, n - 1)
    }
}

/// The module definitions of the modules tables of the first `n` top-level
/// statements.
pub open spec fn definitions_upto(program: NodeView, fmt: FormatView, by_symbol: bool, n: int) -> Seq<
    DefinitionView,
>
    decreases n,
{
    if n <= 0 || n > program.children.len() {
        seq![]
    } else {
        definitions_upto(program, fmt, by_symbol, n - 1) + statement_definitions(
            program.children[n - 1],
            fmt,
            by_symbol,
            program.children[n - 1].children.len() as int,
        )
    }
}

/// The module definitions of the unit, in source order: those of the
/// modules tables at its top-level positions. A table is looked for at the
/// top level only: in the declarations, assignments and expression
/// statements of the unit itself.
pub open spec fn definitions(program: NodeView, fmt: FormatView) -> Seq<DefinitionView> {
    definitions_upto(program, fmt, uses_symbol(program, fmt), program.children.len() as int)
}

/// A module definition found in a modules table.
#[derive(Debug)]
pub struct Definition {
    pub id: String,
    pub loads: Vec<String>,
    pub exports: Vec<String>,
    pub has_side_effects: bool,
}

impl View for Definition {
    type V = DefinitionView;

    open spec fn view(&self) -> DefinitionView {
        DefinitionView {
            id: self.id@,
            loads: texts(self.loads@),
            exports: texts(self.exports@),
            has_side_effects: self.has_side_effects,
        }
    }
}

/// The values of a list of definitions.
pub open spec fn definition_views(defs: Seq<Definition>) -> Seq<DefinitionView> {
    Seq::new(defs.len(), |i: int| defs[i]@)
}

/// The canonical form of a number's decimal rendering.
pub fn canonical_text(text: &String) -> (out: String)
    ensures
        out@ == canonical(text@),
{
    let v = chars_of(text.as_str());
    let n = v.len();
    if n >= 2 && v[n - 2] == '.' && v[n - 1] == '0' {
        slice_of(text.as_str(), 0, n - 2)
    } else {
        text.clone()
    }
}

/// The module identifier that a literal stands for.
pub fn literal_id(n: &Node) -> (r: Option<String>)
    ensures
        r.is_some() == module_id(n@).is_some(),
        r matches Some(s) ==> module_id(n@) == Some(s@),
{
    if n.kind == Kind::Num {
        Some(canonical_text(&n.text))
    } else if n.kind == Kind::Str {
        Some(n.text.clone())
    } else {
        None
    }
}

/// Whether a node is a function or arrow expression.
pub fn module_function(n: &Node) -> (b: bool)
    ensures
        b == is_module_function(n@),
{
    n.kind == Kind::Function || n.kind == Kind::Arrow
}

/// The identifier that a property defines a module under.
pub fn property_id(prop: &Node) -> (r: Option<String>)
    ensures
        r.is_some() == defined_id(prop@).is_some(),
        r matches Some(s) ==> defined_id(prop@) == Some(s@),
{
    proof {
        lemma_views(prop.children@);
    }
    if prop.kind == Kind::KeyValue && prop.children.len() == 2 {
        literal_id(&prop.children[0])
    } else {
        None
    }
}

/// Whether a property has the shape of a module definition.
pub fn module_like(prop: &Node) -> (b: bool)
    ensures
        b == is_module_like(prop@),
{
    proof {
        lemma_views(prop.children@);
    }
    if prop.kind == Kind::KeyValue && prop.children.len() == 2 {
        let key = &prop.children[0];
        (key.kind == Kind::Num || key.kind == Kind::Str) && module_function(&prop.children[1])
    } else {
        false
    }
}

/// Whether an object literal has the shape of a modules table.
pub fn table_shaped(n: &Node) -> (b: bool)
    ensures
        b == looks_like_table(n@),
{
    if n.kind != Kind::Object || n.children.len() == 0 {
        return false;
    }
    let ghost props = views(n.children@);
    let total = n.children.len();
    let mut count: usize = 0;
    let mut i: usize = 0;
    proof {
        lemma_views(n.children@);
        assert(props.subrange(0, 0) =~= seq![]);
    }
    while i < total
        invariant
            i <= total,
            total == n.children@.len(),
            props == views(n.children@),
            props.len() == total,
            count <= i,
            count == module_like_count(props.subrange(0, i as int)),
        decreases total - i,
    {
        proof {
            lemma_views(n.children@);
            let prefix = props.subrange(0, i + 1);
            assert(prefix.drop_last() =~= props.subrange(0, i as int));
            assert(prefix.last() == n.children@[i as int]@);
        }
        if module_like(&n.children[i]) {
            count += 1;
        }
        i += 1;
    }
    assert(props.subrange(0, i as int) =~= props);
    (count as u128) * 5 >= (total as u128) * 3
}

/// Whether a node is the identifier `name`.
pub fn ident_named(n: &Node, name: &String) -> (b: bool)
    ensures
        b == is_ident(n@, name@),
{
    n.kind == Kind::Ident && n.text == *name
}

/// The object literal that an expression is, directly or in parentheses.
pub fn object_at<'a>(v: &'a Node) -> (r: Option<&'a Node>)
    ensures
        r.is_some() == object_of(v@).is_some(),
        r matches Some(o) ==> object_of(v@) == Some(o@),
{
    proof {
        lemma_views(v.children@);
    }
    if v.kind == Kind::Object {
        Some(v)
    } else if v.kind == Kind::Paren && v.children.len() == 1 && v.children[0].kind == Kind::Object {
        Some(&v.children[0])
    } else {
        None
    }
}

/// Whether a node binds a value to a target.
pub fn binding(x: &Node) -> (b: bool)
    ensures
        b == is_binding(x@),
{
    proof {
        lemma_views(x.children@);
    }
    (x.kind == Kind::Declarator || x.kind == Kind::Assign) && x.children.len() == 2
}

/// The expression at a top-level expression position.
pub fn position_value<'a>(x: &'a Node) -> (v: &'a Node)
    ensures
        v@ == value_of(x@),
{
    proof {
        lemma_views(x.children@);
    }
    if binding(x) {
        &x.children[1]
    } else {
        x
    }
}

/// The modules table at a top-level position.
pub fn position_table<'a>(x: &'a Node, fmt: &BundleFormat, by_symbol: bool) -> (r: Option<
    &'a Node,
>)
    ensures
        r.is_some() == table_in(x@, fmt@, by_symbol).is_some(),
        r matches Some(o) ==> table_in(x@, fmt@, by_symbol) == Some(o@),
{
    proof {
        lemma_views(x.children@);
    }
    if by_symbol {
        if binding(x) && ident_named(&x.children[0], &fmt.modules_table) {
            object_at(&x.children[1])
        } else {
            None
        }
    } else {
        match object_at(position_value(x)) {
            Some(o) => if table_shaped(o) {
                Some(o)
            } else {
                None
            },
            None => None,
        }
    }
}

/// Whether the child `i` of a top-level statement holds a top-level
/// expression position.
pub fn holds_position(s: &Node, i: usize) -> (b: bool)
    requires
        i < s.children@.len(),
    ensures
        b == is_position(s@, i as int),
{
    proof {
        lemma_views(s.children@);
    }
    if s.kind == Kind::ExprStmt {
        s.children.len() == 1
    } else {
        s.children[i].kind == Kind::Declarator
    }
}

/// Whether the unit declares its modules table by the symbol.
pub fn unit_uses_symbol(program: &Node, fmt: &BundleFormat) -> (b: bool)
    ensures
        b == uses_symbol(program@, fmt@),
{
    let ghost p = program@;
    let mut k: usize = 0;
    proof {
        lemma_views(program.children@);
    }
    while k < program.children.len()
        invariant
            k <= program.children@.len(),
            p == program@,
            p.children.len() == program.children@.len(),
            !uses_symbol_upto(p, fmt@, k as int),
        decreases program.children@.len() - k,
    {
        let s = &program.children[k];
        let mut i: usize = 0;
        proof {
            lemma_views(program.children@);
            lemma_views(s.children@);
        }
        while i < s.children.len()
            invariant
                i <= s.children@.len(),
                k < p.children.len(),
                p == program@,
                p.children[k as int] == s@,
                s@.children.len() == s.children@.len(),
                !statement_uses_symbol(s@, fmt@, i as int),
            decreases s.children@.len() - i,
        {
            proof {
                lemma_views(s.children@);
            }
            if holds_position(s, i) && position_table(&s.children[i], fmt, true).is_some() {
                proof {
                    assert(table_in(s@.children[i as int], fmt@, true) is Some);
                    assert(statement_uses_symbol(s@, fmt@, s@.children.len() as int));
                    assert(uses_symbol_upto(p, fmt@, p.children.len() as int));
                }
                return true;
            }
            i += 1;
        }
        k += 1;
    }
    false
}

/// The module that a call loads.
pub fn call_target(n: &Node, fmt: &BundleFormat) -> (r: Option<String>)
    ensures
        r.is_some() == load_target(n@, fmt@).is_some(),
        r matches Some(s) ==> load_target(n@, fmt@) == Some(s@),
{
    proof {
        lemma_views(n.children@);
    }
    if n.kind == Kind::Call && n.children.len() >= 2 && ident_named(
        &n.children[0],
        &fmt.load_function,
    ) {
        literal_id(&n.children[1])
    } else {
        None
    }
}

/// Appends the modules that the calls within `n` load.
pub fn collect_requires(n: &Node, fmt: &BundleFormat, out: &mut Vec<String>)
    ensures
        texts(final(out)@) == texts(old(out)@) + requires_in(n@, fmt@),
    decreases n,
{
    let ghost start = texts(out@);
    match call_target(n, fmt) {
        Some(id) => {
            proof {
                lemma_texts_push(out@, id);
            }
            out.push(id);
        },
        None => {},
    }
    let ghost own = texts(out@);
    let ghost all = views(n.children@);
    let mut i: usize = 0;
    proof {
        lemma_views(n.children@);
        assert(all.subrange(0, 0) =~= seq![]);
        assert(own + seq![] =~= own);
    }
    while i < n.children.len()
        invariant
            i <= n.children@.len(),
            all == views(n.children@),
            all.len() == n.children@.len(),
            texts(out@) == own + requires_in_all(all.subrange(0, i as int), fmt@),
        decreases n.children@.len() - i,
    {
        let ghost before = texts(out@);
        proof {
            lemma_views(n.children@);
            let prefix = all.subrange(0, i + 1);
            assert(prefix.drop_last() =~= all.subrange(0, i as int));
            assert(prefix.last() == n.children@[i as int]@);
        }
        collect_requires(&n.children[i], fmt, out);
        proof {
            let done = requires_in_all(all.subrange(0, i as int), fmt@);
            let next = requires_in(n.children@[i as int]@, fmt@);
            assert((own + done) + next =~= own + (done + next));
        }
        i += 1;
    }
    proof {
        assert(all.subrange(0, i as int) =~= all);
        let own_part = match load_target(n@, fmt@) {
            Some(id) => seq![id],
            None => seq![],
        };
        assert(own =~= start + own_part);
        assert((start + own_part) + requires_in_all(all, fmt@) =~= start + (own_part
            + requires_in_all(all, fmt@)));
    }
}

/// The name of the property that a member access reads from `object`.
pub fn member_name(n: &Node, object: &String) -> (r: Option<String>)
    ensures
        r.is_some() == member_of(n@, object@).is_some(),
        r matches Some(s) ==> member_of(n@, object@) == Some(s@),
{
    proof {
        lemma_views(n.children@);
    }
    if n.kind == Kind::Member && n.children.len() == 2 && ident_named(&n.children[0], object)
        && n.children[1].kind == Kind::Ident {
        Some(n.children[1].text.clone())
    } else {
        None
    }
}

/// The name that a node exports.
pub fn exported_name(n: &Node) -> (r: Option<String>)
    ensures
        r.is_some() == exported(n@).is_some(),
        r matches Some(s) ==> exported(n@) == Some(s@),
{
    match member_name(n, &"exports".to_owned()) {
        Some(name) => Some(name),
        None => member_name(n, &"__webpack_exports__".to_owned()),
    }
}

/// Appends the names that the nodes within `n` export.
pub fn collect_exports(n: &Node, out: &mut Vec<String>)
    ensures
        texts(final(out)@) == texts(old(out)@) + exports_in(n@),
    decreases n,
{
    let ghost start = texts(out@);
    match exported_name(n) {
        Some(name) => {
            proof {
                lemma_texts_push(out@, name);
            }
            out.push(name);
        },
        None => {},
    }
    let ghost own = texts(out@);
    let ghost all = views(n.children@);
    let mut i: usize = 0;
    proof {
        lemma_views(n.children@);
        assert(all.subrange(0, 0) =~= seq![]);
        assert(own + seq![] =~= own);
    }
    while i < n.children.len()
        invariant
            i <= n.children@.len(),
            all == views(n.children@),
            all.len() == n.children@.len(),
            texts(out@) == own + exports_in_all(all.subrange(0, i as int)),
        decreases n.children@.len() - i,
    {
        proof {
            lemma_views(n.children@);
            let prefix = all.subrange(0, i + 1);
            assert(prefix.drop_last() =~= all.subrange(0, i as int));
            assert(prefix.last() == n.children@[i as int]@);
        }
        collect_exports(&n.children[i], out);
        proof {
            let done = exports_in_all(all.subrange(0, i as int));
            let next = exports_in(n.children@[i as int]@);
            assert((own + done) + next =~= own + (done + next));
        }
        i += 1;
    }
    proof {
        assert(all.subrange(0, i as int) =~= all);
        let own_part = match exported(n@) {
            Some(name) => seq![name],
            None => seq![],
        };
        assert(own =~= start + own_part);
        assert((start + own_part) + exports_in_all(all) =~= start + (own_part + exports_in_all(
            all,
        )));
    }
}

/// Appends the properties of the load function that the nodes within `n`
/// read.
pub fn collect_runtime(n: &Node, fmt: &BundleFormat, out: &mut Vec<String>)
    ensures
        texts(final(out)@) == texts(old(out)@) + runtime_in(n@, fmt@),
    decreases n,
{
    let ghost start = texts(out@);
    match member_name(n, &fmt.load_function) {
        Some(name) => {
            proof {
                lemma_texts_push(out@, name);
            }
            out.push(name);
        },
        None => {},
    }
    let ghost own = texts(out@);
    let ghost all = views(n.children@);
    let mut i: usize = 0;
    proof {
        lemma_views(n.children@);
        assert(all.subrange(0, 0) =~= seq![]);
        assert(own + seq![] =~= own);
    }
    while i < n.children.len()
        invariant
            i <= n.children@.len(),
            all == views(n.children@),
            all.len() == n.children@.len(),
            texts(out@) == own + runtime_in_all(all.subrange(0, i as int), fmt@),
        decreases n.children@.len() - i,
    {
        proof {
            lemma_views(n.children@);
            let prefix = all.subrange(0, i + 1);
            assert(prefix.drop_last() =~= all.subrange(0, i as int));
            assert(prefix.last() == n.children@[i as int]@);
        }
        collect_runtime(&n.children[i], fmt, out);
        proof {
            let done = runtime_in_all(all.subrange(0, i as int), fmt@);
            let next = runtime_in(n.children@[i as int]@, fmt@);
            assert((own + done) + next =~= own + (done + next));
        }
        i += 1;
    }
    proof {
        assert(all.subrange(0, i as int) =~= all);
        let own_part = match member_of(n@, fmt@.load_function) {
            Some(name) => seq![name],
            None => seq![],
        };
        assert(own =~= start + own_part);
        assert((start + own_part) + runtime_in_all(all, fmt@) =~= start + (own_part
            + runtime_in_all(all, fmt@)));
    }
}

/// Whether a node within `n` may change state.
pub fn may_change_state(n: &Node, fmt: &BundleFormat) -> (b: bool)
    ensures
        b == has_effect(n@, fmt@),
    decreases n,
{
    proof {
        lemma_views(n.children@);
    }
    if n.kind == Kind::Assign || n.kind == Kind::Update {
        return true;
    }
    if n.kind == Kind::Call && n.children.len() >= 1 {
        let callee = &n.children[0];
        if callee.kind == Kind::Member || (callee.kind == Kind::Ident && callee.text
            != fmt.load_function) {
            return true;
        }
    }
    let ghost all = views(n.children@);
    let mut i: usize = 0;
    assert(all.subrange(0, 0) =~= seq![]);
    while i < n.children.len()
        invariant
            i <= n.children@.len(),
            all == views(n.children@),
            all.len() == n.children@.len(),
            !is_effect(n@, fmt@),
            !has_effect_any(all.subrange(0, i as int), fmt@),
        decreases n.children@.len() - i,
    {
        proof {
            lemma_views(n.children@);
            let prefix = all.subrange(0, i + 1);
            assert(prefix.drop_last() =~= all.subrange(0, i as int));
            assert(prefix.last() == n.children@[i as int]@);
        }
        if may_change_state(&n.children[i], fmt) {
            proof {
                lemma_effect_found(all, i as int, fmt@);
            }
            return true;
        }
        i += 1;
    }
    assert(all.subrange(0, i as int) =~= all);
    false
}

/// If a node of a sequence may change state, the sequence may.
pub proof fn lemma_effect_found(nodes: Seq<NodeView>, i: int, fmt: FormatView)
    requires
        0 <= i < nodes.len(),
        has_effect(nodes[i], fmt),
    ensures
        has_effect_any(nodes, fmt),
    decreases nodes.len(),
{
    if i < nodes.len() - 1 {
        lemma_effect_found(nodes.drop_last(), i, fmt);
    }
}

/// Appends the modules that the calls within a top-level statement load
/// outside the modules tables.
pub fn collect_statement_entries(
    s: &Node,
    fmt: &BundleFormat,
    by_symbol: bool,
    out: &mut Vec<String>,
)
    ensures
        texts(final(out)@) == texts(old(out)@) + statement_entries(s@, fmt@, by_symbol),
{
    let ghost start = texts(out@);
    match call_target(s, fmt) {
        Some(id) => {
            proof {
                lemma_texts_push(out@, id);
            }
            out.push(id);
        },
        None => {},
    }
    let ghost own = texts(out@);
    let mut i: usize = 0;
    proof {
        lemma_views(s.children@);
        assert(own + seq![] =~= own);
    }
    while i < s.children.len()
        invariant
            i <= s.children@.len(),
            s@.children.len() == s.children@.len(),
            texts(out@) == own + children_entries(s@, fmt@, by_symbol, i as int),
        decreases s.children@.len() - i,
    {
        let x = &s.children[i];
        let ghost done = children_entries(s@, fmt@, by_symbol, i as int);
        proof {
            lemma_views(s.children@);
            lemma_views(x.children@);
        }
        if holds_position(s, i) && position_table(x, fmt, by_symbol).is_some() {
            if binding(x) {
                collect_requires(&x.children[0], fmt, out);
            }
        } else {
            collect_requires(x, fmt, out);
        }
        proof {
            let next = child_entries(s@, i as int, fmt@, by_symbol);
            assert(texts(out@) =~= (own + done) + next);
            assert((own + done) + next =~= own + (done + next));
        }
        i += 1;
    }
    proof {
        let own_part = match load_target(s@, fmt@) {
            Some(id) => seq![id],
            None => seq![],
        };
        let below = children_entries(s@, fmt@, by_symbol, s@.children.len() as int);
        assert(own =~= start + own_part);
        assert((start + own_part) + below =~= start + (own_part + below));
    }
}

/// Appends the modules that the calls of the unit load from outside its
/// modules tables.
pub fn collect_entries(program: &Node, fmt: &BundleFormat, out: &mut Vec<String>)
    ensures
        texts(final(out)@) == texts(old(out)@) + entry_calls(program@, fmt@),
{
    let ghost start = texts(out@);
    let ghost p = program@;
    let by_symbol = unit_uses_symbol(program, fmt);
    let mut k: usize = 0;
    proof {
        lemma_views(program.children@);
        assert(start + seq![] =~= start);
    }
    while k < program.children.len()
        invariant
            k <= program.children@.len(),
            p == program@,
            p.children.len() == program.children@.len(),
            texts(out@) == start + entry_calls_upto(p, fmt@, by_symbol, k as int),
        decreases program.children@.len() - k,
    {
        let ghost done = entry_calls_upto(p, fmt@, by_symbol, k as int);
        proof {
            lemma_views(program.children@);
        }
        collect_statement_entries(&program.children[k], fmt, by_symbol, out);
        proof {
            let next = statement_entries(p.children[k as int], fmt@, by_symbol);
            assert((start + done) + next =~= start + (done + next));
        }
        k += 1;
    }
}

/// Appends the module definitions among the properties of a modules table.
pub fn collect_table(table: &Node, fmt: &BundleFormat, out: &mut Vec<Definition>)
    ensures
        definition_views(final(out)@) == definition_views(old(out)@) + definitions_of(
            table@.children,
            fmt@,
        ),
{
    let ghost start = definition_views(out@);
    let ghost all = views(table.children@);
    let mut i: usize = 0;
    proof {
        lemma_views(table.children@);
        assert(all.subrange(0, 0) =~= seq![]);
        assert(start + seq![] =~= start);
    }
    while i < table.children.len()
        invariant
            i <= table.children@.len(),
            all == views(table.children@),
            all.len() == table.children@.len(),
            definition_views(out@) == start + definitions_of(all.subrange(0, i as int), fmt@),
        decreases table.children@.len() - i,
    {
        let prop = &table.children[i];
        proof {
            lemma_views(table.children@);
            lemma_views(prop.children@);
            let prefix = all.subrange(0, i + 1);
            assert(prefix.drop_last() =~= all.subrange(0, i as int));
            assert(prefix.last() == prop@);
        }
        match property_id(prop) {
            Some(id) => {
                let mut loads: Vec<String> = Vec::new();
                assert(texts(loads@) =~= seq![]);
                collect_requires(&prop.children[1], fmt, &mut loads);
                assert(seq![] + requires_in(prop@.children[1], fmt@) =~= requires_in(
                    prop@.children[1],
                    fmt@,
                ));
                let mut exports: Vec<String> = Vec::new();
                assert(texts(exports@) =~= seq![]);
                collect_exports(&prop.children[1], &mut exports);
                assert(seq![] + exports_in(prop@.children[1]) =~= exports_in(prop@.children[1]));
                let has_side_effects = may_change_state(&prop.children[1], fmt);
                let def = Definition { id, loads, exports, has_side_effects };
                proof {
                    assert(definition_views(out@.push(def)) =~= definition_views(out@).push(def@));
                    let done = definitions_of(all.subrange(0, i as int), fmt@);
                    assert((start + done).push(def@) =~= start + done.push(def@));
                }
                out.push(def);
            },
            None => {},
        }
        i += 1;
    }
    assert(all.subrange(0, i as int) =~= all);
}

/// Appends the module definitions of the unit.
pub fn collect_definitions(program: &Node, fmt: &BundleFormat, out: &mut Vec<Definition>)
    ensures
        definition_views(final(out)@) == definition_views(old(out)@) + definitions(
            program@,
            fmt@,
        ),
{
    let ghost start = definition_views(out@);
    let ghost p = program@;
    let by_symbol = unit_uses_symbol(program, fmt);
    let mut k: usize = 0;
    proof {
        lemma_views(program.children@);
        assert(start + seq![] =~= start);
    }
    while k < program.children.len()
        invariant
            k <= program.children@.len(),
            p == program@,
            p.children.len() == program.children@.len(),
            definition_views(out@) == start + definitions_upto(p, fmt@, by_symbol, k as int),
        decreases program.children@.len() - k,
    {
        let s = &program.children[k];
        let ghost done = definitions_upto(p, fmt@, by_symbol, k as int);
        let ghost before = definition_views(out@);
        let mut i: usize = 0;
        proof {
            lemma_views(program.children@);
            lemma_views(s.children@);
            assert(before + seq![] =~= before);
        }
        while i < s.children.len()
            invariant
                i <= s.children@.len(),
                s@.children.len() == s.children@.len(),
                definition_views(out@) == before + statement_definitions(
                    s@,
                    fmt@,
                    by_symbol,
                    i as int,
                ),
            decreases s.children@.len() - i,
        {
            let ghost sofar = statement_definitions(s@, fmt@, by_symbol, i as int);
            proof {
                lemma_views(s.children@);
            }
            if holds_position(s, i) {
                match position_table(&s.children[i], fmt, by_symbol) {
                    Some(table) => {
                        collect_table(table, fmt, out);
                        proof {
                            let next = definitions_of(table@.children, fmt@);
                            assert((before + sofar) + next =~= before + (sofar + next));
                        }
                    },
                    None => {
                        assert(sofar + seq![] =~= sofar);
                    },
                }
            }
            i += 1;
        }
        proof {
            let next = statement_definitions(s@, fmt@, by_symbol, s@.children.len() as int);
            assert((start + done) + next =~= start + (done + next));
        }
        k += 1;
    }
}

} // verus!
