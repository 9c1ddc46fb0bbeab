//! The syntax tree that the passes read and rewrite.
//!
//! A tree is made of one node type. A node records its category, its kind,
//! its source range, the text and the number it carries, and its children in
//! source order.

use vstd::prelude::*;
use crate::span::Span;

verus! {

/// The role a node plays for the conditional transformer.
#[derive(Clone, Copy, Debug, PartialEq, Eq, Structural)]
pub enum Category {
    /// An entry of the unit's top-level sequence.
    ModuleItem,
    /// A nested statement.
    Stmt,
    /// An expression.
    Expr,
    /// Anything else: a property, a declarator, a binding pattern, a key.
    Part,
}

/// The syntactic kind of a node, with the layout of its children.
#[derive(Clone, Copy, Debug, PartialEq, Eq, Structural)]
pub enum Kind {
    /// The whole unit. Children: its top-level entries, an ordered sequence.
    Program,
    /// The literal `null`.
    Null,
    /// A boolean literal; `bits` is 1 for `true` and 0 for `false`.
    Bool,
    /// A numeric literal; `bits` is its IEEE 754 double encoding and `text`
    /// its decimal rendering.
    Num,
    /// A string literal; `text` is its value.
    Str,
    /// An identifier; `text` is its name.
    Ident,
    /// An array literal. Children: its elements.
    Array,
    /// An object literal. Children: its properties.
    Object,
    /// A `key: value` property. Children: the key, then the value.
    KeyValue,
    /// A function expression or declaration. Children: the parameters,
    /// then the body, a block.
    Function,
    /// An arrow function. Children: the parameters, then the body, a block
    /// or an expression.
    Arrow,
    /// A call. Children: the callee, then the arguments.
    Call,
    /// An assignment. Children: the target, then the assigned value.
    Assign,
    /// An increment or decrement. Child: the operand.
    Update,
    /// A member access. Children: the object, then the property; a property
    /// written as a name is an identifier.
    Member,
    /// A parenthesised expression. Child: the inner expression.
    Paren,
    /// An expression statement. Child: the expression.
    ExprStmt,
    /// One declarator of a variable declaration. Children: the binding, then
    /// the initialiser if there is one.
    Declarator,
    /// A block of statements. Children: the statements, an ordered sequence.
    Block,
    /// The empty statement.
    Empty,
    /// Any other construct. Children: its parts in source order.
    Other,
}

/// A node of the syntax tree.
#[derive(Debug)]
pub struct Node {
    pub category: Category,
    pub kind: Kind,
    pub span: Span,
    pub text: String,
    pub bits: u64,
    pub children: Vec<Node>,
}

/// The mathematical value of a node.
pub ghost struct NodeView {
    pub category: Category,
    pub kind: Kind,
    pub span: Span,
    pub text: Seq<char>,
    pub bits: u64,
    pub children: Seq<NodeView>,
}

/// The values of a sequence of nodes.
pub open spec fn views(nodes: Seq<Node>) -> Seq<NodeView>
    decreases nodes,
{
    Seq::new(nodes.len(), |i: int| if 0 <= i < nodes.len() { nodes[i].view() } else { arbitrary() })
}

impl View for Node {
    type V = NodeView;

    open spec fn view(&self) -> NodeView
        decreases self,
    {
        NodeView {
            category: self.category,
            kind: self.kind,
            span: self.span,
            text: self.text@,
            bits: self.bits,
            children: views(self.children@),
        }
    }
}

/// `views` maps a sequence element by element.
pub proof fn lemma_views(nodes: Seq<Node>)
    ensures
        views(nodes).len() == nodes.len(),
        forall|i: int| 0 <= i < nodes.len() ==> #[trigger] views(nodes)[i] == nodes[i]@,
{
}

/// The values of a sequence extended by one node.
pub proof fn lemma_views_push(nodes: Seq<Node>, node: Node)
    ensures
        views(nodes.push(node)) == views(nodes).push(node@),
{
    lemma_views(nodes);
    lemma_views(nodes.push(node));
    assert(views(nodes.push(node)) =~= views(nodes).push(node@));
}

impl NodeView {
    /// A node without children that carries no text and no number.
    pub open spec fn bare(category: Category, kind: Kind, span: Span) -> NodeView {
        NodeView { category, kind, span, text: Seq::empty(), bits: 0, children: Seq::empty() }
    }

    /// The literal `null` at the synthetic position.
    pub open spec fn null() -> NodeView {
        NodeView::bare(Category::Expr, Kind::Null, Span::synthetic())
    }

    /// The empty statement at the synthetic position.
    pub open spec fn empty_stmt(category: Category) -> NodeView {
        NodeView::bare(category, Kind::Empty, Span::synthetic())
    }
}

impl Node {
    /// A node with the given children that carries no text and no number.
    pub fn new(category: Category, kind: Kind, span: Span, children: Vec<Node>) -> (n: Node)
        ensures
            n@ == (NodeView {
                category,
                kind,
                span,
                text: Seq::empty(),
                bits: 0,
                children: views(children@),
            }),
    {
        Node { category, kind, span, text: String::new(), bits: 0, children }
    }

    /// A node without children.
    pub fn leaf(category: Category, kind: Kind, span: Span, text: String, bits: u64) -> (n: Node)
        ensures
            n@ == (NodeView { category, kind, span, text: text@, bits, children: Seq::empty() }),
    {
        let n = Node { category, kind, span, text, bits, children: Vec::new() };
        assert(n@.children =~= Seq::empty());
        n
    }

    /// The literal `null` at the synthetic position.
    pub fn null() -> (n: Node)
        ensures
            n@ == NodeView::null(),
    {
        Node::leaf(Category::Expr, Kind::Null, Span::dummy(), String::new(), 0)
    }

    /// The empty statement at the synthetic position.
    pub fn empty_stmt(category: Category) -> (n: Node)
        ensures
            n@ == NodeView::empty_stmt(category),
    {
        Node::leaf(category, Kind::Empty, Span::dummy(), String::new(), 0)
    }
}

impl Clone for Node {
    fn clone(&self) -> (n: Node)
        ensures
            n@ == self@,
        decreases self,
    {
        let mut children: Vec<Node> = Vec::new();
        let mut i: usize = 0;
        while i < self.children.len()
            invariant
                i <= self.children@.len(),
                views(children@) =~= views(self.children@).subrange(0, i as int),
            decreases self.children@.len() - i,
        {
            let c = self.children[i].clone();
            proof {
                lemma_views_push(children@, c);
                lemma_views(self.children@);
            }
            children.push(c);
            i += 1;
        }
        assert(views(children@) =~= views(self.children@));
        Node {
            category: self.category,
            kind: self.kind,
            span: self.span,
            text: self.text.clone(),
            bits: self.bits,
            children,
        }
    }
}

} // verus!
