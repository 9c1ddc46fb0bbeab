//! What the transformer asks of the metadata document: lookups, conditions,
//! and the rendering of a value as a literal expression.

use vstd::prelude::*;
use crate::ast::{lemma_views, lemma_views_push, views, Category, Kind, Node, NodeView};
use crate::json::{
    condition_spec, json_views, lemma_json_views, lemma_member_views, member_views, query_spec,
    Json, JsonView,
};
use crate::span::Span;

verus! {

/// The string literal with the given value, at the synthetic position.
pub open spec fn text_literal(category: Category, s: Seq<char>) -> NodeView {
    NodeView {
        category,
        kind: Kind::Str,
        span: Span::synthetic(),
        text: s,
        bits: 0,
        children: Seq::empty(),
    }
}

/// The property `key: value` of a generated object literal. The key is a
/// string literal.
pub open spec fn member_literal(key: Seq<char>, value: NodeView) -> NodeView {
    NodeView {
        category: Category::Part,
        kind: Kind::KeyValue,
        span: Span::synthetic(),
        text: Seq::empty(),
        bits: 0,
        children: seq![text_literal(Category::Part, key), value],
    }
}

/// The literal expression that stands for a JSON value. Every node of it
/// lies at the synthetic position. Array elements and object members keep
/// their order.
pub open spec fn literal(v: JsonView) -> NodeView
    decreases v,
{
    match v {
        JsonView::Null => NodeView::null(),
        JsonView::Bool(b) => NodeView {
            category: Category::Expr,
            kind: Kind::Bool,
            span: Span::synthetic(),
            text: Seq::empty(),
            bits: if b { 1 } else { 0 },
            children: Seq::empty(),
        },
        JsonView::Number { bits, text } => NodeView {
            category: Category::Expr,
            kind: Kind::Num,
            span: Span::synthetic(),
            text,
            bits,
            children: Seq::empty(),
        },
        JsonView::Text(s) => text_literal(Category::Expr, s),
        JsonView::Array(items) => NodeView {
            category: Category::Expr,
            kind: Kind::Array,
            span: Span::synthetic(),
            text: Seq::empty(),
            bits: 0,
            children: Seq::new(
                items.len(),
                |i: int| if 0 <= i < items.len() { literal(items[i]) } else { arbitrary() },
            ),
        },
        JsonView::Object(members) => NodeView {
            category: Category::Expr,
            kind: Kind::Object,
            span: Span::synthetic(),
            text: Seq::empty(),
            bits: 0,
            children: Seq::new(
                members.len(),
                |i: int|
                    if 0 <= i < members.len() {
                        member_literal(members[i].0, literal(members[i].1))
                    } else {
                        arbitrary()
                    },
            ),
        },
    }
}

/// Lookups in a metadata document.
pub trait Metadata {
    /// The document as a JSON value.
    spec fn document(&self) -> JsonView;

    /// The value that a dotted path refers to, if there is one.
    fn query(&self, path: &str) -> (r: Option<&Json>)
        ensures
            r.is_some() == query_spec(self.document(), path@).is_some(),
            r matches Some(c) ==> query_spec(self.document(), path@) == Some(c@),
    ;

    /// Whether the path refers to the boolean `true`.
    fn evaluate_bool(&self, path: &str) -> (b: bool)
        ensures
            b == condition_spec(self.document(), path@),
    ;
}

impl Metadata for Json {
    open spec fn document(&self) -> JsonView {
        self@
    }

    fn query(&self, path: &str) -> (r: Option<&Json>) {
        Json::query(self, path)
    }

    fn evaluate_bool(&self, path: &str) -> (b: bool) {
        Json::evaluate_bool(self, path)
    }
}

/// Rendering as a literal expression of the syntax tree.
pub trait ToSwcAst: Sized {
    /// The literal that the value is rendered as.
    spec fn rendered(&self) -> NodeView;

    fn to_ast(self) -> (n: Node)
        ensures
            n@ == self.rendered(),
    ;
}

/// Renders a JSON value as a literal expression.
pub fn render(v: &Json) -> (n: Node)
    ensures
        n@ == literal(v@),
    decreases v,
{
    match v {
        Json::Null => Node::null(),
        Json::Bool(b) => Node::leaf(
            Category::Expr,
            Kind::Bool,
            Span::dummy(),
            String::new(),
            if *b { 1 } else { 0 },
        ),
        Json::Number(n) => Node::leaf(
            Category::Expr,
            Kind::Num,
            Span::dummy(),
            n.text.clone(),
            n.bits,
        ),
        Json::Text(s) => Node::leaf(Category::Expr, Kind::Str, Span::dummy(), s.clone(), 0),
        Json::Array(items) => {
            let mut children: Vec<Node> = Vec::new();
            let mut i: usize = 0;
            while i < items.len()
                invariant
                    i <= items@.len(),
                    *v == Json::Array(*items),
                    v@ == JsonView::Array(json_views(items@)),
                    views(children@) =~= literal(v@).children.subrange(0, i as int),
                decreases items@.len() - i,
            {
                let c = render(&items[i]);
                proof {
                    lemma_json_views(items@);
                    lemma_views_push(children@, c);
                }
                children.push(c);
                i += 1;
            }
            proof {
                lemma_json_views(items@);
            }
            assert(views(children@) =~= literal(v@).children);
            Node::new(Category::Expr, Kind::Array, Span::dummy(), children)
        },
        Json::Object(members) => {
            let mut children: Vec<Node> = Vec::new();
            let mut i: usize = 0;
            while i < members.len()
                invariant
                    i <= members@.len(),
                    *v == Json::Object(*members),
                    v@ == JsonView::Object(member_views(members@)),
                    views(children@) =~= literal(v@).children.subrange(0, i as int),
                decreases members@.len() - i,
            {
                let key = Node::leaf(
                    Category::Part,
                    Kind::Str,
                    Span::dummy(),
                    members[i].key.clone(),
                    0,
                );
                let value = render(&members[i].value);
                let mut pair: Vec<Node> = Vec::new();
                pair.push(key);
                pair.push(value);
                let c = Node::new(Category::Part, Kind::KeyValue, Span::dummy(), pair);
                proof {
                    lemma_member_views(members@);
                    lemma_views(pair@);
                    assert(views(pair@) =~= seq![key@, value@]);
                    lemma_views_push(children@, c);
                }
                children.push(c);
                i += 1;
            }
            proof {
                lemma_member_views(members@);
            }
            assert(views(children@) =~= literal(v@).children);
            Node::new(Category::Expr, Kind::Object, Span::dummy(), children)
        },
    }
}

impl ToSwcAst for Json {
    open spec fn rendered(&self) -> NodeView {
        literal(self@)
    }

    fn to_ast(self) -> (n: Node) {
        render(&self)
    }
}

impl ToSwcAst for String {
    open spec fn rendered(&self) -> NodeView {
        text_literal(Category::Expr, self@)
    }

    fn to_ast(self) -> (n: Node) {
        Node::leaf(Category::Expr, Kind::Str, Span::dummy(), self, 0)
    }
}

} // verus!
