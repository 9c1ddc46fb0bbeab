//! The metadata document: a JSON value, with lookup by dotted path and the
//! rules that turn a value into a boolean.

use vstd::prelude::*;
use crate::text::{split, split_text};

verus! {

/// A JSON number. `bits` holds the IEEE 754 double-precision encoding of its
/// value and `text` its decimal rendering.
#[derive(Debug)]
pub struct Number {
    pub bits: u64,
    pub text: String,
}

/// A JSON value. The members of an object keep their order.
#[derive(Debug)]
pub enum Json {
    Null,
    Bool(bool),
    Number(Number),
    Text(String),
    Array(Vec<Json>),
    Object(Vec<Member>),
}

/// One `key: value` member of a JSON object.
#[derive(Debug)]
pub struct Member {
    pub key: String,
    pub value: Json,
}

/// The mathematical value of a JSON document.
pub ghost enum JsonView {
    Null,
    Bool(bool),
    Number { bits: u64, text: Seq<char> },
    Text(Seq<char>),
    Array(Seq<JsonView>),
    Object(Seq<(Seq<char>, JsonView)>),
}

/// The values of a sequence of JSON documents.
pub open spec fn json_views(items: Seq<Json>) -> Seq<JsonView>
    decreases items,
{
    Seq::new(items.len(), |i: int| if 0 <= i < items.len() { items[i].view() } else { arbitrary() })
}

/// The keys and values of a sequence of members.
pub open spec fn member_views(members: Seq<Member>) -> Seq<(Seq<char>, JsonView)>
    decreases members,
{
    Seq::new(
        members.len(),
        |i: int|
            if 0 <= i < members.len() {
                (members[i].key@, members[i].value.view())
            } else {
                arbitrary()
            },
    )
}

/// `json_views` maps a sequence element by element.
pub proof fn lemma_json_views(items: Seq<Json>)
    ensures
        json_views(items).len() == items.len(),
        forall|i: int| 0 <= i < items.len() ==> #[trigger] json_views(items)[i] == items[i]@,
{
}

/// `member_views` maps a sequence element by element.
pub proof fn lemma_member_views(members: Seq<Member>)
    ensures
        member_views(members).len() == members.len(),
        forall|i: int|
            0 <= i < members.len() ==> #[trigger] member_views(members)[i] == (
                members[i].key@,
                members[i].value@,
            ),
{
}

impl View for Json {
    type V = JsonView;

    open spec fn view(&self) -> JsonView
        decreases self,
    {
        match self {
            Json::Null => JsonView::Null,
            Json::Bool(b) => JsonView::Bool(*b),
            Json::Number(n) => JsonView::Number { bits: n.bits, text: n.text@ },
            Json::Text(s) => JsonView::Text(s@),
            Json::Array(items) => JsonView::Array(json_views(items@)),
            Json::Object(members) => JsonView::Object(member_views(members@)),
        }
    }
}

/// Whether `bits` encodes a double that is neither a zero nor an infinity
/// nor a NaN: it is not one of the two zeros, and its eleven exponent bits,
/// which follow the fifty-two bits of the fraction, are not all set.
pub open spec fn nonzero_finite(bits: u64) -> bool {
    bits != 0 && bits != 0x8000_0000_0000_0000u64 && (bits / 0x10_0000_0000_0000u64) % 0x800u64
        != 0x7ffu64
}

/// The index of the first member with the given key, or the number of
/// members if none has it.
pub open spec fn member_index(members: Seq<(Seq<char>, JsonView)>, key: Seq<char>, from: int) -> int
    decreases members.len() - from,
{
    if from < 0 || from >= members.len() {
        members.len() as int
    } else if members[from].0 == key {
        from
    } else {
        member_index(members, key, from + 1)
    }
}

/// The value of the first member of an object with the given key.
pub open spec fn child(v: JsonView, key: Seq<char>) -> Option<JsonView> {
    match v {
        JsonView::Object(members) => {
            let i = member_index(members, key, 0);
            if 0 <= i < members.len() {
                Some(members[i].1)
            } else {
                None
            }
        },
        _ => None,
    }
}

/// Descends from `v` through the object members named by `segments`, in
/// order. Absent as soon as a member is missing or a value on the way is not
/// an object.
pub open spec fn descend(v: JsonView, segments: Seq<Seq<char>>) -> Option<JsonView>
    decreases segments.len(),
{
    if segments.len() == 0 {
        Some(v)
    } else {
        match child(v, segments[0]) {
            Some(c) => descend(c, segments.drop_first()),
            None => None,
        }
    }
}

/// The value that a dotted path refers to.
pub open spec fn query_spec(v: JsonView, path: Seq<char>) -> Option<JsonView> {
    descend(v, split(path, '.'))
}

/// The boolean that a value stands for: a boolean is itself; a string, an
/// array or an object is true iff it is not empty; a number is true iff it is
/// finite and not zero; null is false.
pub open spec fn truthy_spec(v: JsonView) -> bool {
    match v {
        JsonView::Null => false,
        JsonView::Bool(b) => b,
        JsonView::Number { bits, text } => nonzero_finite(bits),
        JsonView::Text(s) => s.len() > 0,
        JsonView::Array(items) => items.len() > 0,
        JsonView::Object(members) => members.len() > 0,
    }
}

/// The outcome of a condition: true exactly when the path refers to the
/// boolean `true`. Absent paths and values of any other kind give false.
pub open spec fn condition_spec(v: JsonView, path: Seq<char>) -> bool {
    query_spec(v, path) == Some(JsonView::Bool(true))
}

impl Json {
    /// The value of the first member named `key`, if this is an object that
    /// has one.
    pub fn get(&self, key: &String) -> (r: Option<&Json>)
        ensures
            r.is_some() == child(self@, key@).is_some(),
            r matches Some(c) ==> child(self@, key@) == Some(c@),
    {
        match self {
            Json::Object(members) => {
                let mut i: usize = 0;
                while i < members.len()
                    invariant
                        i <= members@.len(),
                        self@ == JsonView::Object(member_views(members@)),
                        member_index(member_views(members@), key@, 0) == member_index(
                            member_views(members@),
                            key@,
                            i as int,
                        ),
                    decreases members@.len() - i,
                {
                    if members[i].key == *key {
                        return Some(&members[i].value);
                    }
                    i += 1;
                }
                None
            },
            _ => None,
        }
    }

    /// Looks up a dotted path. Each segment names a member of the object
    /// reached so far.
    pub fn query(&self, path: &str) -> (r: Option<&Json>)
        ensures
            r.is_some() == query_spec(self@, path@).is_some(),
            r matches Some(c) ==> query_spec(self@, path@) == Some(c@),
    {
        let segments = split_text(path, '.');
        let ghost segs = split(path@, '.');
        let mut cur: &Json = self;
        let mut i: usize = 0;
        assert(segs.subrange(0, segs.len() as int) =~= segs);
        while i < segments.len()
            invariant
                i <= segments@.len(),
                segs == split(path@, '.'),
                segments@.len() == segs.len(),
                forall|k: int| 0 <= k < segments@.len() ==> (#[trigger] segments@[k])@ == segs[k],
                descend(cur@, segs.subrange(i as int, segs.len() as int)) == descend(self@, segs),
            decreases segments@.len() - i,
        {
            let ghost rest = segs.subrange(i as int, segs.len() as int);
            assert(rest[0] == segs[i as int]);
            assert(segments@[i as int]@ == segs[i as int]);
            assert(rest.drop_first() =~= segs.subrange(i + 1, segs.len() as int));
            assert(descend(cur@, rest) == match child(cur@, rest[0]) {
                Some(c) => descend(c, rest.drop_first()),
                None => None,
            });
            match cur.get(&segments[i]) {
                Some(c) => {
                    cur = c;
                },
                None => {
                    return None;
                },
            }
            i += 1;
        }
        assert(segs.subrange(i as int, segs.len() as int).len() == 0);
        Some(cur)
    }

    /// The boolean that this value stands for.
    pub fn is_truthy(&self) -> (b: bool)
        ensures
            b == truthy_spec(self@),
    {
        match self {
            Json::Null => false,
            Json::Bool(b) => *b,
            Json::Number(n) => n.bits != 0 && n.bits != 0x8000_0000_0000_0000u64 && (n.bits
                / 0x10_0000_0000_0000u64) % 0x800u64 != 0x7ffu64,
            Json::Text(s) => s.as_str().unicode_len() > 0,
            Json::Array(items) => {
                proof {
                    lemma_json_views(items@);
                }
                items.len() > 0
            },
            Json::Object(members) => {
                proof {
                    lemma_member_views(members@);
                }
                members.len() > 0
            },
        }
    }

    /// Evaluates a condition path: true exactly when the path refers to the
    /// boolean `true`.
    pub fn evaluate_bool(&self, path: &str) -> (b: bool)
        ensures
            b == condition_spec(self@, path@),
    {
        match self.query(path) {
            Some(Json::Bool(b)) => *b,
            _ => false,
        }
    }
}

} // verus!
