//! The textual grammar of macro annotations.
//!
//! An annotation has the form `@namespace:directive`, optionally followed by
//! white space and an attribute block `[key="value", ...]`. Namespace and
//! directive are non-empty runs of characters other than `:`, `[` and white
//! space. Inside the block, an attribute is a key, `=`, and a value in double
//! quotes, with optional white space around the `=`. A key is a non-empty
//! run of characters other than `=` and white space, and it does not start
//! with a comma: commas and white space separate attributes.

use vstd::prelude::*;
use crate::text::{find_char, find_in, lemma_find_char};

verus! {

/// White space, as Unicode defines it.
pub open spec fn is_space(c: char) -> bool {
    let u = c as u32;
    (0x09 <= u <= 0x0d) || u == 0x20 || u == 0x85 || u == 0xa0 || u == 0x1680 || (0x2000 <= u
        <= 0x200a) || u == 0x2028 || u == 0x2029 || u == 0x202f || u == 0x205f || u == 0x3000
}

/// A character that may stand in a namespace or a directive name.
pub open spec fn is_name_char(c: char) -> bool {
    c != ':' && c != '[' && !is_space(c)
}

/// A character that may stand in an attribute key.
pub open spec fn is_key_char(c: char) -> bool {
    c != '=' && !is_space(c)
}

/// The end of the longest run of name characters that starts at `from`.
pub open spec fn name_end(s: Seq<char>, from: int) -> int
    decreases s.len() - from,
{
    if from < 0 || from >= s.len() || !is_name_char(s[from]) {
        from
    } else {
        name_end(s, from + 1)
    }
}

/// The end of the longest run of white space that starts at `from`.
pub open spec fn space_end(s: Seq<char>, from: int) -> int
    decreases s.len() - from,
{
    if from < 0 || from >= s.len() || !is_space(s[from]) {
        from
    } else {
        space_end(s, from + 1)
    }
}

/// The end of the longest run of key characters that starts at `from`.
pub open spec fn key_end(s: Seq<char>, from: int) -> int
    decreases s.len() - from,
{
    if from < 0 || from >= s.len() || !is_key_char(s[from]) {
        from
    } else {
        key_end(s, from + 1)
    }
}

/// Where the parts of an annotation lie in a text. The annotation starts
/// with `@` at `start`; the namespace runs from `start + 1` to `ns_end`, the
/// directive from `ns_end + 1` to `dir_end`. `attrs` holds the bounds of the
/// text between the brackets of the attribute block, if there is a block,
/// and `end` is the index after the annotation.
pub ghost struct Layout {
    pub start: int,
    pub ns_end: int,
    pub dir_end: int,
    pub attrs: Option<(int, int)>,
    pub end: int,
}

/// The bounds of the attribute block that follows a directive ending at
/// `dir_end`: white space, `[`, any characters but `]`, then `]`.
pub open spec fn block_at(s: Seq<char>, dir_end: int) -> Option<(int, int)> {
    let open = space_end(s, dir_end);
    if 0 <= open < s.len() && s[open] == '[' {
        let close = find_char(s, ']', open + 1);
        if close < s.len() {
            Some((open + 1, close))
        } else {
            None
        }
    } else {
        None
    }
}

/// The annotation that starts exactly at `start`, if there is one.
pub open spec fn annotation_at(s: Seq<char>, start: int) -> Option<Layout> {
    if 0 <= start < s.len() && s[start] == '@' {
        let ns_end = name_end(s, start + 1);
        if ns_end > start + 1 && ns_end < s.len() && s[ns_end] == ':' {
            let dir_end = name_end(s, ns_end + 1);
            if dir_end > ns_end + 1 {
                let attrs = block_at(s, dir_end);
                Some(
                    Layout {
                        start,
                        ns_end,
                        dir_end,
                        attrs,
                        end: match attrs {
                            Some((_, close)) => close + 1,
                            None => dir_end,
                        },
                    },
                )
            } else {
                None
            }
        } else {
            None
        }
    } else {
        None
    }
}

/// The first annotation of a text that starts at or after `from`.
pub open spec fn first_annotation(s: Seq<char>, from: int) -> Option<Layout>
    decreases s.len() - from,
{
    if from < 0 || from >= s.len() {
        None
    } else {
        match annotation_at(s, from) {
            Some(a) => Some(a),
            None => first_annotation(s, from + 1),
        }
    }
}

/// Where one attribute lies: the key from `start` to `key_end`, the value
/// from `value_start` to `value_end`, which is the index of the closing
/// quote.
pub ghost struct AttrLayout {
    pub start: int,
    pub key_end: int,
    pub value_start: int,
    pub value_end: int,
}

/// The attribute that starts exactly at `start`, if there is one.
pub open spec fn attr_at(s: Seq<char>, start: int) -> Option<AttrLayout> {
    if 0 <= start < s.len() && is_key_char(s[start]) && s[start] != ',' {
        let k = key_end(s, start);
        let eq = space_end(s, k);
        if 0 <= eq < s.len() && s[eq] == '=' {
            let quote = space_end(s, eq + 1);
            if 0 <= quote < s.len() && s[quote] == '"' {
                let close = find_char(s, '"', quote + 1);
                if close < s.len() {
                    Some(
                        AttrLayout {
                            start,
                            key_end: k,
                            value_start: quote + 1,
                            value_end: close,
                        },
                    )
                } else {
                    None
                }
            } else {
                None
            }
        } else {
            None
        }
    } else {
        None
    }
}

/// The attributes of a block, in order of appearance: the first attribute
/// at or after `from`, then those after its closing quote.
pub open spec fn attrs_from(s: Seq<char>, from: int) -> Seq<(Seq<char>, Seq<char>)>
    decreases s.len() - from,
{
    if from < 0 || from >= s.len() {
        seq![]
    } else {
        match attr_at(s, from) {
            Some(a) => if a.value_end + 1 > from {
                seq![(s.subrange(a.start, a.key_end), s.subrange(a.value_start, a.value_end))]
                    + attrs_from(s, a.value_end + 1)
            } else {
                seq![]
            },
            None => attrs_from(s, from + 1),
        }
    }
}

/// The runs end in range, and where they were asked to start or later.
pub proof fn lemma_run_ends(s: Seq<char>, from: int)
    requires
        0 <= from <= s.len(),
    ensures
        from <= name_end(s, from) <= s.len(),
        from <= space_end(s, from) <= s.len(),
        from <= key_end(s, from) <= s.len(),
    decreases s.len() - from,
{
    if from < s.len() {
        lemma_run_ends(s, from + 1);
    }
}

/// The parts of an annotation lie in order and within the text.
pub proof fn lemma_annotation_at(s: Seq<char>, start: int)
    ensures
        annotation_at(s, start) matches Some(a) ==> {
            &&& a.start == start
            &&& 0 <= start < a.ns_end < a.dir_end <= a.end <= s.len()
            &&& start + 1 < a.ns_end
            &&& a.ns_end + 1 < a.dir_end
            &&& a.attrs matches Some((lo, hi)) ==> a.dir_end < lo <= hi < a.end
        },
{
    if 0 <= start < s.len() {
        lemma_run_ends(s, start + 1);
        let ns_end = name_end(s, start + 1);
        if ns_end < s.len() {
            lemma_run_ends(s, ns_end + 1);
            let dir_end = name_end(s, ns_end + 1);
            lemma_run_ends(s, dir_end);
            let open = space_end(s, dir_end);
            if open < s.len() {
                lemma_find_char(s, ']', open + 1);
            }
        }
    }
}

/// The parts of an attribute lie in order and within the text.
pub proof fn lemma_attr_at(s: Seq<char>, start: int)
    ensures
        attr_at(s, start) matches Some(a) ==> {
            &&& a.start == start
            &&& 0 <= start < a.key_end < a.value_start <= a.value_end < s.len()
        },
{
    if 0 <= start < s.len() {
        lemma_run_ends(s, start);
        let k = key_end(s, start);
        lemma_run_ends(s, k);
        let eq = space_end(s, k);
        if eq < s.len() {
            lemma_run_ends(s, eq + 1);
            let quote = space_end(s, eq + 1);
            if quote < s.len() {
                lemma_find_char(s, '"', quote + 1);
            }
        }
    }
}

/// Whether a character is white space.
pub fn space(c: char) -> (b: bool)
    ensures
        b == is_space(c),
{
    let u: u32 = c as u32;
    (0x09 <= u && u <= 0x0d) || u == 0x20 || u == 0x85 || u == 0xa0 || u == 0x1680 || (0x2000 <= u
        && u <= 0x200a) || u == 0x2028 || u == 0x2029 || u == 0x202f || u == 0x205f || u
        == 0x3000
}

/// Whether a character may stand in a namespace or a directive name.
pub fn name_char(c: char) -> (b: bool)
    ensures
        b == is_name_char(c),
{
    c != ':' && c != '[' && !space(c)
}

/// Whether a character may stand in an attribute key.
pub fn key_char(c: char) -> (b: bool)
    ensures
        b == is_key_char(c),
{
    c != '=' && !space(c)
}

/// The end of the longest run of name characters that starts at `from`.
pub(crate) fn skip_name(v: &Vec<char>, from: usize) -> (i: usize)
    requires
        from <= v@.len(),
    ensures
        i == name_end(v@, from as int),
        from <= i <= v@.len(),
{
    let mut i: usize = from;
    while i < v.len() && name_char(v[i])
        invariant
            from <= i <= v@.len(),
            name_end(v@, from as int) == name_end(v@, i as int),
        decreases v@.len() - i,
    {
        i += 1;
    }
    i
}

/// The end of the longest run of white space that starts at `from`.
pub(crate) fn skip_space(v: &Vec<char>, from: usize) -> (i: usize)
    requires
        from <= v@.len(),
    ensures
        i == space_end(v@, from as int),
        from <= i <= v@.len(),
{
    let mut i: usize = from;
    while i < v.len() && space(v[i])
        invariant
            from <= i <= v@.len(),
            space_end(v@, from as int) == space_end(v@, i as int),
        decreases v@.len() - i,
    {
        i += 1;
    }
    i
}

/// The end of the longest run of key characters that starts at `from`.
pub(crate) fn skip_key(v: &Vec<char>, from: usize) -> (i: usize)
    requires
        from <= v@.len(),
    ensures
        i == key_end(v@, from as int),
        from <= i <= v@.len(),
{
    let mut i: usize = from;
    while i < v.len() && key_char(v[i])
        invariant
            from <= i <= v@.len(),
            key_end(v@, from as int) == key_end(v@, i as int),
        decreases v@.len() - i,
    {
        i += 1;
    }
    i
}

/// The parts of an annotation, as found by the scanner.
pub(crate) struct Found {
    pub ns_end: usize,
    pub dir_end: usize,
    pub attrs: Option<(usize, usize)>,
    pub start: usize,
}

impl Found {
    /// Whether these bounds are those of `a`.
    pub(crate) open spec fn matches_layout(self, a: Layout) -> bool {
        &&& self.start == a.start
        &&& self.ns_end == a.ns_end
        &&& self.dir_end == a.dir_end
        &&& match (self.attrs, a.attrs) {
            (Some((lo, hi)), Some((alo, ahi))) => lo == alo && hi == ahi,
            (None, None) => true,
            _ => false,
        }
    }
}

/// Looks for an annotation that starts exactly at `start`.
pub(crate) fn scan_annotation_at(v: &Vec<char>, start: usize) -> (r: Option<Found>)
    requires
        start < v@.len(),
    ensures
        r.is_some() == annotation_at(v@, start as int).is_some(),
        r matches Some(f) ==> f.matches_layout(annotation_at(v@, start as int).unwrap()),
{
    let n = v.len();
    if v[start] != '@' {
        return None;
    }
    let ns_end = skip_name(v, start + 1);
    if !(ns_end > start + 1 && ns_end < v.len() && v[ns_end] == ':') {
        return None;
    }
    let dir_end = skip_name(v, ns_end + 1);
    if dir_end <= ns_end + 1 {
        return None;
    }
    let open = skip_space(v, dir_end);
    let mut attrs: Option<(usize, usize)> = None;
    if open < v.len() && v[open] == '[' {
        let close = find_in(v, ']', open + 1);
        if close < v.len() {
            attrs = Some((open + 1, close));
        }
    }
    Some(Found { ns_end, dir_end, attrs, start })
}

/// Looks for the first annotation of a text.
pub(crate) fn scan_annotation(v: &Vec<char>) -> (r: Option<Found>)
    ensures
        r.is_some() == first_annotation(v@, 0).is_some(),
        r matches Some(f) ==> f.matches_layout(first_annotation(v@, 0).unwrap()),
{
    let mut i: usize = 0;
    while i < v.len()
        invariant
            i <= v@.len(),
            first_annotation(v@, 0) == first_annotation(v@, i as int),
        decreases v@.len() - i,
    {
        match scan_annotation_at(v, i) {
            Some(f) => {
                return Some(f);
            },
            None => {},
        }
        i += 1;
    }
    None
}

/// One `key="value"` attribute of an annotation.
#[derive(Debug)]
pub struct Attr {
    pub key: String,
    pub value: String,
}

impl View for Attr {
    type V = (Seq<char>, Seq<char>);

    open spec fn view(&self) -> (Seq<char>, Seq<char>) {
        (self.key@, self.value@)
    }
}

/// The keys and values of a list of attributes.
pub open spec fn attr_views(attrs: Seq<Attr>) -> Seq<(Seq<char>, Seq<char>)> {
    Seq::new(attrs.len(), |i: int| attrs[i]@)
}

/// The value given to `key`: that of the last attribute with this key.
pub open spec fn attr_value(attrs: Seq<(Seq<char>, Seq<char>)>, key: Seq<char>) -> Option<
    Seq<char>,
>
    decreases attrs.len(),
{
    if attrs.len() == 0 {
        None
    } else if attrs.last().0 == key {
        Some(attrs.last().1)
    } else {
        attr_value(attrs.drop_last(), key)
    }
}

/// Looks for an attribute that starts exactly at `start`. Gives the bounds
/// of its key's end, its value's start and its value's end.
pub(crate) fn scan_attr_at(v: &Vec<char>, start: usize) -> (r: Option<(usize, usize, usize)>)
    requires
        start < v@.len(),
    ensures
        r.is_some() == attr_at(v@, start as int).is_some(),
        r matches Some((k, lo, hi)) ==> attr_at(v@, start as int) == Some(
            AttrLayout { start: start as int, key_end: k as int, value_start: lo as int, value_end: hi as int },
        ),
{
    let n = v.len();
    if !key_char(v[start]) || v[start] == ',' {
        return None;
    }
    let k = skip_key(v, start);
    let eq = skip_space(v, k);
    if !(eq < n && v[eq] == '=') {
        return None;
    }
    let quote = skip_space(v, eq + 1);
    if !(quote < n && v[quote] == '"') {
        return None;
    }
    let close = find_in(v, '"', quote + 1);
    if close >= n {
        return None;
    }
    Some((k, quote + 1, close))
}

/// Reads the attributes of an attribute block.
pub fn scan_attrs(block: &str) -> (out: Vec<Attr>)
    ensures
        attr_views(out@) == attrs_from(block@, 0),
{
    let v = crate::text::chars_of(block);
    let n = v.len();
    let mut out: Vec<Attr> = Vec::new();
    let mut i: usize = 0;
    assert(attr_views(out@) =~= seq![]);
    while i < n
        invariant
            v@ == block@,
            n == v@.len(),
            i <= n,
            attr_views(out@) + attrs_from(block@, i as int) == attrs_from(block@, 0),
        decreases n - i,
    {
        match scan_attr_at(&v, i) {
            Some((k, lo, hi)) => {
                proof {
                    lemma_attr_at(block@, i as int);
                }
                let key = crate::text::slice_of(block, i, k);
                let value = crate::text::slice_of(block, lo, hi);
                let attr = Attr { key, value };
                proof {
                    let rest = attrs_from(block@, hi + 1);
                    assert(attrs_from(block@, i as int) == seq![attr@] + rest);
                    assert(attr_views(out@.push(attr)) =~= attr_views(out@).push(attr@));
                    assert(attr_views(out@).push(attr@) + rest =~= attr_views(out@) + (seq![attr@]
                        + rest));
                }
                out.push(attr);
                i = hi + 1;
            },
            None => {
                i += 1;
            },
        }
    }
    assert(attrs_from(block@, i as int) =~= seq![]);
    assert(attr_views(out@) + seq![] =~= attr_views(out@));
    out
}

/// Looks up the value given to `key`.
pub fn find_attr<'a>(attrs: &'a Vec<Attr>, key: &str) -> (r: Option<&'a String>)
    ensures
        r.is_some() == attr_value(attr_views(attrs@), key@).is_some(),
        r matches Some(s) ==> attr_value(attr_views(attrs@), key@) == Some(s@),
{
    let wanted = key.to_owned();
    let mut i: usize = attrs.len();
    assert(attr_views(attrs@).subrange(0, i as int) =~= attr_views(attrs@));
    while i > 0
        invariant
            i <= attrs@.len(),
            wanted@ == key@,
            attr_value(attr_views(attrs@), key@) == attr_value(
                attr_views(attrs@).subrange(0, i as int),
                key@,
            ),
        decreases i,
    {
        let ghost prefix = attr_views(attrs@).subrange(0, i as int);
        assert(prefix.last() == attrs@[i - 1]@);
        assert(prefix.drop_last() =~= attr_views(attrs@).subrange(0, i - 1));
        if attrs[i - 1].key == wanted {
            return Some(&attrs[i - 1].value);
        }
        i -= 1;
    }
    None
}

} // verus!
