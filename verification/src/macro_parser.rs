//! The directive scanner's first half: it finds the macro annotations in the
//! comments of a unit and takes their comments out of the comment stream.

use vstd::prelude::*;
use crate::grammar::{
    annotation_at, attr_views, attrs_from, first_annotation, lemma_annotation_at, scan_annotation,
    scan_attrs, Attr,
};
use crate::span::Span;
use crate::text::{chars_of, slice_of};

verus! {

/// A comment of the source text.
#[derive(Debug)]
pub struct Comment {
    pub span: Span,
    pub text: String,
}

/// The comments attached to the syntax node that starts at `pos`.
#[derive(Debug)]
pub struct Attached {
    pub pos: u32,
    pub comments: Vec<Comment>,
}

/// The comment stream of a unit: the comments that lead a node and those
/// that trail one, grouped by the node's position.
#[derive(Debug)]
pub struct Comments {
    pub leading: Vec<Attached>,
    pub trailing: Vec<Attached>,
}

/// An annotation as it was written, not yet interpreted.
#[derive(Debug)]
pub struct MacroNode {
    pub span: Span,
    pub namespace: String,
    pub directive: String,
    pub attrs: Vec<Attr>,
}

pub ghost struct CommentView {
    pub span: Span,
    pub text: Seq<char>,
}

pub ghost struct AttachedView {
    pub pos: u32,
    pub comments: Seq<CommentView>,
}

pub ghost struct CommentsView {
    pub leading: Seq<AttachedView>,
    pub trailing: Seq<AttachedView>,
}

pub ghost struct MacroNodeView {
    pub span: Span,
    pub namespace: Seq<char>,
    pub directive: Seq<char>,
    pub attrs: Seq<(Seq<char>, Seq<char>)>,
}

impl View for Comment {
    type V = CommentView;

    open spec fn view(&self) -> CommentView {
        CommentView { span: self.span, text: self.text@ }
    }
}

/// The values of a sequence of comments.
pub open spec fn comment_views(comments: Seq<Comment>) -> Seq<CommentView> {
    Seq::new(comments.len(), |i: int| comments[i]@)
}

impl View for Attached {
    type V = AttachedView;

    open spec fn view(&self) -> AttachedView {
        AttachedView { pos: self.pos, comments: comment_views(self.comments@) }
    }
}

/// The values of a sequence of comment groups.
pub open spec fn attached_views(groups: Seq<Attached>) -> Seq<AttachedView> {
    Seq::new(groups.len(), |i: int| groups[i]@)
}

impl View for Comments {
    type V = CommentsView;

    open spec fn view(&self) -> CommentsView {
        CommentsView {
            leading: attached_views(self.leading@),
            trailing: attached_views(self.trailing@),
        }
    }
}

impl View for MacroNode {
    type V = MacroNodeView;

    open spec fn view(&self) -> MacroNodeView {
        MacroNodeView {
            span: self.span,
            namespace: self.namespace@,
            directive: self.directive@,
            attrs: attr_views(self.attrs@),
        }
    }
}

/// The positions and values of a list of annotations.
pub open spec fn macro_views(macros: Seq<(u32, MacroNode)>) -> Seq<(u32, MacroNodeView)> {
    Seq::new(macros.len(), |i: int| (macros[i].0, macros[i].1@))
}

/// The annotation that a comment carries for the namespace `ns`: the first
/// annotation in its text, if that one has this namespace. A comment whose
/// first annotation belongs to another namespace carries none.
pub open spec fn recognise(c: CommentView, ns: Seq<char>) -> Option<MacroNodeView> {
    match first_annotation(c.text, 0) {
        Some(a) => {
            let namespace = c.text.subrange(a.start + 1, a.ns_end);
            if namespace == ns {
                Some(
                    MacroNodeView {
                        span: c.span,
                        namespace,
                        directive: c.text.subrange(a.ns_end + 1, a.dir_end),
                        attrs: match a.attrs {
                            Some((lo, hi)) => attrs_from(c.text.subrange(lo, hi), 0),
                            None => seq![],
                        },
                    },
                )
            } else {
                None
            }
        },
        None => None,
    }
}

/// The comments of a group that carry no annotation for `ns`, in order.
pub open spec fn kept(comments: Seq<CommentView>, ns: Seq<char>) -> Seq<CommentView>
    decreases comments.len(),
{
    if comments.len() == 0 {
        seq![]
    } else {
        let before = kept(comments.drop_last(), ns);
        if recognise(comments.last(), ns) is None {
            before.push(comments.last())
        } else {
            before
        }
    }
}

/// The annotations for `ns` that the comments of a group at `pos` carry, in
/// order.
pub open spec fn found(pos: u32, comments: Seq<CommentView>, ns: Seq<char>) -> Seq<
    (u32, MacroNodeView),
>
    decreases comments.len(),
{
    if comments.len() == 0 {
        seq![]
    } else {
        let before = found(pos, comments.drop_last(), ns);
        match recognise(comments.last(), ns) {
            Some(m) => before.push((pos, m)),
            None => before,
        }
    }
}

/// The groups with the annotated comments taken out.
pub open spec fn kept_groups(groups: Seq<AttachedView>, ns: Seq<char>) -> Seq<AttachedView> {
    Seq::new(
        groups.len(),
        |i: int| AttachedView { pos: groups[i].pos, comments: kept(groups[i].comments, ns) },
    )
}

/// The annotations of all groups, group after group.
pub open spec fn found_groups(groups: Seq<AttachedView>, ns: Seq<char>) -> Seq<
    (u32, MacroNodeView),
>
    decreases groups.len(),
{
    if groups.len() == 0 {
        seq![]
    } else {
        found_groups(groups.drop_last(), ns) + found(
            groups.last().pos,
            groups.last().comments,
            ns,
        )
    }
}

/// The comment stream after a scan for `ns`: every group without the
/// comments that carry an annotation for `ns`.
pub open spec fn remaining(comments: CommentsView, ns: Seq<char>) -> CommentsView {
    CommentsView {
        leading: kept_groups(comments.leading, ns),
        trailing: kept_groups(comments.trailing, ns),
    }
}

/// The annotations for `ns` in a comment stream, each with the position
/// its comment is attached to: those of the leading comments, then those of
/// the trailing ones.
pub open spec fn annotations(comments: CommentsView, ns: Seq<char>) -> Seq<(u32, MacroNodeView)> {
    found_groups(comments.leading, ns) + found_groups(comments.trailing, ns)
}

/// No comment that is kept carries an annotation for the namespace, and
/// every comment that carries none is kept.
pub proof fn lemma_kept(comments: Seq<CommentView>, ns: Seq<char>)
    ensures
        forall|i: int|
            0 <= i < kept(comments, ns).len() ==> recognise(
                #[trigger] kept(comments, ns)[i],
                ns,
            ) is None,
        forall|i: int|
            0 <= i < kept(comments, ns).len() ==> comments.contains(
                #[trigger] kept(comments, ns)[i],
            ),
        forall|i: int|
            0 <= i < comments.len() && recognise(#[trigger] comments[i], ns) is None ==> kept(
                comments,
                ns,
            ).contains(comments[i]),
    decreases comments.len(),
{
    if comments.len() > 0 {
        let front = comments.drop_last();
        lemma_kept(front, ns);
        let k = kept(comments, ns);
        let kf = kept(front, ns);
        assert forall|i: int| 0 <= i < k.len() implies comments.contains(#[trigger] k[i]) by {
            if i < kf.len() {
                assert(k[i] == kf[i]);
                assert(front.contains(kf[i]));
                let j = choose|j: int| 0 <= j < front.len() && front[j] == kf[i];
                assert(comments[j] == k[i]);
            } else {
                assert(comments[comments.len() - 1] == k[i]);
            }
        }
        assert forall|i: int|
            0 <= i < comments.len() && recognise(#[trigger] comments[i], ns) is None implies k.contains(
            comments[i],
        ) by {
            if i < front.len() {
                assert(front[i] == comments[i]);
                assert(kf.contains(front[i]));
                let j = choose|j: int| 0 <= j < kf.len() && kf[j] == front[i];
                assert(k[j] == comments[i]);
            } else {
                assert(k[k.len() - 1] == comments[i]);
            }
        }
    }
}

/// A scanner for the annotations of one namespace.
pub struct MacroParser {
    pub namespace: &'static str,
}

impl MacroParser {
    pub fn new(namespace: &'static str) -> (p: MacroParser)
        ensures
            p.namespace@ == namespace@,
    {
        MacroParser { namespace }
    }

    /// Reads the annotation that a comment carries for this scanner's
    /// namespace.
    pub fn parse_macro(&self, comment: &Comment) -> (r: Option<MacroNode>)
        ensures
            r.is_some() == recognise(comment@, self.namespace@).is_some(),
            r matches Some(m) ==> recognise(comment@, self.namespace@) == Some(m@),
    {
        let text = comment.text.as_str();
        let v = chars_of(text);
        match scan_annotation(&v) {
            None => None,
            Some(f) => {
                proof {
                    let a = first_annotation(v@, 0).unwrap();
                    lemma_first_annotation(v@, 0);
                }
                let namespace = slice_of(text, f.start + 1, f.ns_end);
                if namespace != self.namespace.to_owned() {
                    return None;
                }
                let directive = slice_of(text, f.ns_end + 1, f.dir_end);
                let attrs = match f.attrs {
                    Some((lo, hi)) => {
                        let block = slice_of(text, lo, hi);
                        scan_attrs(block.as_str())
                    },
                    None => {
                        let none: Vec<Attr> = Vec::new();
                        assert(attr_views(none@) =~= seq![]);
                        none
                    },
                };
                Some(MacroNode { span: comment.span, namespace, directive, attrs })
            },
        }
    }
}

/// The first annotation, if there is one, is an annotation at its own
/// start, and its parts lie within the text.
pub proof fn lemma_first_annotation(s: Seq<char>, from: int)
    requires
        0 <= from,
    ensures
        first_annotation(s, from) matches Some(a) ==> {
            &&& from <= a.start
            &&& annotation_at(s, a.start) == Some(a)
            &&& 0 <= a.start < a.ns_end < a.dir_end <= a.end <= s.len()
            &&& a.attrs matches Some((lo, hi)) ==> a.dir_end < lo <= hi < a.end
        },
    decreases s.len() - from,
{
    if from < s.len() {
        lemma_annotation_at(s, from);
        if annotation_at(s, from) is None {
            lemma_first_annotation(s, from + 1);
        }
    }
}

impl MacroParser {
    /// Scans one group of comments: appends the annotations found to
    /// `macros` and gives back the group without their comments.
    fn scan_group(&self, group: &Attached, macros: &mut Vec<(u32, MacroNode)>) -> (out: Attached)
        ensures
            out@ == (AttachedView {
                pos: group.pos,
                comments: kept(group@.comments, self.namespace@),
            }),
            macro_views(final(macros)@) == macro_views(old(macros)@) + found(
                group.pos,
                group@.comments,
                self.namespace@,
            ),
    {
        let ghost ns = self.namespace@;
        let ghost all = group@.comments;
        let ghost before = macro_views(macros@);
        let mut remaining: Vec<Comment> = Vec::new();
        let mut i: usize = 0;
        assert(all.subrange(0, 0) =~= seq![]);
        assert(comment_views(remaining@) =~= seq![]);
        assert(before + seq![] =~= before);
        while i < group.comments.len()
            invariant
                i <= group.comments@.len(),
                all == group@.comments,
                all.len() == group.comments@.len(),
                ns == self.namespace@,
                comment_views(remaining@) == kept(all.subrange(0, i as int), ns),
                macro_views(macros@) == before + found(group.pos, all.subrange(0, i as int), ns),
            decreases group.comments@.len() - i,
        {
            let comment = &group.comments[i];
            let ghost prefix = all.subrange(0, i + 1);
            assert(prefix.drop_last() =~= all.subrange(0, i as int));
            assert(prefix.last() == comment@);
            match self.parse_macro(comment) {
                Some(m) => {
                    proof {
                        assert(macro_views(macros@.push((group.pos, m))) =~= macro_views(
                            macros@,
                        ).push((group.pos, m@)));
                        assert(before + found(group.pos, prefix, ns) =~= (before + found(
                            group.pos,
                            all.subrange(0, i as int),
                            ns,
                        )).push((group.pos, m@)));
                    }
                    macros.push((group.pos, m));
                },
                None => {
                    let c = Comment { span: comment.span, text: comment.text.clone() };
                    assert(comment_views(remaining@.push(c)) =~= comment_views(remaining@).push(
                        c@,
                    ));
                    remaining.push(c);
                },
            }
            i += 1;
        }
        assert(all.subrange(0, i as int) =~= all);
        Attached { pos: group.pos, comments: remaining }
    }

    /// Scans a list of groups in order.
    fn scan_groups(&self, groups: &Vec<Attached>, macros: &mut Vec<(u32, MacroNode)>) -> (out:
        Vec<Attached>)
        ensures
            attached_views(out@) == kept_groups(attached_views(groups@), self.namespace@),
            macro_views(final(macros)@) == macro_views(old(macros)@) + found_groups(
                attached_views(groups@),
                self.namespace@,
            ),
    {
        let ghost ns = self.namespace@;
        let ghost all = attached_views(groups@);
        let ghost before = macro_views(macros@);
        let mut out: Vec<Attached> = Vec::new();
        let mut i: usize = 0;
        assert(all.subrange(0, 0) =~= seq![]);
        assert(before + seq![] =~= before);
        while i < groups.len()
            invariant
                i <= groups@.len(),
                all == attached_views(groups@),
                ns == self.namespace@,
                out@.len() == i,
                forall|k: int| 0 <= k < i ==> (#[trigger] out@[k])@ == kept_groups(all, ns)[k],
                macro_views(macros@) == before + found_groups(all.subrange(0, i as int), ns),
            decreases groups@.len() - i,
        {
            let ghost prefix = all.subrange(0, i + 1);
            assert(prefix.drop_last() =~= all.subrange(0, i as int));
            assert(prefix.last() == groups@[i as int]@);
            let ghost so_far = macro_views(macros@);
            let g = self.scan_group(&groups[i], macros);
            proof {
                let part = found(groups@[i as int].pos, groups@[i as int]@.comments, ns);
                assert(found_groups(prefix, ns) == found_groups(all.subrange(0, i as int), ns)
                    + part);
                assert(so_far + part =~= before + found_groups(prefix, ns));
            }
            out.push(g);
            i += 1;
        }
        assert(all.subrange(0, i as int) =~= all);
        assert(attached_views(out@) =~= kept_groups(all, ns));
        out
    }

    /// Scans a comment stream without changing it. Gives the stream that
    /// remains and the annotations found.
    pub fn scan(&self, comments: &Comments) -> (r: (Comments, Vec<(u32, MacroNode)>))
        ensures
            r.0@ == remaining(comments@, self.namespace@),
            macro_views(r.1@) == annotations(comments@, self.namespace@),
    {
        let mut macros: Vec<(u32, MacroNode)> = Vec::new();
        assert(macro_views(macros@) =~= seq![]);
        let leading = self.scan_groups(&comments.leading, &mut macros);
        let trailing = self.scan_groups(&comments.trailing, &mut macros);
        assert(seq![] + found_groups(comments@.leading, self.namespace@) =~= found_groups(
            comments@.leading,
            self.namespace@,
        ));
        (Comments { leading, trailing }, macros)
    }

    /// Scans the comment stream. The annotations for this scanner's
    /// namespace are returned with the position their comment is attached
    /// to, those of leading comments first; their comments leave the stream.
    /// All other comments stay, in order.
    pub fn parse(&self, comments: &mut Comments) -> (macros: Vec<(u32, MacroNode)>)
        ensures
            final(comments)@ == remaining(old(comments)@, self.namespace@),
            macro_views(macros@) == annotations(old(comments)@, self.namespace@),
    {
        let (rest, macros) = self.scan(comments);
        *comments = rest;
        macros
    }
}

/// After a scan no comment of the stream carries an annotation for the
/// scanner's namespace, neither among the leading comments nor among the
/// trailing ones.
pub proof fn lemma_no_annotation_survives(comments: CommentsView, ns: Seq<char>)
    ensures
        forall|g: int, c: int|
            0 <= g < remaining(comments, ns).leading.len() && 0 <= c < remaining(
                comments,
                ns,
            ).leading[g].comments.len() ==> recognise(
                #[trigger] remaining(comments, ns).leading[g].comments[c],
                ns,
            ) is None,
        forall|g: int, c: int|
            0 <= g < remaining(comments, ns).trailing.len() && 0 <= c < remaining(
                comments,
                ns,
            ).trailing[g].comments.len() ==> recognise(
                #[trigger] remaining(comments, ns).trailing[g].comments[c],
                ns,
            ) is None,
{
    lemma_no_annotation_in_groups(comments.leading, ns);
    lemma_no_annotation_in_groups(comments.trailing, ns);
}

/// After a scan no comment of the groups carries an annotation for the
/// scanner's namespace.
pub proof fn lemma_no_annotation_in_groups(groups: Seq<AttachedView>, ns: Seq<char>)
    ensures
        forall|g: int, c: int|
            0 <= g < kept_groups(groups, ns).len() && 0 <= c < kept_groups(
                groups,
                ns,
            )[g].comments.len() ==> recognise(
                #[trigger] kept_groups(groups, ns)[g].comments[c],
                ns,
            ) is None,
{
    assert forall|g: int, c: int|
        0 <= g < kept_groups(groups, ns).len() && 0 <= c < kept_groups(
            groups,
            ns,
        )[g].comments.len() implies recognise(
        #[trigger] kept_groups(groups, ns)[g].comments[c],
        ns,
    ) is None by {
        lemma_kept(groups[g].comments, ns);
    }
}

/// A second scan of a scanned stream finds nothing and changes nothing.
pub proof fn lemma_scan_twice(comments: CommentsView, ns: Seq<char>)
    ensures
        remaining(remaining(comments, ns), ns) == remaining(comments, ns),
        annotations(remaining(comments, ns), ns) == Seq::<(u32, MacroNodeView)>::empty(),
{
    lemma_scan_groups_twice(comments.leading, ns);
    lemma_scan_groups_twice(comments.trailing, ns);
}

/// A second scan of scanned groups finds nothing and changes nothing.
pub proof fn lemma_scan_groups_twice(groups: Seq<AttachedView>, ns: Seq<char>)
    ensures
        kept_groups(kept_groups(groups, ns), ns) == kept_groups(groups, ns),
        found_groups(kept_groups(groups, ns), ns) == Seq::<(u32, MacroNodeView)>::empty(),
    decreases groups.len(),
{
    let once = kept_groups(groups, ns);
    assert forall|g: int| 0 <= g < once.len() implies kept(once[g].comments, ns)
        == once[g].comments && found(once[g].pos, once[g].comments, ns) == Seq::<
        (u32, MacroNodeView),
    >::empty() by {
        lemma_kept(groups[g].comments, ns);
        lemma_rescan(once[g].pos, once[g].comments, ns);
    }
    assert(kept_groups(once, ns) =~= once);
    lemma_found_nothing(once, ns);
}

/// Comments that carry no annotation are all kept, and none is found.
proof fn lemma_rescan(pos: u32, comments: Seq<CommentView>, ns: Seq<char>)
    requires
        forall|i: int| 0 <= i < comments.len() ==> recognise(#[trigger] comments[i], ns) is None,
    ensures
        kept(comments, ns) == comments,
        found(pos, comments, ns) == Seq::<(u32, MacroNodeView)>::empty(),
    decreases comments.len(),
{
    if comments.len() > 0 {
        lemma_rescan(pos, comments.drop_last(), ns);
        assert(comments.drop_last().push(comments.last()) =~= comments);
    }
}

/// Groups in which nothing is found yield nothing.
proof fn lemma_found_nothing(groups: Seq<AttachedView>, ns: Seq<char>)
    requires
        forall|g: int|
            0 <= g < groups.len() ==> found(
                (#[trigger] groups[g]).pos,
                groups[g].comments,
                ns,
            ) == Seq::<(u32, MacroNodeView)>::empty(),
    ensures
        found_groups(groups, ns) == Seq::<(u32, MacroNodeView)>::empty(),
    decreases groups.len(),
{
    if groups.len() > 0 {
        lemma_found_nothing(groups.drop_last(), ns);
        assert(groups.last() == groups[groups.len() - 1]);
        assert(found_groups(groups, ns) =~= Seq::<(u32, MacroNodeView)>::empty());
    }
}

} // verus!
