//! Feature flags: which values of a configuration are switched on, which
//! conditional spans of a source text they may remove, and what to recommend.

use vstd::prelude::*;
use crate::ast::{lemma_views, views, Kind, Node, NodeView};
use crate::json::{
    lemma_member_views, member_views, truthy_spec, Json, JsonView,
};
use crate::text::{
    contains_text, decimal, decimal_text, lemma_texts_push, occurs_in, prefix, prefix_text,
    texts,
};

verus! {

/// A named flag and whether it is switched on.
#[derive(Debug)]
pub struct FeatureFlag {
    pub name: String,
    pub enabled: bool,
}

impl View for FeatureFlag {
    type V = (Seq<char>, bool);

    open spec fn view(&self) -> (Seq<char>, bool) {
        (self.name@, self.enabled)
    }
}

/// The names and states of a list of flags.
pub open spec fn flag_views(flags: Seq<FeatureFlag>) -> Seq<(Seq<char>, bool)> {
    Seq::new(flags.len(), |i: int| flags[i]@)
}

/// What a configuration says about features.
#[derive(Debug)]
pub struct FeatureDetectionResult {
    /// Whether there is a flag and every flag is switched on.
    pub all_enabled: bool,
    /// The names of the flags that are switched on.
    pub enabled_features: Vec<String>,
    /// Every flag with its state. No name occurs twice.
    pub feature_flags: Vec<FeatureFlag>,
    /// Whether some flag is switched off, so that there is something to
    /// remove.
    pub should_optimize: bool,
}

pub ghost struct FeatureDetectionView {
    pub all_enabled: bool,
    pub enabled_features: Seq<Seq<char>>,
    pub feature_flags: Seq<(Seq<char>, bool)>,
    pub should_optimize: bool,
}

impl View for FeatureDetectionResult {
    type V = FeatureDetectionView;

    open spec fn view(&self) -> FeatureDetectionView {
        FeatureDetectionView {
            all_enabled: self.all_enabled,
            enabled_features: texts(self.enabled_features@),
            feature_flags: flag_views(self.feature_flags@),
            should_optimize: self.should_optimize,
        }
    }
}

impl FeatureDetectionResult {
    pub fn new() -> (r: FeatureDetectionResult)
        ensures
            r@ == (FeatureDetectionView {
                all_enabled: false,
                enabled_features: seq![],
                feature_flags: seq![],
                should_optimize: false,
            }),
    {
        let r = FeatureDetectionResult {
            all_enabled: false,
            enabled_features: Vec::new(),
            feature_flags: Vec::new(),
            should_optimize: false,
        };
        assert(r@.enabled_features =~= seq![]);
        assert(r@.feature_flags =~= seq![]);
        r
    }
}

/// A span of a source text that tests a feature.
#[derive(Debug)]
pub struct ConditionalSpan {
    pub start: usize,
    pub end: usize,
    pub condition: String,
    pub should_remove: bool,
    pub content_preview: String,
}

pub ghost struct ConditionalSpanView {
    pub start: usize,
    pub end: usize,
    pub condition: Seq<char>,
    pub should_remove: bool,
    pub content_preview: Seq<char>,
}

impl View for ConditionalSpan {
    type V = ConditionalSpanView;

    open spec fn view(&self) -> ConditionalSpanView {
        ConditionalSpanView {
            start: self.start,
            end: self.end,
            condition: self.condition@,
            should_remove: self.should_remove,
            content_preview: self.content_preview@,
        }
    }
}

/// The values of a list of spans.
pub open spec fn span_views(spans: Seq<ConditionalSpan>) -> Seq<ConditionalSpanView> {
    Seq::new(spans.len(), |i: int| spans[i]@)
}

/// The index of the first flag at or after `from` that is named `name`, or
/// the number of flags.
pub open spec fn flag_index(flags: Seq<(Seq<char>, bool)>, name: Seq<char>, from: int) -> int
    decreases flags.len() - from,
{
    if from < 0 || from >= flags.len() {
        flags.len() as int
    } else if flags[from].0 == name {
        from
    } else {
        flag_index(flags, name, from + 1)
    }
}

/// The flags with `name` set to `enabled`: a flag of that name takes the
/// new state where it stands, a new name goes to the end.
pub open spec fn with_flag(flags: Seq<(Seq<char>, bool)>, name: Seq<char>, enabled: bool) -> Seq<
    (Seq<char>, bool),
> {
    let at = flag_index(flags, name, 0);
    if at < flags.len() {
        flags.update(at, (name, enabled))
    } else {
        flags.push((name, enabled))
    }
}

/// The flags after the first `n` members of the object at `key` have been
/// read: each member `m` sets the flag `key.m`.
pub open spec fn with_nested(
    flags: Seq<(Seq<char>, bool)>,
    key: Seq<char>,
    members: Seq<(Seq<char>, JsonView)>,
    n: int,
) -> Seq<(Seq<char>, bool)>
    decreases n,
{
    if n <= 0 || n > members.len() {
        flags
    } else {
        with_flag(
            with_nested(flags, key, members, n - 1),
            key + seq!['.'] + members[n - 1].0,
            truthy_spec(members[n - 1].1),
        )
    }
}

/// The flags after the first `n` members of the configuration have been
/// read: each member sets the flag of its name, and if it is an object, its
/// own members set the flags `name.member`.
pub open spec fn flags_upto(members: Seq<(Seq<char>, JsonView)>, n: int) -> Seq<(Seq<char>, bool)>
    decreases n,
{
    if n <= 0 || n > members.len() {
        seq![]
    } else {
        let own = with_flag(
            flags_upto(members, n - 1),
            members[n - 1].0,
            truthy_spec(members[n - 1].1),
        );
        match members[n - 1].1 {
            JsonView::Object(nested) => with_nested(
                own,
                members[n - 1].0,
                nested,
                nested.len() as int,
            ),
            _ => own,
        }
    }
}

/// The flags of a configuration. A configuration that is no object has
/// none.
pub open spec fn flags_of(config: JsonView) -> Seq<(Seq<char>, bool)> {
    match config {
        JsonView::Object(members) => flags_upto(members, members.len() as int),
        _ => seq![],
    }
}

/// Whether every flag is switched on.
pub open spec fn all_on(flags: Seq<(Seq<char>, bool)>) -> bool {
    forall|i: int| 0 <= i < flags.len() ==> (#[trigger] flags[i]).1
}

/// The names of the first `n` flags that are switched on, in order.
pub open spec fn enabled_upto(flags: Seq<(Seq<char>, bool)>, n: int) -> Seq<Seq<char>>
    decreases n,
{
    if n <= 0 || n > flags.len() {
        seq![]
    } else if flags[n - 1].1 {
        enabled_upto(flags, n - 1).push(flags[n - 1].0)
    } else {
        enabled_upto(flags, n - 1)
    }
}

/// Sets the flag `name`.
fn set_flag(flags: &mut Vec<FeatureFlag>, name: String, enabled: bool)
    ensures
        flag_views(final(flags)@) == with_flag(flag_views(old(flags)@), name@, enabled),
{
    let ghost before = flag_views(flags@);
    let mut i: usize = 0;
    while i < flags.len()
        invariant
            i <= flags@.len(),
            before == flag_views(flags@),
            before == flag_views(old(flags)@),
            flag_index(before, name@, 0) == flag_index(before, name@, i as int),
        decreases flags@.len() - i,
    {
        if flags[i].name == name {
            assert(before[i as int].0 == name@);
            flags[i] = FeatureFlag { name, enabled };
            assert(flag_views(flags@) =~= before.update(i as int, (name@, enabled)));
            return ;
        }
        i += 1;
    }
    flags.push(FeatureFlag { name, enabled });
    assert(flag_views(flags@) =~= before.push((name@, enabled)));
}

/// Reads the flags of a configuration.
pub fn extract_config_values_simple(config: &Json) -> (flags: Vec<FeatureFlag>)
    ensures
        flag_views(flags@) == flags_of(config@),
{
    let mut flags: Vec<FeatureFlag> = Vec::new();
    assert(flag_views(flags@) =~= seq![]);
    match config {
        Json::Object(members) => {
            let ghost all = member_views(members@);
            let mut i: usize = 0;
            proof {
                lemma_member_views(members@);
            }
            while i < members.len()
                invariant
                    i <= members@.len(),
                    all == member_views(members@),
                    all.len() == members@.len(),
                    flag_views(flags@) == flags_upto(all, i as int),
                decreases members@.len() - i,
            {
                let member = &members[i];
                proof {
                    lemma_member_views(members@);
                }
                set_flag(&mut flags, member.key.clone(), member.value.is_truthy());
                match &member.value {
                    Json::Object(nested) => {
                        let ghost inner = member_views(nested@);
                        let ghost own = flag_views(flags@);
                        let mut k: usize = 0;
                        proof {
                            lemma_member_views(nested@);
                        }
                        while k < nested.len()
                            invariant
                                k <= nested@.len(),
                                inner == member_views(nested@),
                                inner.len() == nested@.len(),
                                flag_views(flags@) == with_nested(own, member.key@, inner, k as int),
                            decreases nested@.len() - k,
                        {
                            proof {
                                lemma_member_views(nested@);
                                reveal_strlit(".");
                            }
                            let mut name = member.key.clone();
                            name.append(".");
                            name.append(nested[k].key.as_str());
                            assert(name@ =~= member.key@ + seq!['.'] + nested@[k as int].key@);
                            set_flag(&mut flags, name, nested[k].value.is_truthy());
                            k += 1;
                        }
                    },
                    _ => {},
                }
                i += 1;
            }
        },
        _ => {},
    }
    flags
}

/// What a configuration says about features, or the reason why it says
/// nothing: it has no value at all.
pub open spec fn feature_config_spec(config: JsonView) -> Result<FeatureDetectionView, Seq<char>> {
    let flags = flags_of(config);
    if flags.len() == 0 {
        Err("No configuration values found"@)
    } else {
        Ok(
            FeatureDetectionView {
                all_enabled: all_on(flags),
                enabled_features: enabled_upto(flags, flags.len() as int),
                feature_flags: flags,
                should_optimize: !all_on(flags),
            },
        )
    }
}

/// Reads the features of a configuration. Every value of the configuration
/// counts as a flag, switched on if the value is truthy.
pub fn extract_feature_config(config: &Json) -> (r: Result<FeatureDetectionResult, String>)
    ensures
        match r {
            Ok(found) => feature_config_spec(config@) == Ok::<FeatureDetectionView, Seq<char>>(
                found@,
            ),
            Err(e) => feature_config_spec(config@) == Err::<FeatureDetectionView, Seq<char>>(e@),
        },
{
    let flags = extract_config_values_simple(config);
    if flags.len() == 0 {
        return Err("No configuration values found".to_owned());
    }
    let ghost all = flag_views(flags@);
    let mut enabled: Vec<String> = Vec::new();
    let mut all_enabled = true;
    let mut i: usize = 0;
    assert(texts(enabled@) =~= seq![]);
    while i < flags.len()
        invariant
            i <= flags@.len(),
            all == flag_views(flags@),
            texts(enabled@) == enabled_upto(all, i as int),
            all_enabled == all_on(all.subrange(0, i as int)),
        decreases flags@.len() - i,
    {
        proof {
            let prefix = all.subrange(0, i + 1);
            let before = all.subrange(0, i as int);
            assert(prefix[i as int] == all[i as int]);
            assert forall|j: int| 0 <= j < before.len() implies before[j] == prefix[j] by {}
            if all_on(prefix) {
                assert forall|j: int| 0 <= j < before.len() implies (#[trigger] before[j]).1 by {
                    assert(prefix[j].1);
                }
            }
        }
        if flags[i].enabled {
            let name = flags[i].name.clone();
            proof {
                lemma_texts_push(enabled@, name);
            }
            enabled.push(name);
        } else {
            all_enabled = false;
        }
        i += 1;
    }
    assert(all.subrange(0, i as int) =~= all);
    Ok(
        FeatureDetectionResult {
            all_enabled,
            enabled_features: enabled,
            feature_flags: flags,
            should_optimize: !all_enabled,
        },
    )
}

/// Whether there is nothing to transform: the configuration has values and
/// all of them are truthy.
pub fn should_skip_all_transformations(config: &Json) -> (skip: bool)
    ensures
        skip == (flags_of(config@).len() > 0 && all_on(flags_of(config@))),
{
    match extract_feature_config(config) {
        Ok(found) => found.all_enabled,
        Err(_) => false,
    }
}

/// The successive non-overlapping matches of a regular expression in a
/// text, each with the byte offsets of its start and its end and with the
/// text matched; `None` for a pattern that does not compile.
pub uninterp spec fn pattern_matches(pattern: Seq<char>, text: Seq<char>) -> Option<
    Seq<(usize, usize, Seq<char>)>,
>;

/// The offsets and texts of a list of matches.
pub open spec fn match_views(matches: Option<Vec<(usize, usize, String)>>) -> Option<
    Seq<(usize, usize, Seq<char>)>,
> {
    match matches {
        Some(list) => Some(Seq::new(list@.len(), |i: int| (list@[i].0, list@[i].1, list@[i].2@))),
        None => None,
    }
}

/// Compiles `pattern` with `regex::Regex::new` and searches `text` with
/// `regex::Regex::find_iter`. Gives for each match what `Match::start`,
/// `Match::end` and `Match::as_str` return, in the order of the iterator,
/// or `None` where the pattern does not compile. Nothing is claimed of the
/// matches but that they depend on the pattern and the text alone.
#[verifier::external_body]
pub(crate) fn find_matches(pattern: &str, text: &str) -> (r: Option<Vec<(usize, usize, String)>>)
    ensures
        match_views(r) == pattern_matches(pattern@, text@),
{
    match regex::Regex::new(pattern) {
        Ok(re) => Some(
            re.find_iter(text).map(|m| (m.start(), m.end(), m.as_str().to_owned())).collect(),
        ),
        Err(_) => None,
    }
}

/// Whether a text mentions the name of a flag that is switched off.
pub open spec fn mentions_disabled(content: Seq<char>, flags: Seq<(Seq<char>, bool)>) -> bool {
    exists|i: int| 0 <= i < flags.len() && !(#[trigger] flags[i]).1 && occurs_in(content, flags[i].0)
}

/// Whether a conditional span can be removed: it mentions a flag that is
/// switched off.
pub fn should_remove_conditional_span(content: &str, flags: &Vec<FeatureFlag>) -> (b: bool)
    ensures
        b == mentions_disabled(content@, flag_views(flags@)),
{
    let mut i: usize = 0;
    while i < flags.len()
        invariant
            i <= flags@.len(),
            forall|k: int|
                0 <= k < i ==> (#[trigger] flag_views(flags@)[k]).1 || !occurs_in(
                    content@,
                    flag_views(flags@)[k].0,
                ),
        decreases flags@.len() - i,
    {
        if !flags[i].enabled && contains_text(content, flags[i].name.as_str()) {
            assert(!flag_views(flags@)[i as int].1);
            return true;
        }
        i += 1;
    }
    false
}

/// The span that a match stands for.
pub open spec fn span_of(
    found: (usize, usize, Seq<char>),
    description: Seq<char>,
    flags: Seq<(Seq<char>, bool)>,
) -> ConditionalSpanView {
    ConditionalSpanView {
        start: found.0,
        end: found.1,
        condition: description,
        should_remove: mentions_disabled(found.2, flags),
        content_preview: prefix(found.2, 100) + "..."@,
    }
}

/// The spans that the matches of one pattern stand for, in order. None for
/// a pattern that does not compile.
pub open spec fn spans_of(
    matches: Option<Seq<(usize, usize, Seq<char>)>>,
    description: Seq<char>,
    flags: Seq<(Seq<char>, bool)>,
) -> Seq<ConditionalSpanView> {
    match matches {
        Some(list) => Seq::new(list.len(), |i: int| span_of(list[i], description, flags)),
        None => seq![],
    }
}

/// Appends the spans that the matches of one pattern stand for.
pub fn spans_of_matches(
    matches: &Option<Vec<(usize, usize, String)>>,
    description: &str,
    flags: &Vec<FeatureFlag>,
    out: &mut Vec<ConditionalSpan>,
)
    ensures
        span_views(final(out)@) == span_views(old(out)@) + spans_of(
            match_views(*matches),
            description@,
            flag_views(flags@),
        ),
{
    let ghost start = span_views(out@);
    match matches {
        None => {
            assert(start + seq![] =~= start);
        },
        Some(list) => {
            let ghost all = spans_of(match_views(*matches), description@, flag_views(flags@));
            let mut i: usize = 0;
            assert(start + all.subrange(0, 0) =~= start);
            while i < list.len()
                invariant
                    i <= list@.len(),
                    *matches == Some(*list),
                    all == spans_of(match_views(*matches), description@, flag_views(flags@)),
                    all.len() == list@.len(),
                    span_views(out@) == start + all.subrange(0, i as int),
                decreases list@.len() - i,
            {
                let found = &list[i];
                let mut preview = prefix_text(found.2.as_str(), 100);
                preview.append("...");
                let span = ConditionalSpan {
                    start: found.0,
                    end: found.1,
                    condition: description.to_owned(),
                    should_remove: should_remove_conditional_span(found.2.as_str(), flags),
                    content_preview: preview,
                };
                assert(span@ == all[i as int]);
                assert(span_views(out@.push(span)) =~= span_views(out@).push(span@));
                assert((start + all.subrange(0, i as int)).push(all[i as int]) =~= start
                    + all.subrange(0, i + 1));
                out.push(span);
                i += 1;
            }
            assert(all.subrange(0, i as int) =~= all);
        },
    }
}

/// The pattern of a test of a bundled feature import.
pub open spec fn import_check() -> Seq<char> {
    "if\\s*\\(\\s*__WEBPACK_IMPORT_\\w+__\\.features\\.\\w+\\s*\\)"@
}

/// The pattern of a test of a configured feature.
pub open spec fn config_check() -> Seq<char> {
    "if\\s*\\(\\s*config\\.features\\.\\w+\\s*\\)"@
}

/// The pattern of an assignment that chooses by a bundled feature import.
pub open spec fn ternary_assignment() -> Seq<char> {
    "\\w+\\s*=\\s*__WEBPACK_IMPORT_\\w+__\\.features\\.\\w+\\s*\\?\\s*[^:]+\\s*:\\s*[^;]+"@
}

/// The conditional spans of a source text: the matches of the three
/// patterns, pattern after pattern.
pub open spec fn conditional_spans(source: Seq<char>, flags: Seq<(Seq<char>, bool)>) -> Seq<
    ConditionalSpanView,
> {
    spans_of(pattern_matches(import_check(), source), "webpack feature check"@, flags) + spans_of(
        pattern_matches(config_check(), source),
        "config feature check"@,
        flags,
    ) + spans_of(
        pattern_matches(ternary_assignment(), source),
        "ternary feature assignment"@,
        flags,
    )
}

/// Finds the spans of a source text that test a feature, and says of each
/// whether a flag that is switched off lets it be removed.
pub fn analyze_conditional_spans(source: &str, feature_config: &FeatureDetectionResult) -> (out:
    Vec<ConditionalSpan>)
    ensures
        span_views(out@) == conditional_spans(source@, feature_config@.feature_flags),
{
    let mut out: Vec<ConditionalSpan> = Vec::new();
    assert(span_views(out@) =~= seq![]);
    let flags = &feature_config.feature_flags;
    let first = find_matches(
        "if\\s*\\(\\s*__WEBPACK_IMPORT_\\w+__\\.features\\.\\w+\\s*\\)",
        source,
    );
    spans_of_matches(&first, "webpack feature check", flags, &mut out);
    let second = find_matches("if\\s*\\(\\s*config\\.features\\.\\w+\\s*\\)", source);
    spans_of_matches(&second, "config feature check", flags, &mut out);
    let third = find_matches(
        "\\w+\\s*=\\s*__WEBPACK_IMPORT_\\w+__\\.features\\.\\w+\\s*\\?\\s*[^:]+\\s*:\\s*[^;]+",
        source,
    );
    spans_of_matches(&third, "ternary feature assignment", flags, &mut out);
    proof {
        let f = feature_config@.feature_flags;
        let a = spans_of(pattern_matches(import_check(), source@), "webpack feature check"@, f);
        assert(seq![] + a =~= a);
    }
    out
}

/// The feature that a member access reads: the access has the form
/// `object.features.name`, where `object` is `features` itself or a name
/// that holds `config` while the middle name is `features`.
pub open spec fn feature_read(n: NodeView) -> Option<Seq<char>> {
    if n.kind == Kind::Member && n.children.len() == 2 && n.children[1].kind == Kind::Ident
        && n.children[0].kind == Kind::Member && n.children[0].children.len() == 2
        && n.children[0].children[0].kind == Kind::Ident && n.children[0].children[1].kind
        == Kind::Ident && (n.children[0].children[0].text == "features"@ || (occurs_in(
        n.children[0].children[0].text,
        "config"@,
    ) && n.children[0].children[1].text == "features"@)) {
        Some(n.children[1].text)
    } else {
        None
    }
}

/// The features that the member accesses within `n` read, in source order.
pub open spec fn feature_reads(n: NodeView) -> Seq<Seq<char>>
    decreases n, 1int,
{
    let own = match feature_read(n) {
        Some(name) => seq![name],
        None => seq![],
    };
    own + feature_reads_all(n.children)
}

/// The features that the member accesses within a sequence of nodes read.
pub open spec fn feature_reads_all(nodes: Seq<NodeView>) -> Seq<Seq<char>>
    decreases nodes, 0int,
{
    if nodes.len() == 0 {
        seq![]
    } else {
        feature_reads_all(nodes.drop_last()) + feature_reads(nodes.last())
    }
}

/// The feature that a member access reads.
pub fn read_feature(n: &Node) -> (r: Option<String>)
    ensures
        r.is_some() == feature_read(n@).is_some(),
        r matches Some(s) ==> feature_read(n@) == Some(s@),
{
    proof {
        lemma_views(n.children@);
    }
    if n.kind == Kind::Member && n.children.len() == 2 && n.children[1].kind == Kind::Ident
        && n.children[0].kind == Kind::Member {
        let inner = &n.children[0];
        proof {
            lemma_views(inner.children@);
        }
        if inner.children.len() == 2 && inner.children[0].kind == Kind::Ident
            && inner.children[1].kind == Kind::Ident {
            let object = &inner.children[0].text;
            let middle = &inner.children[1].text;
            if *object == "features".to_owned() || (contains_text(object.as_str(), "config")
                && *middle == "features".to_owned()) {
                return Some(n.children[1].text.clone());
            }
        }
    }
    None
}

/// Appends the features that the member accesses within `n` read.
pub fn collect_feature_reads(n: &Node, out: &mut Vec<String>)
    ensures
        texts(final(out)@) == texts(old(out)@) + feature_reads(n@),
    decreases n,
{
    let ghost start = texts(out@);
    match read_feature(n) {
        Some(name) => {
            proof {
                lemma_texts_push(out@, name);
            }
            out.push(name);
        },
        None => {},
    }
    let ghost own = texts(out@);
    let ghost all = views(n.children@);
    let mut i: usize = 0;
    proof {
        lemma_views(n.children@);
        assert(all.subrange(0, 0) =~= seq![]);
        assert(own + seq![] =~= own);
    }
    while i < n.children.len()
        invariant
            i <= n.children@.len(),
            all == views(n.children@),
            all.len() == n.children@.len(),
            texts(out@) == own + feature_reads_all(all.subrange(0, i as int)),
        decreases n.children@.len() - i,
    {
        proof {
            lemma_views(n.children@);
            let prefix = all.subrange(0, i + 1);
            assert(prefix.drop_last() =~= all.subrange(0, i as int));
            assert(prefix.last() == n.children@[i as int]@);
        }
        collect_feature_reads(&n.children[i], out);
        proof {
            let done = feature_reads_all(all.subrange(0, i as int));
            let next = feature_reads(n.children@[i as int]@);
            assert((own + done) + next =~= own + (done + next));
        }
        i += 1;
    }
    proof {
        assert(all.subrange(0, i as int) =~= all);
        let own_part = match feature_read(n@) {
            Some(name) => seq![name],
            None => seq![],
        };
        assert(own =~= start + own_part);
        assert((start + own_part) + feature_reads_all(all) =~= start + (own_part
            + feature_reads_all(all)));
    }
}

/// A feature and the contexts that depend on it.
#[derive(Debug)]
pub struct FeatureDependency {
    pub feature: String,
    pub contexts: Vec<String>,
}

impl View for FeatureDependency {
    type V = (Seq<char>, Seq<Seq<char>>);

    open spec fn view(&self) -> (Seq<char>, Seq<Seq<char>>) {
        (self.feature@, texts(self.contexts@))
    }
}

/// The features and contexts of a list of dependencies.
pub open spec fn dependency_views(deps: Seq<FeatureDependency>) -> Seq<
    (Seq<char>, Seq<Seq<char>>),
> {
    Seq::new(deps.len(), |i: int| deps[i]@)
}

/// The features that a unit reads, each once, in source order, each with
/// the one context `global`.
pub open spec fn feature_dependencies(program: NodeView) -> Seq<(Seq<char>, Seq<Seq<char>>)> {
    let features = crate::parser::distinct(feature_reads(program));
    Seq::new(features.len(), |i: int| (features[i], seq!["global"@]))
}

/// Finds the features that a unit reads.
pub fn analyze_feature_dependencies(program: &Node) -> (out: Vec<FeatureDependency>)
    ensures
        dependency_views(out@) == feature_dependencies(program@),
{
    let mut reads: Vec<String> = Vec::new();
    assert(texts(reads@) =~= seq![]);
    collect_feature_reads(program, &mut reads);
    assert(seq![] + feature_reads(program@) =~= feature_reads(program@));
    let features = crate::parser::distinct_texts(&reads);
    let ghost all = feature_dependencies(program@);
    let mut out: Vec<FeatureDependency> = Vec::new();
    let mut i: usize = 0;
    while i < features.len()
        invariant
            i <= features@.len(),
            texts(features@) == crate::parser::distinct(feature_reads(program@)),
            all == feature_dependencies(program@),
            out@.len() == i,
            forall|k: int| 0 <= k < i ==> (#[trigger] out@[k])@ == all[k],
        decreases features@.len() - i,
    {
        let mut contexts: Vec<String> = Vec::new();
        contexts.push("global".to_owned());
        assert(texts(contexts@) =~= seq!["global"@]);
        out.push(FeatureDependency { feature: features[i].clone(), contexts });
        i += 1;
    }
    assert(dependency_views(out@) =~= all);
    out
}

/// The index of the first dependency at or after `from` on the feature
/// `name`, or the number of dependencies.
pub open spec fn dependency_index(
    deps: Seq<(Seq<char>, Seq<Seq<char>>)>,
    name: Seq<char>,
    from: int,
) -> int
    decreases deps.len() - from,
{
    if from < 0 || from >= deps.len() {
        deps.len() as int
    } else if deps[from].0 == name {
        from
    } else {
        dependency_index(deps, name, from + 1)
    }
}

/// The advice on one flag that is switched off and has dependents.
pub open spec fn disabled_advice(name: Seq<char>, count: nat) -> Seq<char> {
    "Feature '"@ + name + "' is disabled and affects "@ + decimal(count)
        + " modules - consider removing related code"@
}

/// The advice on the first `n` flags: one line for each flag that is
/// switched off and has dependents.
pub open spec fn advice_upto(
    flags: Seq<(Seq<char>, bool)>,
    deps: Seq<(Seq<char>, Seq<Seq<char>>)>,
    n: int,
) -> Seq<Seq<char>>
    decreases n,
{
    if n <= 0 || n > flags.len() {
        seq![]
    } else {
        let before = advice_upto(flags, deps, n - 1);
        let at = dependency_index(deps, flags[n - 1].0, 0);
        if !flags[n - 1].1 && at < deps.len() {
            before.push(disabled_advice(flags[n - 1].0, deps[at].1.len()))
        } else {
            before
        }
    }
}

/// The recommendations for a configuration: the advice on its flags, then a
/// hint at code splitting where there are more than three flags, then a
/// hint at tree shaking where not all features are enabled.
pub open spec fn recommendations(
    config: FeatureDetectionView,
    deps: Seq<(Seq<char>, Seq<Seq<char>>)>,
) -> Seq<Seq<char>> {
    let advice = advice_upto(config.feature_flags, deps, config.feature_flags.len() as int);
    let split = if config.feature_flags.len() > 3 {
        advice.push(
            "Multiple features detected - consider code splitting for better optimization"@,
        )
    } else {
        advice
    };
    if !config.all_enabled {
        split.push("Not all features are enabled - tree shaking will be effective"@)
    } else {
        split
    }
}

/// Writes the recommendations for a configuration.
pub fn generate_optimization_recommendations(
    feature_config: &FeatureDetectionResult,
    feature_dependencies: &Vec<FeatureDependency>,
) -> (out: Vec<String>)
    ensures
        texts(out@) == recommendations(feature_config@, dependency_views(feature_dependencies@)),
{
    let ghost flags = feature_config@.feature_flags;
    let ghost deps = dependency_views(feature_dependencies@);
    let mut out: Vec<String> = Vec::new();
    let mut i: usize = 0;
    assert(texts(out@) =~= seq![]);
    while i < feature_config.feature_flags.len()
        invariant
            i <= feature_config.feature_flags@.len(),
            flags == feature_config@.feature_flags,
            deps == dependency_views(feature_dependencies@),
            texts(out@) == advice_upto(flags, deps, i as int),
        decreases feature_config.feature_flags@.len() - i,
    {
        let flag = &feature_config.feature_flags[i];
        assert(flags[i as int] == flag@);
        if !flag.enabled {
            let mut k: usize = 0;
            let mut found: Option<usize> = None;
            while k < feature_dependencies.len() && found.is_none()
                invariant
                    k <= feature_dependencies@.len(),
                    deps == dependency_views(feature_dependencies@),
                    found is None ==> dependency_index(deps, flag.name@, 0) == dependency_index(
                        deps,
                        flag.name@,
                        k as int,
                    ),
                    found matches Some(at) ==> at < feature_dependencies@.len() && at
                        == dependency_index(deps, flag.name@, 0),
                decreases feature_dependencies@.len() - k + if found is None { 1int } else { 0int },
            {
                assert(deps[k as int] == feature_dependencies@[k as int]@);
                if feature_dependencies[k].feature == flag.name {
                    found = Some(k);
                } else {
                    k += 1;
                }
            }
            match found {
                Some(at) => {
                    assert(deps[at as int] == feature_dependencies@[at as int]@);
                    let mut line = "Feature '".to_owned();
                    line.append(flag.name.as_str());
                    line.append("' is disabled and affects ");
                    line.append(decimal_text(feature_dependencies[at].contexts.len() as u128).as_str());
                    line.append(" modules - consider removing related code");
                    proof {
                        lemma_texts_push(out@, line);
                    }
                    out.push(line);
                },
                None => {},
            }
        }
        i += 1;
    }
    if feature_config.feature_flags.len() > 3 {
        let line = "Multiple features detected - consider code splitting for better optimization".to_owned();
        proof {
            lemma_texts_push(out@, line);
        }
        out.push(line);
    }
    if !feature_config.all_enabled {
        let line = "Not all features are enabled - tree shaking will be effective".to_owned();
        proof {
            lemma_texts_push(out@, line);
        }
        out.push(line);
    }
    out
}

} // verus!
