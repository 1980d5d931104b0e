//! The cursor containment query: which construct is the caret inside?

use vstd::prelude::*;

verus! {

use crate::editor::renderer::{wf_span, wf_spans};
use crate::markdown::parser::{
    KindModel,
    MarkdownSpan,
    NodeKind,
    SpanModel,
    lemma_span_models_index,
    lemma_span_models_len,
    span_models,
};

/// Kinds that represent visible formatting, as opposed to container or
/// structural nodes.
pub open spec fn interesting(k: KindModel) -> bool {
    !(k is Text || k is Other || k is Paragraph || k is List || k is Item || k is HtmlInline)
}

/// What the query answers for a single span: the innermost interesting span
/// of this subtree that contains `pos` (both range endpoints included),
/// children preferred over the node itself.
pub open spec fn query_span(s: SpanModel, pos: int) -> Option<SpanModel>
    decreases s, 1int,
{
    if s.start <= pos <= s.end {
        match query_spans(s.children, pos) {
            Option::Some(m) => Option::Some(m),
            Option::None => if interesting(s.kind) {
                Option::Some(s)
            } else {
                Option::None
            },
        }
    } else {
        Option::None
    }
}

/// What the query answers for a sibling sequence: the first sibling whose
/// subtree yields a match, in document order.
pub open spec fn query_spans(ss: Seq<SpanModel>, pos: int) -> Option<SpanModel>
    decreases ss, 0int,
{
    if ss.len() == 0 {
        Option::None
    } else {
        match query_span(ss[0], pos) {
            Option::Some(m) => Option::Some(m),
            Option::None => query_spans(ss.subrange(1, ss.len() as int), pos),
        }
    }
}

/// Whatever the query returns is interesting and contains the position.
pub proof fn lemma_query_props(ss: Seq<SpanModel>, pos: int)
    ensures
        query_spans(ss, pos) matches Option::Some(m) ==> interesting(m.kind) && m.start <= pos
            <= m.end,
    decreases ss, 2int,
{
    if ss.len() > 0 {
        lemma_query_span_props(ss[0], pos);
        lemma_query_props(ss.subrange(1, ss.len() as int), pos);
    }
}

/// Whatever the query returns for one subtree is interesting and contains
/// the position.
pub proof fn lemma_query_span_props(s: SpanModel, pos: int)
    ensures
        query_span(s, pos) matches Option::Some(m) ==> interesting(m.kind) && m.start <= pos
            <= m.end,
    decreases s, 3int,
{
    if s.start <= pos <= s.end {
        lemma_query_props(s.children, pos);
    }
}

/// A position past every top-level range finds nothing.
pub proof fn lemma_query_none_past_all(ss: Seq<SpanModel>, pos: int)
    requires
        forall|i: int| #![trigger ss[i]] 0 <= i < ss.len() ==> pos > ss[i].end,
    ensures
        query_spans(ss, pos) is None,
    decreases ss.len(),
{
    if ss.len() > 0 {
        assert(pos > ss[0].end);
        assert(query_span(ss[0], pos) is None);
        let tail = ss.subrange(1, ss.len() as int);
        assert(forall|i: int| #![trigger tail[i]] 0 <= i < tail.len() ==> tail[i] == ss[i + 1]);
        lemma_query_none_past_all(tail, pos);
    }
}

/// Whether the subtree rooted at `s` holds an interesting span that
/// contains the position (both range endpoints included).
pub open spec fn tree_hit(s: SpanModel, pos: int) -> bool
    decreases s, 1int,
{
    (s.start <= pos <= s.end && interesting(s.kind)) || forest_hit(s.children, pos)
}

/// Whether the forest holds an interesting span that contains the position.
pub open spec fn forest_hit(ss: Seq<SpanModel>, pos: int) -> bool
    decreases ss, 0int,
{
    ss.len() > 0 && (tree_hit(ss[0], pos) || forest_hit(ss.subrange(1, ss.len() as int), pos))
}

/// Under the parser's contract, a position outside a span's range is
/// outside every span of its subtree.
proof fn lemma_no_hit_outside(s: SpanModel, pos: int, text_len: int)
    requires
        wf_span(s, text_len),
        !(s.start <= pos <= s.end),
    ensures
        !tree_hit(s, pos),
    decreases s, 1int,
{
    lemma_no_hit_outside_forest(s.children, pos, text_len, s.start, s.end);
}

/// Forest form of [`lemma_no_hit_outside`]: when the position lies outside
/// `[lo, hi]` and every root lies within it, nothing in the forest hits.
proof fn lemma_no_hit_outside_forest(
    ss: Seq<SpanModel>,
    pos: int,
    text_len: int,
    lo: int,
    hi: int,
)
    requires
        forall|i: int| #![trigger ss[i]] 0 <= i < ss.len() ==> wf_span(ss[i], text_len),
        forall|i: int|
            #![trigger ss[i]]
            0 <= i < ss.len() ==> lo <= ss[i].start && ss[i].end <= hi,
        !(lo <= pos <= hi),
    ensures
        !forest_hit(ss, pos),
    decreases ss, 0int,
{
    if ss.len() > 0 {
        lemma_no_hit_outside(ss[0], pos, text_len);
        let tail = ss.subrange(1, ss.len() as int);
        assert(forall|i: int| #![trigger tail[i]] 0 <= i < tail.len() ==> tail[i] == ss[i + 1]);
        lemma_no_hit_outside_forest(tail, pos, text_len, lo, hi);
    }
}

/// A subtree whose query comes back empty holds no interesting span
/// containing the position.
proof fn lemma_query_span_none_no_hit(s: SpanModel, pos: int, text_len: int)
    requires
        wf_span(s, text_len),
        query_span(s, pos) is None,
    ensures
        !tree_hit(s, pos),
    decreases s, 1int,
{
    if s.start <= pos <= s.end {
        assert forall|i: int|
            0 <= i < s.children.len() implies wf_span(#[trigger] s.children[i], text_len) by {}
        lemma_query_spans_none_no_hit(s.children, pos, text_len);
    } else {
        lemma_no_hit_outside(s, pos, text_len);
    }
}

/// A forest whose query comes back empty holds no interesting span
/// containing the position.
proof fn lemma_query_spans_none_no_hit(ss: Seq<SpanModel>, pos: int, text_len: int)
    requires
        forall|i: int| #![trigger ss[i]] 0 <= i < ss.len() ==> wf_span(ss[i], text_len),
        query_spans(ss, pos) is None,
    ensures
        !forest_hit(ss, pos),
    decreases ss, 0int,
{
    if ss.len() > 0 {
        lemma_query_span_none_no_hit(ss[0], pos, text_len);
        let tail = ss.subrange(1, ss.len() as int);
        assert(forall|i: int| #![trigger tail[i]] 0 <= i < tail.len() ==> tail[i] == ss[i + 1]);
        lemma_query_spans_none_no_hit(tail, pos, text_len);
    }
}

/// A subtree whose query finds a span holds an interesting span containing
/// the position.
proof fn lemma_query_span_some_hit(s: SpanModel, pos: int)
    requires
        query_span(s, pos) is Some,
    ensures
        tree_hit(s, pos),
    decreases s, 1int,
{
    if s.start <= pos <= s.end {
        if query_spans(s.children, pos) is Some {
            lemma_query_spans_some_hit(s.children, pos);
        }
    }
}

/// A forest whose query finds a span holds an interesting span containing
/// the position.
proof fn lemma_query_spans_some_hit(ss: Seq<SpanModel>, pos: int)
    requires
        query_spans(ss, pos) is Some,
    ensures
        forest_hit(ss, pos),
    decreases ss, 0int,
{
    if ss.len() > 0 {
        if query_span(ss[0], pos) is Some {
            lemma_query_span_some_hit(ss[0], pos);
        } else {
            lemma_query_spans_some_hit(ss.subrange(1, ss.len() as int), pos);
        }
    }
}

/// Completeness of the query: over a well-formed forest it finds a span
/// exactly when some interesting span contains the position.
pub proof fn lemma_query_complete(ss: Seq<SpanModel>, pos: int, text_len: int)
    requires
        wf_spans(ss, text_len),
    ensures
        query_spans(ss, pos) is Some <==> forest_hit(ss, pos),
{
    assert forall|i: int| 0 <= i < ss.len() implies wf_span(#[trigger] ss[i], text_len) by {}
    if query_spans(ss, pos) is Some {
        lemma_query_spans_some_hit(ss, pos);
    } else {
        lemma_query_spans_none_no_hit(ss, pos, text_len);
    }
}

/// The innermost span wins, subtree form: see [`lemma_query_innermost`].
proof fn lemma_query_span_innermost(s: SpanModel, pos: int, text_len: int)
    requires
        wf_span(s, text_len),
    ensures
        query_span(s, pos) matches Option::Some(m) ==> !forest_hit(m.children, pos),
    decreases s, 1int,
{
    if s.start <= pos <= s.end {
        assert forall|i: int|
            0 <= i < s.children.len() implies wf_span(#[trigger] s.children[i], text_len) by {}
        match query_spans(s.children, pos) {
            Option::Some(m) => {
                lemma_query_spans_innermost(s.children, pos, text_len);
            },
            Option::None => {
                if interesting(s.kind) {
                    lemma_query_spans_none_no_hit(s.children, pos, text_len);
                }
            },
        }
    }
}

/// The innermost span wins, forest form: see [`lemma_query_innermost`].
proof fn lemma_query_spans_innermost(ss: Seq<SpanModel>, pos: int, text_len: int)
    requires
        forall|i: int| #![trigger ss[i]] 0 <= i < ss.len() ==> wf_span(ss[i], text_len),
    ensures
        query_spans(ss, pos) matches Option::Some(m) ==> !forest_hit(m.children, pos),
    decreases ss, 0int,
{
    if ss.len() > 0 {
        lemma_query_span_innermost(ss[0], pos, text_len);
        let tail = ss.subrange(1, ss.len() as int);
        assert(forall|i: int| #![trigger tail[i]] 0 <= i < tail.len() ==> tail[i] == ss[i + 1]);
        lemma_query_spans_innermost(tail, pos, text_len);
    }
}

/// Children are preferred over their containers: over a well-formed span
/// forest, the span the query returns has no interesting span below it
/// that also contains the position — the innermost interesting match wins.
pub proof fn lemma_query_innermost(ss: Seq<SpanModel>, pos: int, text_len: int)
    requires
        wf_spans(ss, text_len),
    ensures
        query_spans(ss, pos) matches Option::Some(m) ==> !forest_hit(m.children, pos),
{
    assert forall|i: int| 0 <= i < ss.len() implies wf_span(#[trigger] ss[i], text_len) by {}
    lemma_query_spans_innermost(ss, pos, text_len);
}

/// Nodes that represent visible formatting (not container / structural).
fn is_interesting(kind: &NodeKind) -> (r: bool)
    ensures
        r == interesting(kind.deep_view()),
{
    !matches!(
        kind,
        NodeKind::Text
            | NodeKind::Other
            | NodeKind::Paragraph
            | NodeKind::List
            | NodeKind::Item
            | NodeKind::HtmlInline
    )
}

/// The innermost interesting span of one subtree that contains `pos`.
fn find_in_span<'a>(span: &'a MarkdownSpan, pos: usize) -> (r: Option<&'a MarkdownSpan>)
    ensures
        query_span(span.deep_view(), pos as int) == (match r {
            Option::Some(s) => Option::Some(s.deep_view()),
            Option::None => Option::<SpanModel>::None,
        }),
    decreases *span,
{
    let ghost sm = span.deep_view();
    if pos >= span.source_range.0 && pos <= span.source_range.1 {
        let ghost cm = span_models(span.children@);
        proof {
            lemma_span_models_len(span.children@);
            assert(cm.subrange(0, cm.len() as int) =~= cm);
        }
        let n = span.children.len();
        let mut i: usize = 0;
        while i < n
            invariant
                n == span.children@.len(),
                cm == span_models(span.children@),
                cm.len() == n,
                sm == span.deep_view(),
                sm.children == cm,
                sm.start <= pos as int <= sm.end,
                i <= n,
                query_spans(cm, pos as int) == query_spans(
                    cm.subrange(i as int, n as int),
                    pos as int,
                ),
            decreases n - i,
        {
            let found = find_in_span(&span.children[i], pos);
            proof {
                lemma_span_models_index(span.children@, i as int);
                let suf = cm.subrange(i as int, n as int);
                assert(suf[0] == cm[i as int]);
                assert(suf.subrange(1, suf.len() as int) =~= cm.subrange(i + 1, n as int));
            }
            if let Option::Some(inner) = found {
                proof {
                    assert(query_spans(cm, pos as int) == Option::Some(inner.deep_view()));
                    assert(sm.children == cm);
                }
                return Option::Some(inner);
            }
            i = i + 1;
        }
        proof {
            assert(cm.subrange(n as int, n as int) =~= Seq::<SpanModel>::empty());
        }
        if is_interesting(&span.kind) {
            Option::Some(span)
        } else {
            Option::None
        }
    } else {
        Option::None
    }
}

/// Return the innermost "interesting" span that contains `pos` (both range
/// endpoints included), preferring children over their containers and
/// earlier siblings over later ones.
///
/// Container nodes (`Paragraph`, `List`, `Item`, `Text`, `HtmlInline`,
/// `Other`) are skipped: only formatting spans like `Strong`, `Emph`,
/// `Code` or `Heading` are returned.
pub fn find_containing_span<'a>(spans: &'a [MarkdownSpan], pos: usize) -> (r: Option<
    &'a MarkdownSpan,
>)
    ensures
        query_spans(span_models(spans@), pos as int) == (match r {
            Option::Some(s) => Option::Some(s.deep_view()),
            Option::None => Option::<SpanModel>::None,
        }),
        r matches Option::Some(s) ==> interesting(s.deep_view().kind)
            && s.deep_view().start <= pos as int <= s.deep_view().end,
{
    let ghost cm = span_models(spans@);
    proof {
        lemma_span_models_len(spans@);
        assert(cm.subrange(0, cm.len() as int) =~= cm);
        lemma_query_props(cm, pos as int);
    }
    let n = spans.len();
    let mut i: usize = 0;
    while i < n
        invariant
            n == spans@.len(),
            cm == span_models(spans@),
            cm.len() == n,
            i <= n,
            query_spans(cm, pos as int) == query_spans(
                cm.subrange(i as int, n as int),
                pos as int,
            ),
            pos <= usize::MAX,
        decreases n - i,
    {
        let found = find_in_span(&spans[i], pos);
        proof {
            lemma_span_models_index(spans@, i as int);
            let suf = cm.subrange(i as int, n as int);
            assert(suf[0] == cm[i as int]);
            assert(suf.subrange(1, suf.len() as int) =~= cm.subrange(i + 1, n as int));
        }
        if let Option::Some(inner) = found {
            proof {
                lemma_query_props(cm, pos as int);
            }
            return Option::Some(inner);
        }
        i = i + 1;
    }
    proof {
        assert(cm.subrange(n as int, n as int) =~= Seq::<SpanModel>::empty());
    }
    Option::None
}

} // verus!
