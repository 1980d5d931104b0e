//! The attribute-run compiler: turns a span tree, the source text and an
//! optional caret position into a flat, gapless, non-overlapping sequence of
//! attribute runs covering the whole text.
//!
//! Byte offsets throughout refer to the UTF-8 encoding of the source string,
//! modelled by `spec_bytes`.

use vstd::prelude::*;

verus! {

use vstd::string::StringSliceAdditionalSpecFns;
use crate::markdown::attributes::{
    AttrModel,
    AttributeSet,
    blockquote_attrs,
    code_block_attrs,
    emph_attrs,
    heading_attrs,
    hidden_attrs,
    inline_code_attrs,
    link_attrs,
    list_marker_attrs,
    strikethrough_attrs,
    strong_attrs,
    visible_attrs,
};
use crate::markdown::parser::{
    KindModel,
    MarkdownSpan,
    NodeKind,
    SpanModel,
    lemma_span_models_index,
    lemma_span_models_len,
    span_models,
};

/// A maximal contiguous byte range mapped to one attribute set.
#[derive(Debug)]
pub struct AttributeRun {
    /// Byte offsets `[start, end)` into the source string.
    pub range: (usize, usize),
    pub attrs: AttributeSet,
}

/// Mathematical model of an [`AttributeRun`].
pub struct RunModel {
    pub start: int,
    pub end: int,
    pub attrs: Seq<AttrModel>,
}

impl DeepView for AttributeRun {
    type V = RunModel;

    open spec fn deep_view(&self) -> RunModel {
        RunModel { start: self.range.0 as int, end: self.range.1 as int, attrs: self.attrs@ }
    }
}

/// The models of a run sequence, in order.
pub open spec fn run_models(rs: Seq<AttributeRun>) -> Seq<RunModel> {
    Seq::new(rs.len(), |i: int| rs[i].deep_view())
}

/// A single modelled run.
pub open spec fn run_of(start: int, end: int, attrs: Seq<AttrModel>) -> RunModel {
    RunModel { start, end, attrs }
}

/// Whether the caret position hits `[start, end]`, both endpoints included.
pub open spec fn cursor_hits(cursor: Option<usize>, start: int, end: int) -> bool {
    match cursor {
        Option::Some(p) => start <= p as int && p as int <= end,
        Option::None => false,
    }
}

/// The attributes of a syntax marker: visible when the caret hits the
/// enclosing range, hidden otherwise.
pub open spec fn syn_model(cursor: Option<usize>, start: int, end: int) -> Seq<AttrModel> {
    if cursor_hits(cursor, start, end) {
        visible_attrs()
    } else {
        hidden_attrs()
    }
}

/// Index of the first newline byte in `b[from..to)`, if any.
pub open spec fn first_nl(b: Seq<u8>, from: int, to: int) -> Option<int>
    decreases to - from,
{
    if from >= to {
        Option::None
    } else if b[from] == 10 {
        Option::Some(from)
    } else {
        first_nl(b, from + 1, to)
    }
}

/// Index of the last newline byte in `b[from..to)`, if any.
pub open spec fn last_nl(b: Seq<u8>, from: int, to: int) -> Option<int>
    decreases to - from,
{
    if to <= from {
        Option::None
    } else if b[to - 1] == 10 {
        Option::Some(to - 1)
    } else {
        last_nl(b, from, to - 1)
    }
}

/// The runs a marker-delimited inline span emits: a marker run of `m` bytes
/// at each edge (styled by the visibility rule) and, when an interior
/// remains, one interior run.
pub open spec fn marker_runs(
    start: int,
    end: int,
    m: int,
    syn: Seq<AttrModel>,
    interior: Seq<AttrModel>,
) -> Seq<RunModel> {
    seq![run_of(start, start + m, syn)] + (if start + m < end - m {
        seq![run_of(start + m, end - m, interior)]
    } else {
        Seq::<RunModel>::empty()
    }) + seq![run_of(end - m, end, syn)]
}

/// The runs a heading emits. An ATX heading (first byte `#`) hides its
/// `#`-prefix as a syntax marker; a setext heading keeps everything before
/// its last newline as content and treats the underline as the marker.
pub open spec fn heading_runs(
    b: Seq<u8>,
    start: int,
    end: int,
    level: int,
    syn: Seq<AttrModel>,
) -> Seq<RunModel> {
    if b[start] == 35 {
        let prefix_len = if level + 1 < end - start {
            level + 1
        } else {
            end - start
        };
        seq![run_of(start, start + prefix_len, syn)] + (if start + prefix_len < end {
            seq![run_of(start + prefix_len, end, heading_attrs(level))]
        } else {
            Seq::<RunModel>::empty()
        })
    } else {
        match last_nl(b, start, end) {
            Option::Some(nl) => (if start < nl {
                seq![run_of(start, nl, heading_attrs(level))]
            } else {
                Seq::<RunModel>::empty()
            }) + (if nl < end {
                seq![run_of(nl, end, syn)]
            } else {
                Seq::<RunModel>::empty()
            }),
            Option::None => seq![run_of(start, end, heading_attrs(level))],
        }
    }
}

/// Where a code block's opening fence ends: one past its first newline, or
/// the span end when the span holds no newline.
pub open spec fn fence_open_end(b: Seq<u8>, start: int, end: int) -> int {
    match first_nl(b, start, end) {
        Option::Some(f) => f + 1,
        Option::None => end,
    }
}

/// Where a code block's closing fence line starts: one past the last newline
/// that precedes the final byte, or the span end when there is none.
pub open spec fn fence_close_start(b: Seq<u8>, start: int, end: int) -> int {
    match last_nl(b, start, end - 1) {
        Option::Some(j) => j + 1,
        Option::None => end,
    }
}

/// The runs a fenced code block emits: each fence line is a syntax marker
/// revealed only when the caret hits that fence itself; the content between
/// the fences is monospaced.
pub open spec fn code_block_runs(
    b: Seq<u8>,
    start: int,
    end: int,
    cursor: Option<usize>,
) -> Seq<RunModel> {
    let open_end = fence_open_end(b, start, end);
    let close_start = fence_close_start(b, start, end);
    seq![run_of(start, open_end, syn_model(cursor, start, open_end))] + (if open_end
        < close_start {
        seq![run_of(open_end, close_start, code_block_attrs())]
    } else {
        Seq::<RunModel>::empty()
    }) + (if close_start < end {
        seq![run_of(close_start, end, syn_model(cursor, close_start, end))]
    } else {
        Seq::<RunModel>::empty()
    })
}

/// The runs one span emits, depth-first. Degenerate spans (empty range, or
/// starting past the text) emit nothing and are not recursed into; the end
/// offset is clamped to the text length.
pub open spec fn emit_span(b: Seq<u8>, s: SpanModel, cursor: Option<usize>) -> Seq<RunModel>
    decreases s, 1int,
{
    if s.start >= s.end || s.start >= b.len() {
        Seq::<RunModel>::empty()
    } else {
        let start = s.start;
        let end = if s.end > b.len() {
            b.len() as int
        } else {
            s.end
        };
        let syn = syn_model(cursor, s.start, s.end);
        match s.kind {
            KindModel::Strong => {
                let m = if end - start < 2 {
                    end - start
                } else {
                    2
                };
                marker_runs(start, end, m, syn, strong_attrs())
            },
            KindModel::Emph => marker_runs(start, end, 1, syn, emph_attrs()),
            KindModel::Code => marker_runs(start, end, 1, syn, inline_code_attrs()),
            KindModel::Strikethrough => {
                let m = if end - start < 2 {
                    end - start
                } else {
                    2
                };
                marker_runs(start, end, m, syn, strikethrough_attrs())
            },
            KindModel::Heading { level } => heading_runs(b, start, end, level, syn),
            KindModel::Link { url } => seq![run_of(start, end, link_attrs())],
            KindModel::CodeBlock { language, code } => code_block_runs(b, start, end, cursor),
            KindModel::BlockQuote => seq![run_of(start, end, blockquote_attrs())],
            KindModel::List => emit_spans(b, s.children, cursor),
            KindModel::Item => {
                let first_child_start = if s.children.len() > 0 {
                    s.children[0].start
                } else {
                    start + 2
                };
                let marker_end = if first_child_start < end {
                    first_child_start
                } else {
                    end
                };
                (if start < marker_end {
                    seq![run_of(start, marker_end, list_marker_attrs())]
                } else {
                    Seq::<RunModel>::empty()
                }) + emit_spans(b, s.children, cursor)
            },
            KindModel::Table => seq![run_of(start, end, code_block_attrs())],
            KindModel::Footnote => seq![run_of(start, end, link_attrs())],
            _ => emit_spans(b, s.children, cursor),
        }
    }
}

/// The runs a sequence of sibling spans emits, in order.
pub open spec fn emit_spans(b: Seq<u8>, ss: Seq<SpanModel>, cursor: Option<usize>) -> Seq<
    RunModel,
>
    decreases ss, 0int,
{
    if ss.len() == 0 {
        Seq::<RunModel>::empty()
    } else {
        emit_span(b, ss[0], cursor) + emit_spans(b, ss.subrange(1, ss.len() as int), cursor)
    }
}

/// Insert `r` after every element whose start does not exceed `r`'s:
/// the insertion step of a stable sort by start offset.
pub open spec fn insert_by_start(s: Seq<RunModel>, r: RunModel) -> Seq<RunModel>
    decreases s.len(),
{
    if s.len() == 0 {
        seq![r]
    } else if s.last().start <= r.start {
        s.push(r)
    } else {
        insert_by_start(s.drop_last(), r).push(s.last())
    }
}

/// Stable sort by start offset.
pub open spec fn sort_by_start(s: Seq<RunModel>) -> Seq<RunModel>
    decreases s.len(),
{
    if s.len() == 0 {
        Seq::<RunModel>::empty()
    } else {
        insert_by_start(sort_by_start(s.drop_last()), s.last())
    }
}

/// A run of unstyled text.
pub open spec fn plain_run(start: int, end: int) -> RunModel {
    RunModel { start, end, attrs: Seq::<AttrModel>::empty() }
}

/// The gap-filling pass over a sorted run sequence: a plain run is placed
/// into every uncovered interval before, between and after the given runs,
/// so the result reaches from `pos` to `len`.
pub open spec fn fill_from(rs: Seq<RunModel>, pos: int, len: int) -> Seq<RunModel>
    decreases rs.len(),
{
    if rs.len() == 0 {
        if pos < len {
            seq![plain_run(pos, len)]
        } else {
            Seq::<RunModel>::empty()
        }
    } else {
        let head = rs[0];
        let new_pos = if head.end > pos {
            head.end
        } else {
            pos
        };
        (if head.start > pos {
            seq![plain_run(pos, head.start)]
        } else {
            Seq::<RunModel>::empty()
        }) + seq![head] + fill_from(rs.subrange(1, rs.len() as int), new_pos, len)
    }
}

/// The complete compiler: emit every span's runs, sort them by start offset,
/// and fill the gaps with plain runs.
pub open spec fn compiled_runs(b: Seq<u8>, ss: Seq<SpanModel>, cursor: Option<usize>) -> Seq<
    RunModel,
> {
    fill_from(sort_by_start(emit_spans(b, ss, cursor)), 0, b.len() as int)
}

/// A run sequence whose members lie between `lo` and `hi`, are nonempty,
/// and never overlap: each run ends before the next begins, and the first
/// starts no earlier than `lo`.
pub open spec fn is_chain(rs: Seq<RunModel>, lo: int, hi: int) -> bool {
    &&& forall|i: int|
        #![trigger rs[i]]
        0 <= i < rs.len() ==> rs[i].start < rs[i].end && rs[i].end <= hi
    &&& forall|i: int| #![trigger rs[i]] 0 <= i && i + 1 < rs.len() ==> rs[i].end <= rs[i + 1].start
    &&& rs.len() > 0 ==> lo <= rs[0].start
}

/// A run sequence that partitions `[pos, len)` exactly: nonempty runs, each
/// beginning where the previous one ends, the first at `pos` and the last
/// reaching `len`.
pub open spec fn is_partition_from(rs: Seq<RunModel>, pos: int, len: int) -> bool {
    &&& forall|i: int| #![trigger rs[i]] 0 <= i < rs.len() ==> rs[i].start < rs[i].end
    &&& forall|i: int| #![trigger rs[i]] 0 <= i && i + 1 < rs.len() ==> rs[i].end == rs[i + 1].start
    &&& if pos >= len {
        rs.len() == 0
    } else {
        rs.len() > 0 && rs[0].start == pos && rs.last().end == len
    }
}

/// A run sequence that partitions `[0, len)` exactly.
pub open spec fn is_partition(rs: Seq<RunModel>, len: int) -> bool {
    is_partition_from(rs, 0, len)
}

/// The per-kind geometry a span must respect so that its own marker runs do
/// not overlap: marker-delimited kinds need room for both markers, and a
/// heading's level is at least zero.
pub open spec fn kind_fits(s: SpanModel) -> bool {
    match s.kind {
        KindModel::Strong => s.start == s.end || s.end - s.start >= 4,
        KindModel::Strikethrough => s.start == s.end || s.end - s.start >= 4,
        KindModel::Emph => s.start == s.end || s.end - s.start >= 2,
        KindModel::Code => s.start == s.end || s.end - s.start >= 2,
        KindModel::Heading { level } => level >= 0,
        _ => true,
    }
}

/// A well-formed span: its range lies within the text, its geometry fits its
/// kind, its children are well-formed, nested inside it, ordered and
/// non-overlapping — the parser collaborator's contract.
pub open spec fn wf_span(s: SpanModel, text_len: int) -> bool
    decreases s, 1int,
{
    &&& 0 <= s.start <= s.end <= text_len
    &&& kind_fits(s)
    &&& wf_span_children(s, text_len)
}

/// The child obligations of [`wf_span`].
pub open spec fn wf_span_children(s: SpanModel, text_len: int) -> bool
    decreases s, 0int,
{
    &&& forall|i: int|
        #![trigger s.children[i]]
        0 <= i < s.children.len() ==> wf_span(s.children[i], text_len)
    &&& forall|i: int|
        #![trigger s.children[i]]
        0 <= i < s.children.len() ==> s.start <= s.children[i].start && s.children[i].end
            <= s.end
    &&& forall|i: int|
        #![trigger s.children[i]]
        0 <= i && i + 1 < s.children.len() ==> s.children[i].end <= s.children[i + 1].start
}

/// A well-formed span forest: well-formed spans, ordered and
/// non-overlapping.
pub open spec fn wf_spans(ss: Seq<SpanModel>, text_len: int) -> bool {
    &&& forall|i: int| #![trigger ss[i]] 0 <= i < ss.len() ==> wf_span(ss[i], text_len)
    &&& forall|i: int| #![trigger ss[i]] 0 <= i && i + 1 < ss.len() ==> ss[i].end <= ss[i + 1].start
}

/// What [`first_nl`] returns: the first newline of the range, when any.
proof fn lemma_first_nl(b: Seq<u8>, from: int, to: int)
    requires
        from <= to,
    ensures
        match first_nl(b, from, to) {
            Option::Some(f) => from <= f < to && b[f] == 10 && (forall|k: int|
                from <= k < f ==> b[k] != 10),
            Option::None => forall|k: int| from <= k < to ==> b[k] != 10,
        },
    decreases to - from,
{
    if from < to && b[from] != 10 {
        lemma_first_nl(b, from + 1, to);
    }
}

/// What [`last_nl`] returns: the last newline of the range, when any.
proof fn lemma_last_nl(b: Seq<u8>, from: int, to: int)
    requires
        from <= to,
    ensures
        match last_nl(b, from, to) {
            Option::Some(j) => from <= j < to && b[j] == 10 && (forall|k: int|
                j < k < to ==> b[k] != 10),
            Option::None => forall|k: int| from <= k < to ==> b[k] != 10,
        },
    decreases to - from,
{
    if from < to && b[to - 1] != 10 {
        lemma_last_nl(b, from, to - 1);
    }
}

/// A code block's opening fence ends no later than its closing fence starts,
/// and both cuts stay within the span.
proof fn lemma_fence_order(b: Seq<u8>, start: int, end: int)
    requires
        start < end,
    ensures
        start < fence_open_end(b, start, end) <= end,
        fence_open_end(b, start, end) <= fence_close_start(b, start, end) <= end,
{
    lemma_first_nl(b, start, end);
    lemma_last_nl(b, start, end - 1);
    match first_nl(b, start, end) {
        Option::Some(f) => {
            match last_nl(b, start, end - 1) {
                Option::Some(j) => {
                    assert(b[j] == 10);
                    assert(j >= f);
                },
                Option::None => {
                    assert(f == end - 1);
                },
            }
        },
        Option::None => {
            match last_nl(b, start, end - 1) {
                Option::Some(j) => {
                    assert(b[j] == 10);
                    assert(false);
                },
                Option::None => {},
            }
        },
    }
}

/// Two chains that meet at `mid` concatenate into a chain.
proof fn lemma_chain_concat(a: Seq<RunModel>, c: Seq<RunModel>, lo: int, mid: int, hi: int)
    requires
        is_chain(a, lo, mid),
        is_chain(c, mid, hi),
        lo <= mid <= hi,
    ensures
        is_chain(a + c, lo, hi),
{
    let t = a + c;
    assert forall|i: int| 0 <= i < t.len() implies #[trigger] t[i].start < t[i].end && t[i].end
        <= hi by {
        if i < a.len() {
            assert(t[i] == a[i]);
        } else {
            assert(t[i] == c[i - a.len()]);
        }
    }
    assert forall|i: int| 0 <= i && i + 1 < t.len() implies #[trigger] t[i].end <= t[i + 1].start by {
        if i + 1 < a.len() {
            assert(t[i] == a[i] && t[i + 1] == a[i + 1]);
        } else if i + 1 == a.len() {
            assert(t[i] == a[i] && t[i + 1] == c[0]);
            assert(a[i].end <= mid);
            assert(mid <= c[0].start);
        } else {
            assert(t[i] == c[i - a.len()] && t[i + 1] == c[i + 1 - a.len()]);
        }
    }
    if t.len() > 0 {
        if a.len() > 0 {
            assert(t[0] == a[0]);
        } else {
            assert(t[0] == c[0]);
        }
    }
}

/// A chain tolerates a smaller lower bound and a larger upper bound.
proof fn lemma_chain_widen(rs: Seq<RunModel>, lo: int, hi: int, lo2: int, hi2: int)
    requires
        is_chain(rs, lo, hi),
        lo2 <= lo,
        hi <= hi2,
    ensures
        is_chain(rs, lo2, hi2),
{
}

/// Under the parser's contract, the runs one span emits form a chain inside
/// the span's own range: nonempty, ordered, non-overlapping.
#[verifier::rlimit(100)]
proof fn lemma_emit_span_chain(b: Seq<u8>, s: SpanModel, cursor: Option<usize>)
    requires
        wf_span(s, b.len() as int),
    ensures
        is_chain(emit_span(b, s, cursor), s.start, s.end),
    decreases s, 1int,
{
    if s.start >= s.end || s.start >= b.len() {
    } else {
        let start = s.start;
        let end = s.end;
        let syn = syn_model(cursor, s.start, s.end);
        match s.kind {
            KindModel::Strong => {
                assert(end - start >= 4);
            },
            KindModel::Strikethrough => {
                assert(end - start >= 4);
            },
            KindModel::Emph => {
                assert(end - start >= 2);
            },
            KindModel::Code => {
                assert(end - start >= 2);
            },
            KindModel::Heading { level } => {
                if b[start] == 35 {
                } else {
                    lemma_last_nl(b, start, end);
                }
            },
            KindModel::CodeBlock { language, code } => {
                lemma_fence_order(b, start, end);
            },
            KindModel::List => {
                lemma_emit_spans_chain(b, s.children, cursor, start, end);
            },
            KindModel::Item => {
                let first_child_start = if s.children.len() > 0 {
                    s.children[0].start
                } else {
                    start + 2
                };
                let marker_end = if first_child_start < end {
                    first_child_start
                } else {
                    end
                };
                if s.children.len() > 0 {
                    assert(wf_span(s.children[0], b.len() as int));
                    assert(marker_end <= s.children[0].start);
                }
                lemma_emit_spans_chain(b, s.children, cursor, marker_end, end);
                if start < marker_end {
                    let head = seq![run_of(start, marker_end, list_marker_attrs())];
                    assert(is_chain(head, start, marker_end));
                    lemma_chain_concat(
                        head,
                        emit_spans(b, s.children, cursor),
                        start,
                        marker_end,
                        end,
                    );
                } else {
                    let head = Seq::<RunModel>::empty();
                    assert(head + emit_spans(b, s.children, cursor) =~= emit_spans(
                        b,
                        s.children,
                        cursor,
                    ));
                    lemma_chain_widen(
                        emit_spans(b, s.children, cursor),
                        marker_end,
                        end,
                        start,
                        end,
                    );
                }
            },
            KindModel::Link { url } => {
            },
            KindModel::BlockQuote => {
            },
            KindModel::Table => {
            },
            KindModel::Footnote => {
            },
            _ => {
                lemma_emit_spans_chain(b, s.children, cursor, start, end);
            },
        }
    }
}

/// Under the parser's contract, the runs a sibling sequence emits form a
/// chain between `lo` and `hi`.
#[verifier::rlimit(60)]
proof fn lemma_emit_spans_chain(
    b: Seq<u8>,
    ss: Seq<SpanModel>,
    cursor: Option<usize>,
    lo: int,
    hi: int,
)
    requires
        forall|i: int|
            #![trigger ss[i]]
            0 <= i < ss.len() ==> wf_span(ss[i], b.len() as int),
        forall|i: int| #![trigger ss[i]] 0 <= i < ss.len() ==> ss[i].end <= hi,
        forall|i: int| #![trigger ss[i]] 0 <= i && i + 1 < ss.len() ==> ss[i].end <= ss[i + 1].start,
        ss.len() > 0 ==> lo <= ss[0].start,
        lo <= hi,
    ensures
        is_chain(emit_spans(b, ss, cursor), lo, hi),
    decreases ss, 0int,
{
    if ss.len() == 0 {
    } else {
        let head = ss[0];
        let tail = ss.subrange(1, ss.len() as int);
        lemma_emit_span_chain(b, head, cursor);
        lemma_chain_widen(emit_span(b, head, cursor), head.start, head.end, lo, head.end);
        assert(forall|i: int|
            #![trigger tail[i]]
            0 <= i < tail.len() ==> tail[i] == ss[i + 1]);
        lemma_emit_spans_chain(b, tail, cursor, head.end, hi);
        lemma_chain_concat(
            emit_span(b, head, cursor),
            emit_spans(b, tail, cursor),
            lo,
            head.end,
            hi,
        );
    }
}

/// Runs in ascending order of start offset.
pub open spec fn sorted_by_start(rs: Seq<RunModel>) -> bool {
    forall|i: int| #![trigger rs[i]] 0 <= i && i + 1 < rs.len() ==> rs[i].start <= rs[i + 1].start
}

/// Sorting an already sorted sequence leaves it unchanged.
proof fn lemma_sort_noop(rs: Seq<RunModel>)
    requires
        sorted_by_start(rs),
    ensures
        sort_by_start(rs) == rs,
    decreases rs.len(),
{
    if rs.len() == 0 {
        assert(sort_by_start(rs) =~= rs);
    } else {
        let front = rs.drop_last();
        assert(forall|i: int|
            #![trigger front[i]]
            0 <= i < front.len() ==> front[i] == rs[i]);
        lemma_sort_noop(front);
        if front.len() == 0 {
            assert(sort_by_start(rs) =~= rs);
        } else {
            assert(front.last() == rs[rs.len() - 2]);
            assert(front.last().start <= rs.last().start);
            assert(sort_by_start(rs) =~= rs);
        }
    }
}

/// Filling a chain yields an exact partition of `[pos, len)`.
proof fn lemma_fill_partition(rs: Seq<RunModel>, pos: int, len: int)
    requires
        0 <= pos <= len,
        is_chain(rs, pos, len),
    ensures
        is_partition_from(fill_from(rs, pos, len), pos, len),
    decreases rs.len(),
{
    if rs.len() == 0 {
    } else {
        let head = rs[0];
        let tail = rs.subrange(1, rs.len() as int);
        let new_pos = if head.end > pos {
            head.end
        } else {
            pos
        };
        assert(head.start >= pos);
        assert(head.start < head.end <= len);
        assert(new_pos == head.end);
        assert(forall|i: int|
            #![trigger tail[i]]
            0 <= i < tail.len() ==> tail[i] == rs[i + 1]);
        lemma_fill_partition(tail, head.end, len);
        let gap: Seq<RunModel> = if head.start > pos {
            seq![plain_run(pos, head.start)]
        } else {
            Seq::<RunModel>::empty()
        };
        let rest = fill_from(tail, head.end, len);
        let out = fill_from(rs, pos, len);
        assert(out =~= gap + seq![head] + rest);
        let lead = gap + seq![head];
        assert(lead.last() == head);
        assert forall|i: int| 0 <= i < out.len() implies #[trigger] out[i].start
            < out[i].end by {
            if i < lead.len() {
                assert(out[i] == lead[i]);
            } else {
                assert(out[i] == rest[i - lead.len()]);
            }
        }
        assert forall|i: int| 0 <= i && i + 1 < out.len() implies #[trigger] out[i].end == out[i
            + 1].start by {
            if i + 1 < lead.len() {
                assert(out[i] == lead[i] && out[i + 1] == lead[i + 1]);
            } else if i + 1 == lead.len() {
                assert(out[i] == lead[i]);
                assert(out[i] == head);
                if head.end < len {
                    assert(rest.len() > 0 && rest[0].start == head.end);
                    assert(out[i + 1] == rest[0]);
                } else {
                    assert(rest.len() == 0);
                    assert(i + 1 == out.len() - 0 - 1 + 1);
                }
            } else {
                assert(out[i] == rest[i - lead.len()] && out[i + 1] == rest[i + 1
                    - lead.len()]);
            }
        }
        if pos < len {
            assert(out[0] == lead[0]);
            if head.end >= len {
                assert(rest.len() == 0);
                assert(out.last() == head);
                assert(head.end == len);
            } else {
                assert(out.last() == rest.last());
            }
        }
    }
}

/// Whether some run of `rs` contains offset `x`.
pub open spec fn covered_by(rs: Seq<RunModel>, x: int) -> bool {
    exists|i: int| 0 <= i < rs.len() && (#[trigger] rs[i]).start <= x && x < rs[i].end
}

/// A covering run keeps covering after anything is put in front.
proof fn lemma_covered_concat(prefix: Seq<RunModel>, suffix: Seq<RunModel>, x: int)
    requires
        covered_by(suffix, x),
    ensures
        covered_by(prefix + suffix, x),
{
    let j = choose|j: int|
        0 <= j < suffix.len() && (#[trigger] suffix[j]).start <= x && x < suffix[j].end;
    assert((prefix + suffix)[prefix.len() + j] == suffix[j]);
}

/// The gap-filling pass leaves no gap, whatever runs it is given: every
/// offset of `[pos, len)` lies inside some run of the result.
proof fn lemma_fill_covers(rs: Seq<RunModel>, pos: int, len: int)
    ensures
        forall|x: int| pos <= x < len ==> #[trigger] covered_by(fill_from(rs, pos, len), x),
    decreases rs.len(),
{
    let out = fill_from(rs, pos, len);
    if rs.len() == 0 {
        assert forall|x: int| pos <= x < len implies #[trigger] covered_by(out, x) by {
            assert(out[0].start <= x < out[0].end);
        }
    } else {
        let head = rs[0];
        let tail = rs.subrange(1, rs.len() as int);
        let new_pos = if head.end > pos {
            head.end
        } else {
            pos
        };
        let gap: Seq<RunModel> = if head.start > pos {
            seq![plain_run(pos, head.start)]
        } else {
            Seq::<RunModel>::empty()
        };
        let rest = fill_from(tail, new_pos, len);
        let lead = gap + seq![head];
        assert(out =~= lead + rest);
        lemma_fill_covers(tail, new_pos, len);
        assert forall|x: int| pos <= x < len implies #[trigger] covered_by(out, x) by {
            if x < head.start {
                assert(out[0] == gap[0]);
                assert(out[0].start <= x < out[0].end);
            } else if x < head.end {
                assert(out[gap.len() as int] == head);
                assert(out[gap.len() as int].start <= x < out[gap.len() as int].end);
            } else {
                assert(new_pos <= x < len);
                assert(covered_by(rest, x));
                lemma_covered_concat(lead, rest, x);
            }
        }
    }
}

/// Total coverage holds of every input, parser contract or not: the
/// compiler's output leaves no offset of `[0, text_len)` uncovered.
pub proof fn lemma_compiled_covers(b: Seq<u8>, ss: Seq<SpanModel>, cursor: Option<usize>)
    ensures
        forall|x: int|
            0 <= x < b.len() ==> #[trigger] covered_by(compiled_runs(b, ss, cursor), x),
{
    lemma_fill_covers(sort_by_start(emit_spans(b, ss, cursor)), 0, b.len() as int);
}

/// A chain is sorted by start offset.
proof fn lemma_chain_sorted(rs: Seq<RunModel>, lo: int, hi: int)
    requires
        is_chain(rs, lo, hi),
    ensures
        sorted_by_start(rs),
{
    assert forall|i: int| 0 <= i && i + 1 < rs.len() implies #[trigger] rs[i].start <= rs[i
        + 1].start by {
        assert(rs[i].start < rs[i].end);
        assert(rs[i].end <= rs[i + 1].start);
    }
}

/// Total coverage: over a well-formed span forest the compiler's output
/// partitions `[0, text_len)` exactly — sorted, no gaps, no overlaps.
pub proof fn lemma_compiled_partition(b: Seq<u8>, ss: Seq<SpanModel>, cursor: Option<usize>)
    requires
        wf_spans(ss, b.len() as int),
    ensures
        is_partition(compiled_runs(b, ss, cursor), b.len() as int),
{
    let emitted = emit_spans(b, ss, cursor);
    if ss.len() > 0 {
        assert(wf_span(ss[0], b.len() as int));
    }
    lemma_emit_spans_chain(b, ss, cursor, 0, b.len() as int);
    lemma_chain_sorted(emitted, 0, b.len() as int);
    lemma_sort_noop(emitted);
    lemma_fill_partition(emitted, 0, b.len() as int);
}

/// Determinism: the compiled output is a function of the text, the span
/// forest and the caret position alone — identical inputs give identical
/// output.
pub proof fn lemma_compiled_deterministic(
    b: Seq<u8>,
    ss: Seq<SpanModel>,
    cursor: Option<usize>,
    r1: Seq<RunModel>,
    r2: Seq<RunModel>,
)
    requires
        r1 == compiled_runs(b, ss, cursor),
        r2 == compiled_runs(b, ss, cursor),
    ensures
        r1 == r2,
{
}

fn cursor_in_span(pos: Option<usize>, range: (usize, usize)) -> (r: bool)
    ensures
        r == cursor_hits(pos, range.0 as int, range.1 as int),
{
    match pos {
        Option::None => false,
        Option::Some(p) => p >= range.0 && p <= range.1,
    }
}

/// Pick the syntax-marker style for a marker belonging to `span_range`.
fn syntax_attrs(cursor_pos: Option<usize>, span_range: (usize, usize)) -> (r: AttributeSet)
    ensures
        r@ == syn_model(cursor_pos, span_range.0 as int, span_range.1 as int),
{
    if cursor_in_span(cursor_pos, span_range) {
        AttributeSet::syntax_visible()
    } else {
        AttributeSet::syntax_hidden()
    }
}

pub(crate) fn find_first_nl(text: &[u8], from: usize, to: usize) -> (r: Option<usize>)
    requires
        from <= to <= text@.len(),
    ensures
        first_nl(text@, from as int, to as int) == (match r {
            Option::Some(f) => Option::Some(f as int),
            Option::None => Option::<int>::None,
        }),
        r matches Option::Some(f) ==> from <= f && f < to,
{
    let mut i: usize = from;
    while i < to
        invariant
            from <= i <= to <= text@.len(),
            first_nl(text@, from as int, to as int) == first_nl(text@, i as int, to as int),
        decreases to - i,
    {
        if text[i] == 10 {
            return Option::Some(i);
        }
        i = i + 1;
    }
    Option::None
}

pub(crate) fn find_last_nl(text: &[u8], from: usize, to: usize) -> (r: Option<usize>)
    requires
        from <= to <= text@.len(),
    ensures
        last_nl(text@, from as int, to as int) == (match r {
            Option::Some(f) => Option::Some(f as int),
            Option::None => Option::<int>::None,
        }),
        r matches Option::Some(f) ==> from <= f && f < to,
{
    let mut i: usize = to;
    while i > from
        invariant
            from <= i <= to <= text@.len(),
            last_nl(text@, from as int, to as int) == last_nl(text@, from as int, i as int),
        decreases i - from,
    {
        if text[i - 1] == 10 {
            return Option::Some(i - 1);
        }
        i = i - 1;
    }
    Option::None
}

/// Append one run.
fn push_run(runs: &mut Vec<AttributeRun>, start: usize, end: usize, attrs: AttributeSet)
    ensures
        run_models(final(runs)@) == run_models(old(runs)@) + seq![
            run_of(start as int, end as int, attrs@),
        ],
{
    let ghost before = runs@;
    runs.push(AttributeRun { range: (start, end), attrs });
    proof {
        assert(run_models(runs@) =~= run_models(before) + seq![
            run_of(start as int, end as int, attrs@),
        ]);
    }
}

/// Append the marker and interior runs of a marker-delimited inline span.
fn push_marker_runs(
    runs: &mut Vec<AttributeRun>,
    start: usize,
    end: usize,
    m: usize,
    cursor_pos: Option<usize>,
    raw: (usize, usize),
    interior: AttributeSet,
)
    requires
        start < end,
        m <= end - start,
    ensures
        run_models(final(runs)@) == run_models(old(runs)@) + marker_runs(
            start as int,
            end as int,
            m as int,
            syn_model(cursor_pos, raw.0 as int, raw.1 as int),
            interior@,
        ),
{
    let ghost before = run_models(runs@);
    let syn_lead = syntax_attrs(cursor_pos, raw);
    push_run(runs, start, start + m, syn_lead);
    if start + m < end - m {
        push_run(runs, start + m, end - m, interior);
    }
    let syn_trail = syntax_attrs(cursor_pos, raw);
    push_run(runs, end - m, end, syn_trail);
    proof {
        assert(run_models(runs@) =~= before + marker_runs(
            start as int,
            end as int,
            m as int,
            syn_model(cursor_pos, raw.0 as int, raw.1 as int),
            interior@,
        ));
    }
}

/// Emit the runs of one span (and its subtree where the kind recurses) onto
/// `runs`, exactly as [`emit_span`] describes.
fn collect_runs(
    text: &[u8],
    span: &MarkdownSpan,
    cursor_pos: Option<usize>,
    runs: &mut Vec<AttributeRun>,
)
    ensures
        run_models(final(runs)@) == run_models(old(runs)@) + emit_span(
            text@,
            span.deep_view(),
            cursor_pos,
        ),
    decreases *span, 1int,
{
    let ghost b = text@;
    let ghost sm = span.deep_view();
    let ghost before = run_models(runs@);
    let (start, raw_end) = span.source_range;
    if start >= raw_end || start >= text.len() {
        proof {
            assert(run_models(runs@) =~= before + emit_span(b, sm, cursor_pos));
        }
        return ;
    }
    let end = if raw_end < text.len() {
        raw_end
    } else {
        text.len()
    };
    match &span.kind {
        NodeKind::Strong => {
            let m = if end - start < 2 {
                end - start
            } else {
                2
            };
            push_marker_runs(
                runs,
                start,
                end,
                m,
                cursor_pos,
                span.source_range,
                AttributeSet::for_strong(),
            );
            proof {
                assert(run_models(runs@) =~= before + emit_span(b, sm, cursor_pos));
            }
        },
        NodeKind::Emph => {
            push_marker_runs(
                runs,
                start,
                end,
                1,
                cursor_pos,
                span.source_range,
                AttributeSet::for_emph(),
            );
            proof {
                assert(run_models(runs@) =~= before + emit_span(b, sm, cursor_pos));
            }
        },
        NodeKind::Code => {
            push_marker_runs(
                runs,
                start,
                end,
                1,
                cursor_pos,
                span.source_range,
                AttributeSet::for_inline_code(),
            );
            proof {
                assert(run_models(runs@) =~= before + emit_span(b, sm, cursor_pos));
            }
        },
        NodeKind::Strikethrough => {
            let m = if end - start < 2 {
                end - start
            } else {
                2
            };
            push_marker_runs(
                runs,
                start,
                end,
                m,
                cursor_pos,
                span.source_range,
                AttributeSet::for_strikethrough(),
            );
            proof {
                assert(run_models(runs@) =~= before + emit_span(b, sm, cursor_pos));
            }
        },
        NodeKind::Heading { level } => {
            let lvl = *level;
            if text[start] == 35 {
                let lvl_len = lvl as usize + 1;
                let prefix_len = if lvl_len < end - start {
                    lvl_len
                } else {
                    end - start
                };
                let syn = syntax_attrs(cursor_pos, span.source_range);
                push_run(runs, start, start + prefix_len, syn);
                if start + prefix_len < end {
                    push_run(runs, start + prefix_len, end, AttributeSet::for_heading(lvl));
                }
            } else {
                match find_last_nl(text, start, end) {
                    Option::Some(nl) => {
                        if start < nl {
                            push_run(runs, start, nl, AttributeSet::for_heading(lvl));
                        }
                        if nl < end {
                            let syn = syntax_attrs(cursor_pos, span.source_range);
                            push_run(runs, nl, end, syn);
                        }
                    },
                    Option::None => {
                        push_run(runs, start, end, AttributeSet::for_heading(lvl));
                    },
                }
            }
            proof {
                assert(run_models(runs@) =~= before + emit_span(b, sm, cursor_pos));
            }
        },
        NodeKind::Link { url } => {
            push_run(runs, start, end, AttributeSet::for_link());
            proof {
                assert(run_models(runs@) =~= before + emit_span(b, sm, cursor_pos));
            }
        },
        NodeKind::CodeBlock { language, code } => {
            let open_end = match find_first_nl(text, start, end) {
                Option::Some(f) => f + 1,
                Option::None => end,
            };
            let close_start = match find_last_nl(text, start, end - 1) {
                Option::Some(j) => j + 1,
                Option::None => end,
            };
            let open_syn = syntax_attrs(cursor_pos, (start, open_end));
            push_run(runs, start, open_end, open_syn);
            if open_end < close_start {
                push_run(runs, open_end, close_start, AttributeSet::for_code_block());
            }
            if close_start < end {
                let close_syn = syntax_attrs(cursor_pos, (close_start, end));
                push_run(runs, close_start, end, close_syn);
            }
            proof {
                assert(run_models(runs@) =~= before + emit_span(b, sm, cursor_pos));
            }
        },
        NodeKind::BlockQuote => {
            push_run(runs, start, end, AttributeSet::for_blockquote());
            proof {
                assert(run_models(runs@) =~= before + emit_span(b, sm, cursor_pos));
            }
        },
        NodeKind::List => {
            collect_children(text, &span.children, cursor_pos, runs);
            proof {
                assert(run_models(runs@) =~= before + emit_span(b, sm, cursor_pos));
            }
        },
        NodeKind::Item => {
            let n_children = span.children.len();
            let first_child_start = if n_children > 0 {
                span.children[0].source_range.0
            } else if end - start < 2 {
                end
            } else {
                start + 2
            };
            let marker_end = if first_child_start < end {
                first_child_start
            } else {
                end
            };
            if start < marker_end {
                push_run(runs, start, marker_end, AttributeSet::for_list_marker());
            }
            collect_children(text, &span.children, cursor_pos, runs);
            proof {
                lemma_span_models_len(span.children@);
                if n_children > 0 {
                    lemma_span_models_index(span.children@, 0);
                }
                assert(run_models(runs@) =~= before + emit_span(b, sm, cursor_pos));
            }
        },
        NodeKind::Table => {
            push_run(runs, start, end, AttributeSet::for_code_block());
            proof {
                assert(run_models(runs@) =~= before + emit_span(b, sm, cursor_pos));
            }
        },
        NodeKind::Footnote => {
            push_run(runs, start, end, AttributeSet::for_link());
            proof {
                assert(run_models(runs@) =~= before + emit_span(b, sm, cursor_pos));
            }
        },
        _ => {
            collect_children(text, &span.children, cursor_pos, runs);
            proof {
                assert(run_models(runs@) =~= before + emit_span(b, sm, cursor_pos));
            }
        },
    }
}

/// Emit the runs of a sequence of sibling spans, in order.
fn collect_children(
    text: &[u8],
    children: &Vec<MarkdownSpan>,
    cursor_pos: Option<usize>,
    runs: &mut Vec<AttributeRun>,
)
    ensures
        run_models(final(runs)@) == run_models(old(runs)@) + emit_spans(
            text@,
            span_models(children@),
            cursor_pos,
        ),
    decreases *children, 0int,
{
    let ghost b = text@;
    let ghost cs = span_models(children@);
    let ghost base = run_models(runs@);
    proof {
        lemma_span_models_len(children@);
        assert(cs.subrange(0, cs.len() as int) =~= cs);
    }
    let n = children.len();
    let mut i: usize = 0;
    while i < n
        invariant
            n == children@.len(),
            cs == span_models(children@),
            cs.len() == n,
            i <= n,
            b == text@,
            run_models(runs@) + emit_spans(b, cs.subrange(i as int, n as int), cursor_pos)
                == base + emit_spans(b, cs, cursor_pos),
        decreases n - i,
    {
        let ghost prev = run_models(runs@);
        collect_runs(text, &children[i], cursor_pos, runs);
        proof {
            lemma_span_models_index(children@, i as int);
            let suf = cs.subrange(i as int, n as int);
            assert(suf[0] == cs[i as int]);
            assert(suf.subrange(1, suf.len() as int) =~= cs.subrange(i + 1, n as int));
            assert((prev + emit_span(b, cs[i as int], cursor_pos)) + emit_spans(
                b,
                cs.subrange(i + 1, n as int),
                cursor_pos,
            ) =~= prev + (emit_span(b, cs[i as int], cursor_pos) + emit_spans(
                b,
                cs.subrange(i + 1, n as int),
                cursor_pos,
            )));
        }
        i = i + 1;
    }
    proof {
        assert(cs.subrange(n as int, n as int) =~= Seq::<SpanModel>::empty());
        assert(run_models(runs@) + Seq::<RunModel>::empty() =~= run_models(runs@));
    }
}

/// [`insert_by_start`] places its element at the position the scan-from-the-
/// right insertion finds: after every element whose start does not exceed the
/// new element's.
proof fn lemma_insert_by_start_at(s: Seq<RunModel>, r: RunModel, j: int)
    requires
        0 <= j <= s.len(),
        forall|k: int| j <= k < s.len() ==> s[k].start > r.start,
        j > 0 ==> s[j - 1].start <= r.start,
    ensures
        insert_by_start(s, r) == s.insert(j, r),
    decreases s.len(),
{
    if s.len() == 0 {
        assert(s.insert(0, r) =~= seq![r]);
    } else if s.last().start <= r.start {
        assert(j == s.len());
        assert(s.insert(j, r) =~= s.push(r));
    } else {
        assert(j < s.len());
        lemma_insert_by_start_at(s.drop_last(), r, j);
        assert(insert_by_start(s, r) =~= s.insert(j, r));
    }
}

/// Stable sort of the runs by their start offset.
fn sort_runs(v: Vec<AttributeRun>) -> (r: Vec<AttributeRun>)
    ensures
        run_models(r@) == sort_by_start(run_models(v@)),
{
    let ghost orig = run_models(v@);
    let mut rest = v;
    let mut out: Vec<AttributeRun> = Vec::new();
    proof {
        assert(run_models(Seq::<AttributeRun>::empty()) =~= Seq::<RunModel>::empty());
        assert(orig.take(0) =~= Seq::<RunModel>::empty());
    }
    while rest.len() > 0
        invariant
            rest@.len() <= orig.len(),
            run_models(rest@) =~= orig.skip(orig.len() - rest@.len()),
            run_models(out@) == sort_by_start(orig.take(orig.len() - rest@.len())),
        decreases rest@.len(),
    {
        let ghost k = orig.len() - rest@.len();
        let ghost out_before = run_models(out@);
        let ghost rem_before = rest@;
        let x = rest.remove(0);
        proof {
            assert(run_models(rem_before)[0] == x.deep_view());
            assert(run_models(rem_before) == orig.skip(k));
            assert(orig.skip(k)[0] == orig[k as int]);
            assert(x.deep_view() == orig[k as int]);
            assert(rest@ =~= rem_before.subrange(1, rem_before.len() as int));
            assert forall|q: int| 0 <= q < run_models(rest@).len() implies run_models(
                rest@,
            )[q] == orig.skip(k + 1)[q] by {
                assert(rest@[q] == rem_before[q + 1]);
                assert(run_models(rem_before)[q + 1] == rem_before[q + 1].deep_view());
                assert(run_models(rem_before)[q + 1] == orig.skip(k)[q + 1]);
                assert(orig.skip(k)[q + 1] == orig[k + 1 + q]);
                assert(orig.skip(k + 1)[q] == orig[k + 1 + q]);
            }
            assert(run_models(rest@) =~= orig.skip(k + 1));
        }
        let mut j = out.len();
        while j > 0 && out[j - 1].range.0 > x.range.0
            invariant
                j <= out@.len(),
                run_models(out@) == out_before,
                forall|q: int| j <= q < out@.len() ==> run_models(out@)[q].start
                    > x.deep_view().start,
            decreases j,
        {
            j = j - 1;
        }
        out.insert(j, x);
        proof {
            lemma_insert_by_start_at(out_before, x.deep_view(), j as int);
            assert(run_models(out@) =~= out_before.insert(j as int, x.deep_view()));
            assert(orig.take(k + 1).drop_last() =~= orig.take(k));
            assert(orig.take(k + 1).last() == orig[k as int]);
        }
    }
    proof {
        assert(orig.take(orig.len() as int) =~= orig);
    }
    out
}

/// Sort the runs by start offset and fill every uncovered interval with a
/// plain (unstyled) run, so the result reaches from 0 to `text_len`.
fn fill_gaps(text_len: usize, runs: Vec<AttributeRun>) -> (r: Vec<AttributeRun>)
    ensures
        run_models(r@) == fill_from(
            sort_by_start(run_models(runs@)),
            0,
            text_len as int,
        ),
{
    let ghost orig = run_models(runs@);
    let mut rest = sort_runs(runs);
    let ghost rs = run_models(rest@);
    let mut result: Vec<AttributeRun> = Vec::new();
    let mut pos: usize = 0;
    proof {
        assert(run_models(Seq::<AttributeRun>::empty()) =~= Seq::<RunModel>::empty());
        assert(Seq::<RunModel>::empty() + fill_from(rs, 0, text_len as int) =~= fill_from(
            rs,
            0,
            text_len as int,
        ));
    }
    while rest.len() > 0
        invariant
            run_models(result@) + fill_from(run_models(rest@), pos as int, text_len as int)
                == fill_from(rs, 0, text_len as int),
        decreases rest@.len(),
    {
        let ghost rem = run_models(rest@);
        let ghost res_before = run_models(result@);
        let ghost rem_vec = rest@;
        let run = rest.remove(0);
        proof {
            assert(run_models(rem_vec)[0] == run.deep_view());
            assert(run.deep_view() == rem[0]);
            assert(rest@ =~= rem_vec.subrange(1, rem_vec.len() as int));
            assert forall|q: int| 0 <= q < run_models(rest@).len() implies run_models(
                rest@,
            )[q] == rem.subrange(1, rem.len() as int)[q] by {
                assert(rest@[q] == rem_vec[q + 1]);
                assert(run_models(rem_vec)[q + 1] == rem_vec[q + 1].deep_view());
            }
            assert(run_models(rest@) =~= rem.subrange(1, rem.len() as int));
        }
        if run.range.0 > pos {
            push_run(&mut result, pos, run.range.0, AttributeSet::plain());
        }
        let run_end = run.range.1;
        let ghost gap_part: Seq<RunModel> = if rem[0].start > pos as int {
            seq![plain_run(pos as int, rem[0].start)]
        } else {
            Seq::<RunModel>::empty()
        };
        let ghost before_push = run_models(result@);
        proof {
            assert(before_push =~= res_before + gap_part);
        }
        result.push(run);
        proof {
            assert(run_models(result@) =~= before_push.push(rem[0]));
            assert(run_models(result@) =~= res_before + (gap_part + seq![rem[0]]));
        }
        if run_end > pos {
            pos = run_end;
        }
        proof {
            assert((res_before + (gap_part + seq![rem[0]])) + fill_from(
                run_models(rest@),
                pos as int,
                text_len as int,
            ) =~= res_before + ((gap_part + seq![rem[0]]) + fill_from(
                run_models(rest@),
                pos as int,
                text_len as int,
            )));
            assert((gap_part + seq![rem[0]]) + fill_from(
                run_models(rest@),
                pos as int,
                text_len as int,
            ) =~= gap_part + seq![rem[0]] + fill_from(
                run_models(rest@),
                pos as int,
                text_len as int,
            ));
        }
    }
    if pos < text_len {
        push_run(&mut result, pos, text_len, AttributeSet::plain());
    }
    proof {
        assert(run_models(rest@) =~= Seq::<RunModel>::empty());
        assert(run_models(result@) =~= fill_from(rs, 0, text_len as int));
    }
    result
}

/// Compute the flat run list for the given text, span forest and optional
/// caret byte position: every span's runs are emitted depth-first, sorted by
/// start offset, and the gaps between them are filled with plain runs.
pub fn compute_attribute_runs(
    text: &str,
    spans: &[MarkdownSpan],
    cursor_pos: Option<usize>,
) -> (r: Vec<AttributeRun>)
    ensures
        run_models(r@) == compiled_runs(text.spec_bytes(), span_models(spans@), cursor_pos),
        wf_spans(span_models(spans@), text.spec_bytes().len() as int) ==> is_partition(
            run_models(r@),
            text.spec_bytes().len() as int,
        ),
{
    let bytes = text.as_bytes();
    let ghost b = bytes@;
    let ghost cs = span_models(spans@);
    let mut runs: Vec<AttributeRun> = Vec::new();
    proof {
        lemma_span_models_len(spans@);
        assert(cs.subrange(0, cs.len() as int) =~= cs);
        assert(run_models(Seq::<AttributeRun>::empty()) =~= Seq::<RunModel>::empty());
        assert(Seq::<RunModel>::empty() + emit_spans(b, cs, cursor_pos) =~= emit_spans(
            b,
            cs,
            cursor_pos,
        ));
    }
    let n = spans.len();
    let mut i: usize = 0;
    while i < n
        invariant
            n == spans@.len(),
            cs == span_models(spans@),
            cs.len() == n,
            i <= n,
            b == text.spec_bytes(),
            bytes@ == b,
            run_models(runs@) + emit_spans(b, cs.subrange(i as int, n as int), cursor_pos)
                == emit_spans(b, cs, cursor_pos),
        decreases n - i,
    {
        let ghost prev = run_models(runs@);
        collect_runs(bytes, &spans[i], cursor_pos, &mut runs);
        proof {
            lemma_span_models_index(spans@, i as int);
            let suf = cs.subrange(i as int, n as int);
            assert(suf[0] == cs[i as int]);
            assert(suf.subrange(1, suf.len() as int) =~= cs.subrange(i + 1, n as int));
            assert((prev + emit_span(b, cs[i as int], cursor_pos)) + emit_spans(
                b,
                cs.subrange(i + 1, n as int),
                cursor_pos,
            ) =~= prev + (emit_span(b, cs[i as int], cursor_pos) + emit_spans(
                b,
                cs.subrange(i + 1, n as int),
                cursor_pos,
            )));
        }
        i = i + 1;
    }
    proof {
        assert(cs.subrange(n as int, n as int) =~= Seq::<SpanModel>::empty());
        assert(run_models(runs@) + Seq::<RunModel>::empty() =~= run_models(runs@));
    }
    let text_len = bytes.len();
    let result = fill_gaps(text_len, runs);
    proof {
        if wf_spans(cs, b.len() as int) {
            lemma_compiled_partition(b, cs, cursor_pos);
        }
    }
    result
}

} // verus!
