//! The span-tree data model the run compiler consumes, together with the
//! byte-offset helpers used when building spans from a parser's
//! line/column positions.
//!
//! Tree construction itself is the parser collaborator's job: a host builds
//! [`MarkdownSpan`] values from whatever parse tree it has and hands them to
//! this crate.

use vstd::prelude::*;

verus! {

use vstd::string::StringSliceAdditionalSpecFns;

/// The semantic kind of a parsed span.
#[derive(Debug, PartialEq, Clone)]
pub enum NodeKind {
    Text,
    Strong,
    Emph,
    Code,
    Math,
    Link { url: String },
    Heading { level: u8 },
    CodeBlock { language: String, code: String },
    Table,
    Footnote,
    Strikethrough,
    Image { url: String },
    List,
    Item,
    BlockQuote,
    Paragraph,
    HtmlInline,
    Other,
}

/// A parsed document node: a kind, a byte range into the source string,
/// and ordered children.
#[derive(Debug)]
pub struct MarkdownSpan {
    pub kind: NodeKind,
    /// Byte offsets in the original source string, `[start, end)`.
    pub source_range: (usize, usize),
    pub children: Vec<MarkdownSpan>,
}

/// Mathematical model of a [`NodeKind`]: string payloads become character
/// sequences.
pub enum KindModel {
    Text,
    Strong,
    Emph,
    Code,
    Math,
    Link { url: Seq<char> },
    Heading { level: int },
    CodeBlock { language: Seq<char>, code: Seq<char> },
    Table,
    Footnote,
    Strikethrough,
    Image { url: Seq<char> },
    List,
    Item,
    BlockQuote,
    Paragraph,
    HtmlInline,
    Other,
}

/// Mathematical model of a [`MarkdownSpan`].
pub struct SpanModel {
    pub kind: KindModel,
    pub start: int,
    pub end: int,
    pub children: Seq<SpanModel>,
}

impl DeepView for NodeKind {
    type V = KindModel;

    open spec fn deep_view(&self) -> KindModel {
        match self {
            NodeKind::Text => KindModel::Text,
            NodeKind::Strong => KindModel::Strong,
            NodeKind::Emph => KindModel::Emph,
            NodeKind::Code => KindModel::Code,
            NodeKind::Math => KindModel::Math,
            NodeKind::Link { url } => KindModel::Link { url: url@ },
            NodeKind::Heading { level } => KindModel::Heading { level: *level as int },
            NodeKind::CodeBlock { language, code } => KindModel::CodeBlock {
                language: language@,
                code: code@,
            },
            NodeKind::Table => KindModel::Table,
            NodeKind::Footnote => KindModel::Footnote,
            NodeKind::Strikethrough => KindModel::Strikethrough,
            NodeKind::Image { url } => KindModel::Image { url: url@ },
            NodeKind::List => KindModel::List,
            NodeKind::Item => KindModel::Item,
            NodeKind::BlockQuote => KindModel::BlockQuote,
            NodeKind::Paragraph => KindModel::Paragraph,
            NodeKind::HtmlInline => KindModel::HtmlInline,
            NodeKind::Other => KindModel::Other,
        }
    }
}

/// The model of a single span, defined mutually with [`span_models`].
pub open spec fn span_model(s: MarkdownSpan) -> SpanModel
    decreases s, 1int,
{
    SpanModel {
        kind: s.kind.deep_view(),
        start: s.source_range.0 as int,
        end: s.source_range.1 as int,
        children: span_models(s.children@),
    }
}

/// The models of a sequence of spans, in order.
pub open spec fn span_models(ss: Seq<MarkdownSpan>) -> Seq<SpanModel>
    decreases ss, 0int,
{
    if ss.len() == 0 {
        Seq::<SpanModel>::empty()
    } else {
        seq![span_model(ss[0])] + span_models(ss.subrange(1, ss.len() as int))
    }
}

/// `span_models` maps the sequence elementwise.
pub proof fn lemma_span_models_index(ss: Seq<MarkdownSpan>, i: int)
    requires
        0 <= i < ss.len(),
    ensures
        span_models(ss).len() == ss.len(),
        span_models(ss)[i] == span_model(ss[i]),
    decreases ss.len(),
{
    lemma_span_models_len(ss);
    if i > 0 {
        lemma_span_models_index(ss.subrange(1, ss.len() as int), i - 1);
    }
}

/// `span_models` preserves length.
pub proof fn lemma_span_models_len(ss: Seq<MarkdownSpan>)
    ensures
        span_models(ss).len() == ss.len(),
    decreases ss.len(),
{
    if ss.len() > 0 {
        lemma_span_models_len(ss.subrange(1, ss.len() as int));
    }
}

impl DeepView for MarkdownSpan {
    type V = SpanModel;

    open spec fn deep_view(&self) -> SpanModel {
        span_model(*self)
    }
}

/// The byte offsets at which lines start: offset 0, then one offset just
/// after each newline byte among the first `k` bytes of `b`.
pub open spec fn line_starts_upto(b: Seq<u8>, k: int) -> Seq<int>
    decreases k,
{
    if k <= 0 {
        seq![0int]
    } else if b[k - 1] == 10 {
        line_starts_upto(b, k - 1).push(k)
    } else {
        line_starts_upto(b, k - 1)
    }
}

/// The line-start table of a whole byte string.
pub open spec fn line_starts(b: Seq<u8>) -> Seq<int> {
    line_starts_upto(b, b.len() as int)
}

/// Pre-compute the byte offset of the start of each line
/// (0-indexed line number maps to byte offset).
pub fn line_offsets(source: &str) -> (r: Vec<usize>)
    ensures
        r@.map_values(|x: usize| x as int) == line_starts(source.spec_bytes()),
{
    let bs = source.as_bytes();
    let n = bs.len();
    let mut offsets: Vec<usize> = Vec::new();
    offsets.push(0);
    proof {
        assert(offsets@.map_values(|x: usize| x as int) =~= line_starts_upto(bs@, 0));
    }
    let mut i: usize = 0;
    while i < n
        invariant
            n == bs@.len(),
            i <= n,
            bs@ == source.spec_bytes(),
            offsets@.map_values(|x: usize| x as int) == line_starts_upto(bs@, i as int),
        decreases n - i,
    {
        if bs[i] == 10 {
            offsets.push(i + 1);
            proof {
                assert(offsets@.map_values(|x: usize| x as int) =~= line_starts_upto(
                    bs@,
                    i + 1,
                ));
            }
        }
        i = i + 1;
    }
    offsets
}

/// What [`to_offset`] returns: the line's starting offset plus the
/// zero-based column, saturating at the machine limit.
pub open spec fn to_offset_model(offsets: Seq<usize>, line: usize, col: usize) -> int {
    let idx: int = if line == 0 {
        0
    } else {
        line - 1
    };
    let line_start: int = if 0 <= idx < offsets.len() {
        offsets[idx] as int
    } else {
        0
    };
    let col_part: int = if col == 0 {
        0
    } else {
        col - 1
    };
    if line_start + col_part > usize::MAX {
        usize::MAX as int
    } else {
        line_start + col_part
    }
}

/// Convert a 1-indexed (line, column) position to a byte offset using a
/// line-start table from [`line_offsets`]. Out-of-table lines fall back to
/// offset 0; the sum saturates instead of overflowing.
pub fn to_offset(offsets: &[usize], line: usize, col: usize) -> (r: usize)
    ensures
        r as int == to_offset_model(offsets@, line, col),
{
    let idx: usize = if line == 0 {
        0
    } else {
        line - 1
    };
    let line_start: usize = if idx < offsets.len() {
        offsets[idx]
    } else {
        0
    };
    let col_part: usize = if col == 0 {
        0
    } else {
        col - 1
    };
    if line_start > usize::MAX - col_part {
        usize::MAX
    } else {
        line_start + col_part
    }
}

} // verus!
