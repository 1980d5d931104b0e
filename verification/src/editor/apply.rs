//! The computable part of the attribute-application step: mapping byte
//! offsets to UTF-16 code-unit offsets, collecting code-block metadata, and
//! deciding which heading runs get a separator. A host bridge performs the
//! actual attribute application with these results.

use vstd::prelude::*;

verus! {

use vstd::string::StringSliceAdditionalSpecFns;
use crate::editor::renderer::{
    AttributeRun,
    RunModel,
    fence_close_start,
    fence_open_end,
    run_models,
};
use crate::markdown::attributes::AttrModel;
use crate::markdown::parser::{
    KindModel,
    MarkdownSpan,
    SpanModel,
    lemma_span_models_index,
    lemma_span_models_len,
    span_models,
};

/// How many UTF-8 bytes encode the character.
pub open spec fn utf8_width(c: char) -> int {
    if (c as u32) < 0x80 {
        1
    } else if (c as u32) < 0x800 {
        2
    } else if (c as u32) < 0x10000 {
        3
    } else {
        4
    }
}

/// How many UTF-16 code units encode the character: astral code points take
/// a surrogate pair.
pub open spec fn utf16_width(c: char) -> int {
    if (c as u32) < 0x10000 {
        1
    } else {
        2
    }
}

/// The UTF-16 length of the longest character prefix whose UTF-8 encoding
/// fits into `budget` bytes: the UTF-16 offset matching byte offset
/// `budget`, when `budget` falls on a character boundary.
pub open spec fn utf16_of_prefix(s: Seq<char>, budget: int) -> int
    decreases s.len(),
{
    if s.len() == 0 || budget <= 0 {
        0
    } else if utf8_width(s[0]) <= budget {
        utf16_width(s[0]) + utf16_of_prefix(s.drop_first(), budget - utf8_width(s[0]))
    } else {
        0
    }
}

/// Convert a UTF-8 byte offset in `text` to a UTF-16 code-unit offset.
/// Offsets past the end of the text saturate at its UTF-16 length; an
/// offset inside a character counts only the characters before it.
pub fn byte_to_utf16(text: &str, byte_pos: usize) -> (r: usize)
    ensures
        r as int == utf16_of_prefix(text@, byte_pos as int),
{
    let n = text.unicode_len();
    let mut i: usize = 0;
    let mut used: usize = 0;
    let mut count: usize = 0;
    proof {
        assert(text@.skip(0) =~= text@);
    }
    while i < n
        invariant
            n == text@.len(),
            i <= n,
            count <= used <= byte_pos,
            count as int + utf16_of_prefix(text@.skip(i as int), byte_pos - used)
                == utf16_of_prefix(text@, byte_pos as int),
        decreases n - i,
    {
        let c = text.get_char(i);
        let u = c as u32;
        let w8: usize = if u < 0x80 {
            1
        } else if u < 0x800 {
            2
        } else if u < 0x10000 {
            3
        } else {
            4
        };
        let w16: usize = if u < 0x10000 {
            1
        } else {
            2
        };
        proof {
            assert(text@.skip(i as int)[0] == text@[i as int]);
            assert(text@.skip(i as int).drop_first() =~= text@.skip(i as int + 1));
        }
        if w8 > byte_pos - used {
            proof {
                assert(utf16_of_prefix(text@.skip(i as int), byte_pos - used) == 0);
            }
            return count;
        }
        count = count + w16;
        used = used + w8;
        i = i + 1;
    }
    proof {
        assert(text@.skip(n as int) =~= Seq::<char>::empty());
    }
    count
}

/// Metadata for one fenced code block, in UTF-16 offsets: what a host needs
/// to draw the block's visual overlay and to copy its code.
#[derive(Debug, Clone)]
pub struct CodeBlockInfo {
    /// The code between the fences, as the parser extracted it.
    pub text: String,
    /// UTF-16 offset where the content between the fences begins.
    pub start_utf16: usize,
    /// UTF-16 offset where the content between the fences ends.
    pub end_utf16: usize,
}

/// Mathematical model of a [`CodeBlockInfo`].
pub struct InfoModel {
    pub text: Seq<char>,
    pub start_utf16: int,
    pub end_utf16: int,
}

impl DeepView for CodeBlockInfo {
    type V = InfoModel;

    open spec fn deep_view(&self) -> InfoModel {
        InfoModel {
            text: self.text@,
            start_utf16: self.start_utf16 as int,
            end_utf16: self.end_utf16 as int,
        }
    }
}

/// The models of an info sequence, in order.
pub open spec fn info_models(rs: Seq<CodeBlockInfo>) -> Seq<InfoModel> {
    Seq::new(rs.len(), |i: int| rs[i].deep_view())
}

/// The metadata one span contributes: each code block yields one entry with
/// its code and the UTF-16 offsets of its content region (between the fence
/// lines); every other kind contributes its children's entries.
pub open spec fn infos_span(b: Seq<u8>, tc: Seq<char>, s: SpanModel) -> Seq<InfoModel>
    decreases s, 1int,
{
    match s.kind {
        KindModel::CodeBlock { language, code } => {
            if s.start < s.end && s.start < b.len() {
                let end = if s.end > b.len() {
                    b.len() as int
                } else {
                    s.end
                };
                seq![
                    InfoModel {
                        text: code,
                        start_utf16: utf16_of_prefix(tc, fence_open_end(b, s.start, end)),
                        end_utf16: utf16_of_prefix(tc, fence_close_start(b, s.start, end)),
                    },
                ]
            } else {
                Seq::<InfoModel>::empty()
            }
        },
        _ => infos_spans(b, tc, s.children),
    }
}

/// The metadata a sibling sequence contributes, in document order.
pub open spec fn infos_spans(b: Seq<u8>, tc: Seq<char>, ss: Seq<SpanModel>) -> Seq<InfoModel>
    decreases ss, 0int,
{
    if ss.len() == 0 {
        Seq::<InfoModel>::empty()
    } else {
        infos_span(b, tc, ss[0]) + infos_spans(b, tc, ss.subrange(1, ss.len() as int))
    }
}

/// Whether the character has the Unicode `White_Space` property — the set
/// `str::trim` strips.
pub open spec fn is_ws_char(c: char) -> bool {
    ||| 0x9 <= (c as u32) <= 0xD
    ||| c == ' '
    ||| (c as u32) == 0x85
    ||| (c as u32) == 0xA0
    ||| (c as u32) == 0x1680
    ||| 0x2000 <= (c as u32) <= 0x200A
    ||| (c as u32) == 0x2028
    ||| (c as u32) == 0x2029
    ||| (c as u32) == 0x202F
    ||| (c as u32) == 0x205F
    ||| (c as u32) == 0x3000
}

/// Whether any non-whitespace character lies in the text prefix whose UTF-8
/// encoding fits into `budget` bytes.
pub open spec fn prefix_has_content(s: Seq<char>, budget: int) -> bool
    decreases s.len(),
{
    if s.len() == 0 || budget <= 0 {
        false
    } else if utf8_width(s[0]) <= budget {
        !is_ws_char(s[0]) || prefix_has_content(s.drop_first(), budget - utf8_width(s[0]))
    } else {
        false
    }
}

fn is_whitespace_char(c: char) -> (r: bool)
    ensures
        r == is_ws_char(c),
{
    let u = c as u32;
    (0x9 <= u && u <= 0xD) || u == 0x20 || u == 0x85 || u == 0xA0 || u == 0x1680 || (0x2000 <= u
        && u <= 0x200A) || u == 0x2028 || u == 0x2029 || u == 0x202F || u == 0x205F || u
        == 0x3000
}

/// Whether non-whitespace text precedes byte offset `limit`.
fn has_content_before(text: &str, limit: usize) -> (r: bool)
    ensures
        r == prefix_has_content(text@, limit as int),
{
    let n = text.unicode_len();
    let mut i: usize = 0;
    let mut used: usize = 0;
    proof {
        assert(text@.skip(0) =~= text@);
    }
    while i < n
        invariant
            n == text@.len(),
            i <= n,
            used <= limit,
            prefix_has_content(text@, limit as int) == prefix_has_content(
                text@.skip(i as int),
                limit - used,
            ),
        decreases n - i,
    {
        let c = text.get_char(i);
        let u = c as u32;
        let w8: usize = if u < 0x80 {
            1
        } else if u < 0x800 {
            2
        } else if u < 0x10000 {
            3
        } else {
            4
        };
        proof {
            assert(text@.skip(i as int)[0] == text@[i as int]);
            assert(text@.skip(i as int).drop_first() =~= text@.skip(i as int + 1));
        }
        if w8 > limit - used {
            return false;
        }
        if !is_whitespace_char(c) {
            return true;
        }
        used = used + w8;
        i = i + 1;
    }
    proof {
        assert(text@.skip(n as int) =~= Seq::<char>::empty());
    }
    false
}

/// The UTF-16 positions at which a heading separator is due: the starts of
/// the runs that carry the `HeadingSeparator` fact and are preceded by
/// non-whitespace content.
pub open spec fn sep_positions(tc: Seq<char>, rs: Seq<RunModel>) -> Seq<int>
    decreases rs.len(),
{
    if rs.len() == 0 {
        Seq::<int>::empty()
    } else {
        (if rs[0].attrs.contains(AttrModel::HeadingSeparator) && prefix_has_content(
            tc,
            rs[0].start,
        ) {
            seq![utf16_of_prefix(tc, rs[0].start)]
        } else {
            Seq::<int>::empty()
        }) + sep_positions(tc, rs.subrange(1, rs.len() as int))
    }
}

/// Decide which runs get a separator line above them: those that carry the
/// `HeadingSeparator` fact and have non-whitespace content before their
/// start. Returns their starts as UTF-16 offsets, in run order.
pub fn heading_separator_positions(text: &str, runs: &[AttributeRun]) -> (r: Vec<usize>)
    ensures
        r@.map_values(|x: usize| x as int) == sep_positions(text@, run_models(runs@)),
{
    let ghost rs = run_models(runs@);
    let mut out: Vec<usize> = Vec::new();
    proof {
        assert(rs.subrange(0, rs.len() as int) =~= rs);
        assert(out@.map_values(|x: usize| x as int) =~= Seq::<int>::empty());
        assert(Seq::<int>::empty() + sep_positions(text@, rs) =~= sep_positions(text@, rs));
    }
    let n = runs.len();
    let mut i: usize = 0;
    while i < n
        invariant
            n == runs@.len(),
            rs == run_models(runs@),
            rs.len() == n,
            i <= n,
            out@.map_values(|x: usize| x as int) + sep_positions(
                text@,
                rs.subrange(i as int, n as int),
            ) == sep_positions(text@, rs),
        decreases n - i,
    {
        let ghost prev = out@.map_values(|x: usize| x as int);
        let ghost suf = rs.subrange(i as int, n as int);
        proof {
            assert(suf[0] == rs[i as int]);
            assert(suf.subrange(1, suf.len() as int) =~= rs.subrange(i + 1, n as int));
        }
        let run = &runs[i];
        if run.attrs.contains(&crate::markdown::attributes::TextAttribute::HeadingSeparator)
            && has_content_before(text, run.range.0) {
            let p = byte_to_utf16(text, run.range.0);
            out.push(p);
            proof {
                assert(out@.map_values(|x: usize| x as int) =~= prev.push(p as int));
                assert(prev.push(p as int) =~= prev + seq![utf16_of_prefix(
                    text@,
                    rs[i as int].start,
                )]);
            }
        }
        proof {
            let piece: Seq<int> = if rs[i as int].attrs.contains(AttrModel::HeadingSeparator)
                && prefix_has_content(text@, rs[i as int].start) {
                seq![utf16_of_prefix(text@, rs[i as int].start)]
            } else {
                Seq::<int>::empty()
            };
            assert(out@.map_values(|x: usize| x as int) =~= prev + piece);
            assert((prev + piece) + sep_positions(text@, rs.subrange(i + 1, n as int)) =~= prev
                + (piece + sep_positions(text@, rs.subrange(i + 1, n as int))));
        }
        i = i + 1;
    }
    proof {
        assert(rs.subrange(n as int, n as int) =~= Seq::<RunModel>::empty());
        assert(out@.map_values(|x: usize| x as int) + Seq::<int>::empty() =~= out@.map_values(
            |x: usize| x as int,
        ));
    }
    out
}

fn collect_infos_span(
    text: &str,
    bytes: &[u8],
    span: &MarkdownSpan,
    out: &mut Vec<CodeBlockInfo>,
)
    requires
        bytes@ == text.spec_bytes(),
    ensures
        info_models(final(out)@) == info_models(old(out)@) + infos_span(
            bytes@,
            text@,
            span.deep_view(),
        ),
    decreases *span, 1int,
{
    let ghost b = bytes@;
    let ghost sm = span.deep_view();
    let ghost before = info_models(out@);
    if let crate::markdown::parser::NodeKind::CodeBlock { language, code } = &span.kind {
        let (start, raw_end) = span.source_range;
        if start < raw_end && start < bytes.len() {
            let end = if raw_end < bytes.len() {
                raw_end
            } else {
                bytes.len()
            };
            let open_end = match crate::editor::renderer::find_first_nl(bytes, start, end) {
                Option::Some(f) => f + 1,
                Option::None => end,
            };
            let close_start = match crate::editor::renderer::find_last_nl(
                bytes,
                start,
                end - 1,
            ) {
                Option::Some(j) => j + 1,
                Option::None => end,
            };
            let start_utf16 = byte_to_utf16(text, open_end);
            let end_utf16 = byte_to_utf16(text, close_start);
            out.push(CodeBlockInfo { text: code.clone(), start_utf16, end_utf16 });
            proof {
                assert(info_models(out@) =~= before + infos_span(b, text@, sm));
            }
        } else {
            proof {
                assert(info_models(out@) =~= before + infos_span(b, text@, sm));
            }
        }
    } else {
        collect_infos_children(text, bytes, &span.children, out);
        proof {
            assert(info_models(out@) =~= before + infos_span(b, text@, sm));
        }
    }
}

fn collect_infos_children(
    text: &str,
    bytes: &[u8],
    children: &Vec<MarkdownSpan>,
    out: &mut Vec<CodeBlockInfo>,
)
    requires
        bytes@ == text.spec_bytes(),
    ensures
        info_models(final(out)@) == info_models(old(out)@) + infos_spans(
            bytes@,
            text@,
            span_models(children@),
        ),
    decreases *children, 0int,
{
    let ghost b = bytes@;
    let ghost cs = span_models(children@);
    let ghost base = info_models(out@);
    proof {
        lemma_span_models_len(children@);
        assert(cs.subrange(0, cs.len() as int) =~= cs);
    }
    let n = children.len();
    let mut i: usize = 0;
    while i < n
        invariant
            n == children@.len(),
            cs == span_models(children@),
            cs.len() == n,
            i <= n,
            b == bytes@,
            bytes@ == text.spec_bytes(),
            info_models(out@) + infos_spans(b, text@, cs.subrange(i as int, n as int)) == base
                + infos_spans(b, text@, cs),
        decreases n - i,
    {
        let ghost prev = info_models(out@);
        collect_infos_span(text, bytes, &children[i], out);
        proof {
            lemma_span_models_index(children@, i as int);
            let suf = cs.subrange(i as int, n as int);
            assert(suf[0] == cs[i as int]);
            assert(suf.subrange(1, suf.len() as int) =~= cs.subrange(i + 1, n as int));
            assert((prev + infos_span(b, text@, cs[i as int])) + infos_spans(
                b,
                text@,
                cs.subrange(i + 1, n as int),
            ) =~= prev + (infos_span(b, text@, cs[i as int]) + infos_spans(
                b,
                text@,
                cs.subrange(i + 1, n as int),
            )));
        }
        i = i + 1;
    }
    proof {
        assert(cs.subrange(n as int, n as int) =~= Seq::<SpanModel>::empty());
        assert(info_models(out@) + Seq::<InfoModel>::empty() =~= info_models(out@));
    }
}

/// Collect the metadata of every fenced code block in the span forest, in
/// document order.
pub fn collect_code_block_infos(spans: &[MarkdownSpan], text: &str) -> (r: Vec<CodeBlockInfo>)
    ensures
        info_models(r@) == infos_spans(text.spec_bytes(), text@, span_models(spans@)),
{
    let bytes = text.as_bytes();
    let ghost b = bytes@;
    let ghost cs = span_models(spans@);
    let mut out: Vec<CodeBlockInfo> = Vec::new();
    proof {
        lemma_span_models_len(spans@);
        assert(cs.subrange(0, cs.len() as int) =~= cs);
        assert(info_models(Seq::<CodeBlockInfo>::empty()) =~= Seq::<InfoModel>::empty());
        assert(Seq::<InfoModel>::empty() + infos_spans(b, text@, cs) =~= infos_spans(
            b,
            text@,
            cs,
        ));
    }
    let n = spans.len();
    let mut i: usize = 0;
    while i < n
        invariant
            n == spans@.len(),
            cs == span_models(spans@),
            cs.len() == n,
            i <= n,
            b == text.spec_bytes(),
            bytes@ == b,
            info_models(out@) + infos_spans(b, text@, cs.subrange(i as int, n as int))
                == infos_spans(b, text@, cs),
        decreases n - i,
    {
        let ghost prev = info_models(out@);
        collect_infos_span(text, bytes, &spans[i], &mut out);
        proof {
            lemma_span_models_index(spans@, i as int);
            let suf = cs.subrange(i as int, n as int);
            assert(suf[0] == cs[i as int]);
            assert(suf.subrange(1, suf.len() as int) =~= cs.subrange(i + 1, n as int));
            assert((prev + infos_span(b, text@, cs[i as int])) + infos_spans(
                b,
                text@,
                cs.subrange(i + 1, n as int),
            ) =~= prev + (infos_span(b, text@, cs[i as int]) + infos_spans(
                b,
                text@,
                cs.subrange(i + 1, n as int),
            )));
        }
        i = i + 1;
    }
    proof {
        assert(cs.subrange(n as int, n as int) =~= Seq::<SpanModel>::empty());
        assert(info_models(out@) + Seq::<InfoModel>::empty() =~= info_models(out@));
    }
    out
}

} // verus!
