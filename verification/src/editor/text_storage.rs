//! The editing session's state and decisions: the current span tree, the
//! caret position, and the per-edit recomputation of runs, heading
//! separator positions and code-block metadata. A host storage delegate
//! owns one session, re-parses on each edit, hands the fresh spans in, and
//! applies the returned runs.

use vstd::prelude::*;

verus! {

use vstd::string::StringSliceAdditionalSpecFns;
use crate::editor::apply::{
    CodeBlockInfo,
    InfoModel,
    collect_code_block_infos,
    heading_separator_positions,
    info_models,
    infos_spans,
    sep_positions,
};
use crate::editor::renderer::{
    AttributeRun,
    compiled_runs,
    compute_attribute_runs,
    run_models,
};
use crate::markdown::parser::{MarkdownSpan, SpanModel, span_models};

/// Mathematical model of an [`EditorSession`].
pub struct SessionModel {
    pub spans: Seq<SpanModel>,
    pub cursor_pos: Option<usize>,
    pub heading_sep_positions: Seq<int>,
    pub code_block_infos: Seq<InfoModel>,
}

/// The state a live editing session keeps between edits.
pub struct EditorSession {
    spans: Vec<MarkdownSpan>,
    cursor_pos: Option<usize>,
    heading_sep_positions: Vec<usize>,
    code_block_infos: Vec<CodeBlockInfo>,
}

impl View for EditorSession {
    type V = SessionModel;

    closed spec fn view(&self) -> SessionModel {
        SessionModel {
            spans: span_models(self.spans@),
            cursor_pos: self.cursor_pos,
            heading_sep_positions: self.heading_sep_positions@.map_values(|x: usize| x as int),
            code_block_infos: info_models(self.code_block_infos@),
        }
    }
}

impl EditorSession {
    /// A fresh session: no spans, no caret, nothing computed yet.
    pub fn new() -> (r: Self)
        ensures
            r@.spans == Seq::<SpanModel>::empty(),
            r@.cursor_pos is None,
            r@.heading_sep_positions == Seq::<int>::empty(),
            r@.code_block_infos == Seq::<InfoModel>::empty(),
    {
        let r = EditorSession {
            spans: Vec::new(),
            cursor_pos: Option::None,
            heading_sep_positions: Vec::new(),
            code_block_infos: Vec::new(),
        };
        proof {
            assert(r@.spans =~= Seq::<SpanModel>::empty());
            assert(r@.heading_sep_positions =~= Seq::<int>::empty());
            assert(r@.code_block_infos =~= Seq::<InfoModel>::empty());
        }
        r
    }

    /// The current span tree.
    pub fn spans(&self) -> (r: &Vec<MarkdownSpan>)
        ensures
            span_models(r@) == self@.spans,
    {
        &self.spans
    }

    /// Set the caret position (byte offset) for syntax-marker visibility.
    pub fn set_cursor_pos(&mut self, pos: Option<usize>)
        ensures
            final(self)@ == (SessionModel { cursor_pos: pos, ..old(self)@ }),
    {
        self.cursor_pos = pos;
    }

    /// The current caret position.
    pub fn cursor_pos(&self) -> (r: Option<usize>)
        ensures
            r == self@.cursor_pos,
    {
        self.cursor_pos
    }

    /// The UTF-16 offsets of heading starts that are due a separator line,
    /// as computed by the last edit.
    pub fn heading_sep_positions(&self) -> (r: &Vec<usize>)
        ensures
            r@.map_values(|x: usize| x as int) == self@.heading_sep_positions,
    {
        &self.heading_sep_positions
    }

    /// The code-block metadata computed by the last edit.
    pub fn code_block_infos(&self) -> (r: &Vec<CodeBlockInfo>)
        ensures
            info_models(r@) == self@.code_block_infos,
    {
        &self.code_block_infos
    }

    /// Take the freshly parsed spans after an edit, recompile the run list
    /// at the current caret, and recompute the separator positions and
    /// code-block metadata. Returns the runs for the host to apply.
    pub fn process_edit(&mut self, text: &str, spans: Vec<MarkdownSpan>) -> (r: Vec<
        AttributeRun,
    >)
        ensures
            run_models(r@) == compiled_runs(
                text.spec_bytes(),
                final(self)@.spans,
                old(self)@.cursor_pos,
            ),
            final(self)@.spans == span_models(spans@),
            final(self)@.cursor_pos == old(self)@.cursor_pos,
            final(self)@.heading_sep_positions == sep_positions(text@, run_models(r@)),
            final(self)@.code_block_infos == infos_spans(
                text.spec_bytes(),
                text@,
                final(self)@.spans,
            ),
    {
        self.spans = spans;
        self.recompute(text)
    }

    /// Recompile the run list for the current spans and caret without a
    /// re-parse (after a caret-only move or a scheme change), recomputing
    /// the separator positions and code-block metadata with it.
    pub fn reapply(&mut self, text: &str) -> (r: Vec<AttributeRun>)
        ensures
            run_models(r@) == compiled_runs(
                text.spec_bytes(),
                old(self)@.spans,
                old(self)@.cursor_pos,
            ),
            final(self)@.spans == old(self)@.spans,
            final(self)@.cursor_pos == old(self)@.cursor_pos,
            final(self)@.heading_sep_positions == sep_positions(text@, run_models(r@)),
            final(self)@.code_block_infos == infos_spans(
                text.spec_bytes(),
                text@,
                old(self)@.spans,
            ),
    {
        self.recompute(text)
    }

    fn recompute(&mut self, text: &str) -> (r: Vec<AttributeRun>)
        ensures
            run_models(r@) == compiled_runs(
                text.spec_bytes(),
                old(self)@.spans,
                old(self)@.cursor_pos,
            ),
            final(self)@.spans == old(self)@.spans,
            final(self)@.cursor_pos == old(self)@.cursor_pos,
            final(self)@.heading_sep_positions == sep_positions(text@, run_models(r@)),
            final(self)@.code_block_infos == infos_spans(
                text.spec_bytes(),
                text@,
                old(self)@.spans,
            ),
    {
        let runs = compute_attribute_runs(text, self.spans.as_slice(), self.cursor_pos);
        self.heading_sep_positions = heading_separator_positions(text, runs.as_slice());
        self.code_block_infos = collect_code_block_infos(self.spans.as_slice(), text);
        runs
    }
}

} // verus!
