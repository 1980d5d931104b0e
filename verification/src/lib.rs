//! The core of a live markdown editor that hides syntax markup except near
//! the caret: a span-tree data model, an attribute-set vocabulary, the
//! attribute-run compiler that turns a parsed document plus a caret
//! position into a flat, gapless, non-overlapping sequence of presentation
//! facts, and the supporting queries a host editor needs (caret
//! containment, UTF-16 offset mapping, code-block metadata, heading
//! separators, syntax colorization).
//!
//! Parsing, rendering and the platform bridge stay outside: a host builds
//! [`markdown::parser::MarkdownSpan`] values from its parse tree, feeds
//! them through [`editor::text_storage::EditorSession`] or
//! [`editor::renderer::compute_attribute_runs`], and applies the returned
//! runs to its text surface.

pub mod editor;
pub mod markdown;
pub mod ui;
