//! Markdown events, as the outline and the plain-text view consume them.
//!
//! The Markdown grammar itself is `pulldown_cmark`'s business: the crate
//! asks it for the event stream once, in [`markdown_events`], and carries on
//! with plain values of its own type.

use vstd::prelude::*;
use vstd::string::*;
use vstd::utf8::*;

use pulldown_cmark::{Event, Options, Parser, Tag, TagEnd};

verus! {

/// One parser event.
#[derive(Debug)]
pub enum MdEvent {
    /// A heading opens; `level` is 1 to 6, `start` the byte offset where the
    /// heading begins in the source.
    HeadingStart { level: u8, start: usize },
    /// Plain text.
    Text(String),
    /// The contents of an inline code span.
    Code(String),
    SoftBreak,
    HardBreak,
    /// A paragraph closes.
    ParagraphEnd,
    /// A heading closes.
    HeadingEnd,
    /// A list item closes.
    ItemEnd,
    /// A code block closes.
    CodeBlockEnd,
    /// A table cell closes.
    TableCellEnd,
    /// Anything else.
    Other,
}

/// The specification-side image of an [`MdEvent`].
pub enum MdEventView {
    HeadingStart { level: u8, start: int },
    Text(Seq<char>),
    Code(Seq<char>),
    SoftBreak,
    HardBreak,
    ParagraphEnd,
    HeadingEnd,
    ItemEnd,
    CodeBlockEnd,
    TableCellEnd,
    Other,
}

impl View for MdEvent {
    type V = MdEventView;

    open spec fn view(&self) -> MdEventView {
        match self {
            MdEvent::HeadingStart { level, start } => MdEventView::HeadingStart {
                level: *level,
                start: *start as int,
            },
            MdEvent::Text(t) => MdEventView::Text(t@),
            MdEvent::Code(t) => MdEventView::Code(t@),
            MdEvent::SoftBreak => MdEventView::SoftBreak,
            MdEvent::HardBreak => MdEventView::HardBreak,
            MdEvent::ParagraphEnd => MdEventView::ParagraphEnd,
            MdEvent::HeadingEnd => MdEventView::HeadingEnd,
            MdEvent::ItemEnd => MdEventView::ItemEnd,
            MdEvent::CodeBlockEnd => MdEventView::CodeBlockEnd,
            MdEvent::TableCellEnd => MdEventView::TableCellEnd,
            MdEvent::Other => MdEventView::Other,
        }
    }
}

/// The events of a whole sequence of [`MdEvent`]s.
pub open spec fn events_view(events: Seq<MdEvent>) -> Seq<MdEventView> {
    events.map_values(|e: MdEvent| e@)
}

/// Heading starts sit inside the source, on character boundaries.
pub open spec fn events_well_placed(source: Seq<u8>, events: Seq<MdEventView>) -> bool {
    forall|i: int|
        0 <= i < events.len() ==> match #[trigger] events[i] {
            MdEventView::HeadingStart { level, start } => 1 <= level <= 6 && 0 <= start
                <= source.len() && is_char_boundary(source, start),
            _ => true,
        }
}

/// `pulldown_cmark`'s extension flags, by their bit values in its
/// `Options`.
pub const ENABLE_TABLES: u32 = 2;
pub const ENABLE_FOOTNOTES: u32 = 4;
pub const ENABLE_STRIKETHROUGH: u32 = 8;
pub const ENABLE_TASKLISTS: u32 = 16;
pub const ENABLE_HEADING_ATTRIBUTES: u32 = 64;

/// The extensions every walk over a document parses with: the same for the
/// outline, the plain text and the renderer, so that all of them see the
/// document alike.
pub const PARSER_OPTIONS: u32 = ENABLE_TABLES | ENABLE_FOOTNOTES | ENABLE_STRIKETHROUGH
    | ENABLE_TASKLISTS | ENABLE_HEADING_ATTRIBUTES;

/// The event stream that `pulldown_cmark` produces for a source text with
/// the extension flags `options`.
pub uninterp spec fn spec_markdown_events(source: Seq<char>, options: u32) -> Seq<MdEventView>;

/// The event stream of a document, parsed with [`PARSER_OPTIONS`].
pub open spec fn spec_events(source: Seq<char>) -> Seq<MdEventView> {
    spec_markdown_events(source, PARSER_OPTIONS)
}

/// Runs `pulldown_cmark::Parser::new_ext(..).into_offset_iter()` over the
/// source with the flags `options` and converts each event; the result is
/// the named event stream. What the contract adds: the iterator's ranges
/// are byte ranges of the source, so a heading's start lies inside it and
/// on a character boundary, and a `HeadingLevel` is one of `H1` (1) to
/// `H6` (6).
#[verifier::external_body]
pub(crate) fn markdown_events(source: &str, options: u32) -> (events: Vec<MdEvent>)
    ensures
        events_view(events@) == spec_markdown_events(source@, options),
        events_well_placed(source.spec_bytes(), events_view(events@)),
{
    Parser::new_ext(source, Options::from_bits_truncate(options)).into_offset_iter().map(|(event, range)| match event {
        Event::Start(Tag::Heading { level, .. }) => MdEvent::HeadingStart { level: level as u8, start: range.start },
        Event::Text(text) => MdEvent::Text(text.into_string()),
        Event::Code(text) => MdEvent::Code(text.into_string()),
        Event::SoftBreak => MdEvent::SoftBreak,
        Event::HardBreak => MdEvent::HardBreak,
        Event::End(TagEnd::Paragraph) => MdEvent::ParagraphEnd,
        Event::End(TagEnd::Heading(_)) => MdEvent::HeadingEnd,
        Event::End(TagEnd::Item) => MdEvent::ItemEnd,
        Event::End(TagEnd::CodeBlock) => MdEvent::CodeBlockEnd,
        Event::End(TagEnd::TableCell) => MdEvent::TableCellEnd,
        _ => MdEvent::Other,
    }).collect()
}

} // verus!
