//! The parse-event stream that the renderer consumes. Events come from
//! pulldown_cmark's CommonMark parser, translated one for one into a plain
//! enum; every event the renderer does not handle becomes `Other`. Offsets
//! are byte offsets into the original source.

use vstd::prelude::*;
use vstd::string::StringSliceAdditionalSpecFns;
use vstd::utf8::is_char_boundary;
use pulldown_cmark::{CodeBlockKind, Event, Tag, TagEnd};

verus! {

/// One block- or inline-level parse event, carrying only plain values.
pub enum MdEvent {
    ParagraphStart,
    ParagraphEnd,
    HeadingStart { level: u32 },
    HeadingEnd,
    /// `info` is the fence's full info string, empty for an indented block;
    /// `start`/`end` delimit the whole block in the source.
    CodeBlockStart { info: String, start: usize, end: usize },
    CodeBlockEnd,
    /// `first` is the starting number of an ordered list, `None` for an
    /// unordered one.
    ListStart { first: Option<u64> },
    ListEnd { ordered: bool },
    ItemStart,
    ItemEnd,
    EmphasisStart,
    EmphasisEnd,
    StrongStart,
    StrongEnd,
    StrikethroughStart,
    StrikethroughEnd,
    LinkStart { dest: String },
    LinkEnd,
    Text { text: String, start: usize, end: usize },
    Code { text: String },
    Html { text: String },
    Other,
}

/// The event stream that the CommonMark parser produces for a source text.
/// The parse is a function of the text alone.
pub uninterp spec fn md_events(s: Seq<char>) -> Seq<MdEvent>;

/// A byte range that can be sliced out of the source: within bounds and on
/// character boundaries.
pub open spec fn range_ok(start: int, end: int, bytes: Seq<u8>) -> bool {
    0 <= start <= end <= bytes.len()
        && is_char_boundary(bytes, start)
        && is_char_boundary(bytes, end)
}

/// Every source offset that an event carries is a valid slice boundary of
/// the source's UTF-8 bytes.
pub open spec fn md_ranges_ok(evs: Seq<MdEvent>, bytes: Seq<u8>) -> bool {
    forall|i: int| 0 <= i < evs.len() ==> match #[trigger] evs[i] {
        MdEvent::CodeBlockStart { info: _, start, end } =>
            range_ok(start as int, end as int, bytes),
        MdEvent::Text { text: _, start, end } =>
            range_ok(start as int, end as int, bytes),
        _ => true,
    }
}

#[verifier::external_type_specification]
#[verifier::external_body]
pub struct ExEvent<'a>(Event<'a>);

#[verifier::external_type_specification]
#[verifier::external_body]
pub struct ExTag<'a>(Tag<'a>);

#[verifier::external_type_specification]
#[verifier::external_body]
pub struct ExTagEnd(TagEnd);

/// Relies on pulldown_cmark's `Tag`: each start tag is translated one for
/// one, tags the renderer ignores become `Other`. An indented code block
/// gets an empty info string.
#[verifier::external_body]
fn convert_start(t: Tag<'_>, start: usize, end: usize) -> MdEvent {
    match t {
        Tag::Paragraph => MdEvent::ParagraphStart,
        Tag::Heading { level, .. } => MdEvent::HeadingStart { level: level as u32 },
        Tag::CodeBlock(CodeBlockKind::Fenced(info)) =>
            MdEvent::CodeBlockStart { info: info.into_string(), start, end },
        Tag::CodeBlock(CodeBlockKind::Indented) =>
            MdEvent::CodeBlockStart { info: String::new(), start, end },
        Tag::List(first) => MdEvent::ListStart { first },
        Tag::Item => MdEvent::ItemStart,
        Tag::Emphasis => MdEvent::EmphasisStart,
        Tag::Strong => MdEvent::StrongStart,
        Tag::Strikethrough => MdEvent::StrikethroughStart,
        Tag::Link { dest_url, .. } => MdEvent::LinkStart { dest: dest_url.into_string() },
        _ => MdEvent::Other,
    }
}

/// Relies on pulldown_cmark's `TagEnd`: each end tag is translated one for
/// one, tags the renderer ignores become `Other`.
#[verifier::external_body]
fn convert_end(t: TagEnd) -> MdEvent {
    match t {
        TagEnd::Paragraph => MdEvent::ParagraphEnd,
        TagEnd::Heading(_) => MdEvent::HeadingEnd,
        TagEnd::CodeBlock => MdEvent::CodeBlockEnd,
        TagEnd::List(ordered) => MdEvent::ListEnd { ordered },
        TagEnd::Item => MdEvent::ItemEnd,
        TagEnd::Emphasis => MdEvent::EmphasisEnd,
        TagEnd::Strong => MdEvent::StrongEnd,
        TagEnd::Strikethrough => MdEvent::StrikethroughEnd,
        TagEnd::Link => MdEvent::LinkEnd,
        _ => MdEvent::Other,
    }
}

/// Relies on pulldown_cmark's `Event`: variants are translated one for one;
/// both block-level and inline raw HTML pass through as `Html`. Text events
/// keep their source byte range.
#[verifier::external_body]
fn convert_event(ev: Event<'_>, start: usize, end: usize) -> MdEvent {
    match ev {
        Event::Start(t) => convert_start(t, start, end),
        Event::End(t) => convert_end(t),
        Event::Text(s) => MdEvent::Text { text: s.into_string(), start, end },
        Event::Code(s) => MdEvent::Code { text: s.into_string() },
        Event::Html(s) => MdEvent::Html { text: s.into_string() },
        Event::InlineHtml(s) => MdEvent::Html { text: s.into_string() },
        _ => MdEvent::Other,
    }
}

/// Relies on `pulldown_cmark::Parser` and its offset iterator: parsing is
/// deterministic in the source text, and every range it attaches to an event
/// is a valid slice range of that text (byte offsets on character
/// boundaries, start at most end, end at most the byte length).
#[verifier::external_body]
pub fn parse_events(input: &str) -> (r: Vec<MdEvent>)
    ensures
        r@ == md_events(input@),
        md_ranges_ok(r@, input.spec_bytes()),
{
    let mut out = Vec::new();
    for (ev, range) in pulldown_cmark::Parser::new(input).into_offset_iter() {
        out.push(convert_event(ev, range.start, range.end));
    }
    out
}

} // verus!
