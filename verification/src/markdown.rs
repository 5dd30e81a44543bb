//! Plain text of a Markdown body, read from the `pulldown-cmark` event stream.

use vstd::prelude::*;
use vstd::string::StringExecFns;
use pulldown_cmark::{Event, Options, Parser, Tag};
use crate::text::push_char;

verus! {

/// One event of the Markdown event stream, with the text it carries when
/// the plain-text extraction reads it.
#[derive(Debug)]
pub enum MdEvent {
    /// Start of an element; `code_block` tells a (fenced or indented) code
    /// block from any other element
    Start { code_block: bool },
    /// End of an element, told apart in the same way
    End { code_block: bool },
    Text(String),
    Code(String),
    Html,
    FootnoteReference,
    SoftBreak,
    HardBreak,
    Rule,
    TaskListMarker,
}

/// Mathematical model of an [`MdEvent`].
pub enum MdEventView {
    Start { code_block: bool },
    End { code_block: bool },
    Text(Seq<char>),
    Code(Seq<char>),
    Html,
    FootnoteReference,
    SoftBreak,
    HardBreak,
    Rule,
    TaskListMarker,
}

impl View for MdEvent {
    type V = MdEventView;

    open spec fn view(&self) -> MdEventView {
        match self {
            MdEvent::Start { code_block } => MdEventView::Start { code_block: *code_block },
            MdEvent::End { code_block } => MdEventView::End { code_block: *code_block },
            MdEvent::Text(t) => MdEventView::Text(t@),
            MdEvent::Code(t) => MdEventView::Code(t@),
            MdEvent::Html => MdEventView::Html,
            MdEvent::FootnoteReference => MdEventView::FootnoteReference,
            MdEvent::SoftBreak => MdEventView::SoftBreak,
            MdEvent::HardBreak => MdEventView::HardBreak,
            MdEvent::Rule => MdEventView::Rule,
            MdEvent::TaskListMarker => MdEventView::TaskListMarker,
        }
    }
}

/// The models of a sequence of events.
pub open spec fn event_views(es: Seq<MdEvent>) -> Seq<MdEventView> {
    es.map_values(|e: MdEvent| e@)
}

/// The event stream `pulldown-cmark` produces for `content` with tables,
/// strikethrough and task lists enabled.
pub uninterp spec fn markdown_events(content: Seq<char>) -> Seq<MdEventView>;

/// Calls `pulldown_cmark::Parser::new_ext` with tables, strikethrough and task
/// lists enabled, and converts each event it yields (a start or end tag is
/// told apart as code block or other); the result is the named sequence
/// `markdown_events(content)`.
#[verifier::external_body]
fn markdown_event_stream(content: &str) -> (r: Vec<MdEvent>)
    ensures
        event_views(r@) == markdown_events(content@),
{
    let on = Options::ENABLE_TABLES | Options::ENABLE_STRIKETHROUGH | Options::ENABLE_TASKLISTS;
    Parser::new_ext(content, on).map(|e| match e {
        Event::Start(t) => MdEvent::Start { code_block: matches!(t, Tag::CodeBlock(_)) },
        Event::End(t) => MdEvent::End { code_block: matches!(t, Tag::CodeBlock(_)) },
        Event::Text(t) => MdEvent::Text(t.into_string()),
        Event::Code(t) => MdEvent::Code(t.into_string()),
        Event::Html(_) => MdEvent::Html,
        Event::FootnoteReference(_) => MdEvent::FootnoteReference,
        Event::SoftBreak => MdEvent::SoftBreak,
        Event::HardBreak => MdEvent::HardBreak,
        Event::Rule => MdEvent::Rule,
        Event::TaskListMarker(_) => MdEvent::TaskListMarker,
    }).collect()
}

/// What one event contributes to the plain text: its text for text and
/// inline code, a newline for line breaks and rules, nothing otherwise.
pub open spec fn event_text(e: MdEventView) -> Seq<char> {
    match e {
        MdEventView::Text(t) => t,
        MdEventView::Code(t) => t,
        MdEventView::SoftBreak => seq!['\n'],
        MdEventView::HardBreak => seq!['\n'],
        MdEventView::Rule => seq!['\n'],
        _ => Seq::<char>::empty(),
    }
}

/// Whether the events `es` leave the reader inside a code block: the last
/// code-block start or end among them is a start.
pub open spec fn in_code_block_after(es: Seq<MdEventView>) -> bool
    decreases es.len(),
{
    if es.len() == 0 {
        false
    } else {
        match es.last() {
            MdEventView::Start { code_block: true } => true,
            MdEventView::End { code_block: true } => false,
            _ => in_code_block_after(es.drop_last()),
        }
    }
}

/// The plain text of a sequence of events: the contributions of the events
/// outside code blocks, concatenated; text inside a code block contributes
/// nothing.
pub open spec fn events_text(es: Seq<MdEventView>) -> Seq<char>
    decreases es.len(),
{
    if es.len() == 0 {
        Seq::<char>::empty()
    } else {
        events_text(es.drop_last()) + (if in_code_block_after(es.drop_last()) {
            Seq::<char>::empty()
        } else {
            event_text(es.last())
        })
    }
}

/// The plain text of the Markdown `content`.
pub open spec fn markdown_text(content: Seq<char>) -> Seq<char> {
    events_text(markdown_events(content))
}

/// Concatenates the plain text that the events contribute; see [`events_text`].
pub fn text_of_events(events: &Vec<MdEvent>) -> (r: String)
    ensures
        r@ == events_text(event_views(events@)),
{
    let mut out = String::new();
    let mut in_code = false;
    let mut i: usize = 0;
    while i < events.len()
        invariant
            i <= events.len(),
            out@ == events_text(event_views(events@.take(i as int))),
            in_code == in_code_block_after(event_views(events@.take(i as int))),
        decreases events.len() - i,
    {
        let ghost before = out@;
        let ghost was_in = in_code;
        if !in_code {
            match &events[i] {
                MdEvent::Text(t) => out.append(t.as_str()),
                MdEvent::Code(t) => out.append(t.as_str()),
                MdEvent::SoftBreak => push_char(&mut out, '\n'),
                MdEvent::HardBreak => push_char(&mut out, '\n'),
                MdEvent::Rule => push_char(&mut out, '\n'),
                _ => {},
            }
        }
        match &events[i] {
            MdEvent::Start { code_block: true } => in_code = true,
            MdEvent::End { code_block: true } => in_code = false,
            _ => {},
        }
        proof {
            let es = event_views(events@.take(i + 1));
            assert(es.drop_last() =~= event_views(events@.take(i as int)));
            assert(es.last() == events@[i as int]@);
            if was_in {
                assert(out@ =~= before);
            } else {
                assert(out@ =~= before + event_text(events@[i as int]@));
            }
        }
        i += 1;
    }
    proof {
        assert(events@.take(events@.len() as int) =~= events@);
    }
    out
}

/// The plain text of a Markdown body; see [`markdown_text`].
pub fn extract_text(content: &str) -> (r: String)
    ensures
        r@ == markdown_text(content@),
{
    let events = markdown_event_stream(content);
    text_of_events(&events)
}


/// Extending the events extends the plain text: outside a code block, a text
/// or inline-code event adds its text, a soft break, hard break or rule adds
/// one newline, and any other event adds nothing; inside a code block no
/// event adds anything. A code-block start enters a code block and its end
/// leaves it.
pub proof fn law_events_text_step(es: Seq<MdEventView>, e: MdEventView)
    ensures
        events_text(es.push(e)) == events_text(es) + (if in_code_block_after(es) {
            Seq::<char>::empty()
        } else {
            match e {
                MdEventView::Text(t) => t,
                MdEventView::Code(t) => t,
                MdEventView::SoftBreak => seq!['\n'],
                MdEventView::HardBreak => seq!['\n'],
                MdEventView::Rule => seq!['\n'],
                _ => Seq::<char>::empty(),
            }
        }),
        e matches MdEventView::Start { code_block } && code_block ==> in_code_block_after(es.push(e)),
        e matches MdEventView::End { code_block } && code_block ==> !in_code_block_after(es.push(e)),
        !(e is Start || e is End) ==> in_code_block_after(es.push(e)) == in_code_block_after(es),
{
    assert(es.push(e).drop_last() =~= es);
}

/// The plain text holds exactly one character per newline-making event, in
/// particular a newline for every hard break outside code blocks: text on
/// both sides of a line break never runs together.
pub proof fn law_break_separates(es: Seq<MdEventView>, t1: Seq<char>, t2: Seq<char>)
    requires
        !in_code_block_after(es),
    ensures
        events_text(es.push(MdEventView::Text(t1)).push(MdEventView::HardBreak).push(
            MdEventView::Text(t2),
        )) == events_text(es) + t1 + seq!['\n'] + t2,
        events_text(es.push(MdEventView::Text(t1)).push(MdEventView::SoftBreak).push(
            MdEventView::Text(t2),
        )) == events_text(es) + t1 + seq!['\n'] + t2,
{
    let a = es.push(MdEventView::Text(t1));
    law_events_text_step(es, MdEventView::Text(t1));
    law_events_text_step(a, MdEventView::HardBreak);
    law_events_text_step(a.push(MdEventView::HardBreak), MdEventView::Text(t2));
    law_events_text_step(a, MdEventView::SoftBreak);
    law_events_text_step(a.push(MdEventView::SoftBreak), MdEventView::Text(t2));
    assert(events_text(a.push(MdEventView::HardBreak).push(MdEventView::Text(t2))) =~= events_text(es) + t1
        + seq!['\n'] + t2);
    assert(events_text(a.push(MdEventView::SoftBreak).push(MdEventView::Text(t2))) =~= events_text(es) + t1
        + seq!['\n'] + t2);
}

} // verus!
