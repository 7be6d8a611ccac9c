//! XML tokenising of manifest text through quick-xml.
use vstd::prelude::*;
use quick_xml::events::Event;
use crate::dat::{events_view, EventView, XmlAttr, XmlEvent};

verus! {

/// A manifest whose XML is malformed: where the reader stopped, and why.
pub struct ParseError {
    pub position: u64,
    pub detail: String,
}

/// The events that quick-xml reads from a document with text trimming on,
/// up to its end (start, empty, end and text events with names and
/// attribute values read as UTF-8 and text unescaped, every other event as
/// `Other`), or `None` where it reports an error.
pub uninterp spec fn xml_tokens(xml: Seq<char>) -> Option<Seq<EventView>>;

#[verifier::external_type_specification]
#[verifier::external_body]
pub struct ExEvent<'a>(quick_xml::events::Event<'a>);

#[verifier::external_type_specification]
#[verifier::external_body]
pub struct ExBytesStart<'a>(quick_xml::events::BytesStart<'a>);

/// Relies on `BytesStart::name` and `BytesStart::attributes`: the element
/// name and its well-formed attributes in document order, read as UTF-8.
#[verifier::external_body]
fn start_fields(b: &quick_xml::events::BytesStart) -> (String, Vec<XmlAttr>) {
    let s = |x: &[u8]| String::from_utf8_lossy(x).into_owned();
    let attrs = b.attributes().flatten().map(|a| XmlAttr { key: s(a.key.as_ref()), value: s(&a.value) });
    (s(b.name().as_ref()), attrs.collect())
}

/// Relies on quick-xml's event variants: start, empty, end and text events
/// carry over (text unescaped); every other variant becomes `Other`.
#[verifier::external_body]
fn event_of(e: Event) -> XmlEvent {
    match e {
        Event::Start(b) => {
            let (name, attrs) = start_fields(&b);
            XmlEvent::Start { name, attrs }
        },
        Event::Empty(b) => {
            let (name, attrs) = start_fields(&b);
            XmlEvent::Empty { name, attrs }
        },
        Event::End(b) => XmlEvent::End { name: String::from_utf8_lossy(b.name().as_ref()).into_owned() },
        Event::Text(t) => XmlEvent::Text { text: t.unescape().unwrap_or_default().into_owned() },
        _ => XmlEvent::Other,
    }
}

/// Relies on quick-xml's `Reader::read_event` over a string, with text
/// trimming on: the events of the document in order (converted by
/// `event_of`), up to its end, or the position and description of the
/// first error.
#[verifier::external_body]
pub(crate) fn xml_events(xml: &str) -> (r: Result<Vec<XmlEvent>, ParseError>)
    ensures
        r is Ok <==> xml_tokens(xml@) is Some,
        r matches Ok(v) ==> xml_tokens(xml@) == Some(events_view(v@)),
{
    let mut rd = quick_xml::Reader::from_str(xml);
    rd.config_mut().trim_text(true);
    let mut out = Vec::new();
    loop {
        match rd.read_event() {
            Ok(Event::Eof) => return Ok(out),
            Ok(e) => out.push(event_of(e)),
            Err(e) => return Err(ParseError { position: rd.error_position(), detail: format!("{:?}", e) }),
        }
    }
}

} // verus!
