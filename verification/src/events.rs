//! The event stream of an XML text, read with `quick_xml`, and the text each event
//! is written back as.
use vstd::prelude::*;
use crate::text::{append_str, chars_of};
use quick_xml::events::Event::{CData, Comment, Decl, DocType, Empty, End, Eof, Start, Text, PI};

verus! {

#[verifier::external_type_specification]
#[verifier::external_body]
#[verifier::reject_recursive_types(R)]
pub struct ExReader<R>(quick_xml::reader::Reader<R>);

/// One event of an XML text, with the raw content the reader gives for it: for a
/// start tag its name, then its content (name and attributes); for an end tag its
/// name; for an empty-element tag its content; for the others their raw text.
#[derive(Debug, Clone, PartialEq, Eq)]
pub enum XmlEvent {
    Start(String, String),
    End(String),
    Empty(String),
    Text(String),
    CData(String),
    Comment(String),
    Decl(String),
    PI(String),
    DocType(String),
    Eof,
}

/// The text an event is written back as, framed as `quick_xml`'s `Writer` frames it
/// (without indentation): `<content>`, `</name>`, `<content/>`, text as is,
/// `<![CDATA[…]]>`, `<!--…-->`, `<?…?>`, `<!DOCTYPE …>`, and nothing for the end.
pub open spec fn event_xml(e: XmlEvent) -> Seq<char> {
    match e {
        XmlEvent::Start(_, content) => "<"@ + content@ + ">"@,
        XmlEvent::End(name) => "</"@ + name@ + ">"@,
        XmlEvent::Empty(c) => "<"@ + c@ + "/>"@,
        XmlEvent::Text(c) => c@,
        XmlEvent::CData(c) => "<![CDATA["@ + c@ + "]]>"@,
        XmlEvent::Comment(c) => "<!--"@ + c@ + "-->"@,
        XmlEvent::Decl(c) => "<?"@ + c@ + "?>"@,
        XmlEvent::PI(c) => "<?"@ + c@ + "?>"@,
        XmlEvent::DocType(c) => "<!DOCTYPE "@ + c@ + ">"@,
        XmlEvent::Eof => Seq::empty(),
    }
}

/// The texts of a run of events, concatenated.
pub open spec fn events_xml(evs: Seq<XmlEvent>) -> Seq<char>
    decreases evs.len(),
{
    if evs.len() == 0 {
        Seq::empty()
    } else {
        events_xml(evs.drop_last()) + event_xml(evs.last())
    }
}

/// Writes an event back (see `event_xml`).
pub fn write_event(e: &XmlEvent, out: &mut Vec<char>)
    ensures
        final(out)@ == old(out)@ + event_xml(*e),
{
    match e {
        XmlEvent::Start(_, content) => {
            append_str(out, "<");
            append_str(out, content.as_str());
            append_str(out, ">");
        },
        XmlEvent::End(name) => {
            append_str(out, "</");
            append_str(out, name.as_str());
            append_str(out, ">");
        },
        XmlEvent::Empty(c) => {
            append_str(out, "<");
            append_str(out, c.as_str());
            append_str(out, "/>");
        },
        XmlEvent::Text(c) => {
            append_str(out, c.as_str());
        },
        XmlEvent::CData(c) => {
            append_str(out, "<![CDATA[");
            append_str(out, c.as_str());
            append_str(out, "]]>");
        },
        XmlEvent::Comment(c) => {
            append_str(out, "<!--");
            append_str(out, c.as_str());
            append_str(out, "-->");
        },
        XmlEvent::Decl(c) => {
            append_str(out, "<?");
            append_str(out, c.as_str());
            append_str(out, "?>");
        },
        XmlEvent::PI(c) => {
            append_str(out, "<?");
            append_str(out, c.as_str());
            append_str(out, "?>");
        },
        XmlEvent::DocType(c) => {
            append_str(out, "<!DOCTYPE ");
            append_str(out, c.as_str());
            append_str(out, ">");
        },
        XmlEvent::Eof => {},
    }
    assert(final(out)@ =~= old(out)@ + event_xml(*e));
}

/// Writes a run of events back (see `events_xml`).
pub fn write_events(evs: &[XmlEvent], out: &mut Vec<char>)
    ensures
        final(out)@ == old(out)@ + events_xml(evs@),
{
    let ghost base = old(out)@;
    let mut i: usize = 0;
    while i < evs.len()
        invariant
            i <= evs@.len(),
            out@ == base + events_xml(evs@.take(i as int)),
        decreases evs@.len() - i,
    {
        let ghost pre = evs@.take(i + 1);
        assert(pre.drop_last() =~= evs@.take(i as int));
        write_event(&evs[i], out);
        i += 1;
    }
    assert(evs@.take(evs@.len() as int) =~= evs@);
}

/// An event as the reader gives it: the raw bytes of its parts (see `XmlEvent`).
#[derive(Debug, Clone, PartialEq, Eq)]
pub enum RawEvent {
    Start(Vec<u8>, Vec<u8>),
    End(Vec<u8>),
    Empty(Vec<u8>),
    Text(Vec<u8>),
    CData(Vec<u8>),
    Comment(Vec<u8>),
    Decl(Vec<u8>),
    PI(Vec<u8>),
    DocType(Vec<u8>),
    Eof,
}

/// Whether a read ends the reading: the end event or a reader error.
pub open spec fn ends_reading(e: Result<RawEvent, Seq<char>>) -> bool {
    match e {
        Ok(raw) => raw is Eof,
        Err(_) => true,
    }
}

/// Whether reads run up to one that ends the reading, and no further.
pub open spec fn read_to_end(s: Seq<Result<RawEvent, Seq<char>>>) -> bool {
    &&& s.len() > 0
    &&& ends_reading(s.last())
    &&& forall|i: int| 0 <= i < s.len() - 1 ==> !ends_reading(#[trigger] s[i])
}

/// What the next reads of a `quick_xml` reader over a byte slice give, in order, up to
/// and including the first that ends the reading: each event, or the `Display` text of
/// a reader error.
pub uninterp spec fn reader_pending(r: quick_xml::reader::Reader<&[u8]>) -> Seq<Result<RawEvent, Seq<char>>>;

/// What `quick_xml` reads from a text, text kept untrimmed (see `reader_pending`).
pub uninterp spec fn text_events(text: Seq<char>) -> Seq<Result<RawEvent, Seq<char>>>;

/// Calls `Reader::from_str` and keeps text untrimmed (`trim_text(false)`). Trusted: the
/// reader will read `text_events` of the text, and its reading ends (a text holds
/// finitely many events).
#[verifier::external_body]
fn xml_reader<'a>(text: &'a str) -> (r: quick_xml::reader::Reader<&'a [u8]>)
    ensures
        reader_pending(r) == text_events(text@),
        read_to_end(reader_pending(r)),
{
    let mut reader = quick_xml::reader::Reader::from_str(text);
    reader.config_mut().trim_text(false);
    reader
}

/// Calls `Reader::read_event` and gives the event's raw bytes, one variant for each,
/// or the error's `Display` text. Trusted: it gives the reader's next read and, when
/// that read does not end the reading, leaves the ones after it. Nothing is said of the
/// reader after the end event or an error (it may go on reading).
#[verifier::external_body]
fn read_event(reader: &mut quick_xml::reader::Reader<&[u8]>) -> (r: Result<RawEvent, String>)
    requires
        reader_pending(*old(reader)).len() > 0,
    ensures
        match reader_pending(*old(reader))[0] {
            Ok(e) => r == Ok::<RawEvent, String>(e),
            Err(m) => r matches Err(x) && x@ == m,
        },
        !ends_reading(reader_pending(*old(reader))[0]) ==> reader_pending(*final(reader))
            == reader_pending(*old(reader)).drop_first(),
{
    match reader.read_event() {
        Err(e) => Err(e.to_string()),
        Ok(ev) => Ok(match ev {
            Start(e) => RawEvent::Start(e.name().0.to_vec(), e.to_vec()),
            End(e) => RawEvent::End(e.to_vec()),
            Empty(e) => RawEvent::Empty(e.to_vec()),
            Text(e) => RawEvent::Text(e.to_vec()),
            CData(e) => RawEvent::CData(e.to_vec()),
            Comment(e) => RawEvent::Comment(e.to_vec()),
            Decl(e) => RawEvent::Decl(e.to_vec()),
            PI(e) => RawEvent::PI(e.to_vec()),
            DocType(e) => RawEvent::DocType(e.to_vec()),
            Eof => RawEvent::Eof,
        }),
    }
}

/// What `String::from_utf8_lossy` makes of bytes, taken as an owned string.
pub uninterp spec fn lossy_string(b: Seq<u8>) -> String;

/// Calls `String::from_utf8_lossy` and takes the text (the bytes come from a string, so
/// nothing is replaced).
#[verifier::external_body]
fn lossy_text(b: &[u8]) -> (r: String)
    ensures
        r == lossy_string(b@),
{
    String::from_utf8_lossy(b).into_owned()
}

/// An event with its parts as text.
pub open spec fn decoded(raw: RawEvent) -> XmlEvent {
    match raw {
        RawEvent::Start(n, c) => XmlEvent::Start(lossy_string(n@), lossy_string(c@)),
        RawEvent::End(n) => XmlEvent::End(lossy_string(n@)),
        RawEvent::Empty(c) => XmlEvent::Empty(lossy_string(c@)),
        RawEvent::Text(c) => XmlEvent::Text(lossy_string(c@)),
        RawEvent::CData(c) => XmlEvent::CData(lossy_string(c@)),
        RawEvent::Comment(c) => XmlEvent::Comment(lossy_string(c@)),
        RawEvent::Decl(c) => XmlEvent::Decl(lossy_string(c@)),
        RawEvent::PI(c) => XmlEvent::PI(lossy_string(c@)),
        RawEvent::DocType(c) => XmlEvent::DocType(lossy_string(c@)),
        RawEvent::Eof => XmlEvent::Eof,
    }
}

/// An event with its parts as text (see `decoded`).
fn decode_event(raw: RawEvent) -> (r: XmlEvent)
    ensures
        r == decoded(raw),
{
    match raw {
        RawEvent::Start(n, c) => XmlEvent::Start(lossy_text(n.as_slice()), lossy_text(c.as_slice())),
        RawEvent::End(n) => XmlEvent::End(lossy_text(n.as_slice())),
        RawEvent::Empty(c) => XmlEvent::Empty(lossy_text(c.as_slice())),
        RawEvent::Text(c) => XmlEvent::Text(lossy_text(c.as_slice())),
        RawEvent::CData(c) => XmlEvent::CData(lossy_text(c.as_slice())),
        RawEvent::Comment(c) => XmlEvent::Comment(lossy_text(c.as_slice())),
        RawEvent::Decl(c) => XmlEvent::Decl(lossy_text(c.as_slice())),
        RawEvent::PI(c) => XmlEvent::PI(lossy_text(c.as_slice())),
        RawEvent::DocType(c) => XmlEvent::DocType(lossy_text(c.as_slice())),
        RawEvent::Eof => XmlEvent::Eof,
    }
}

/// The message when a text gives more events than it has characters.
pub open spec fn msg_too_many_events() -> Seq<char> {
    "XML: слишком много событий"@
}

/// Reading from read `i` on, with reads up to `n` allowed: the events decoded, up to and
/// including the end event; a reader error stops the reading with its text; a read past
/// `n` is refused with `msg_too_many_events`.
pub open spec fn read_from(src: Seq<Result<RawEvent, Seq<char>>>, i: int, n: int) -> (
    Seq<XmlEvent>,
    Option<Seq<char>>,
)
    decreases n + 1 - i,
{
    if i < 0 || i > n || i >= src.len() {
        (Seq::empty(), Some(msg_too_many_events()))
    } else {
        match src[i] {
            Err(m) => (Seq::empty(), Some(m)),
            Ok(raw) => if raw is Eof {
                (seq![decoded(raw)], None)
            } else if i == n {
                (seq![decoded(raw)], Some(msg_too_many_events()))
            } else {
                let rest = read_from(src, i + 1, n);
                (seq![decoded(raw)] + rest.0, rest.1)
            },
        }
    }
}

/// The events of a text and the error that stopped the reading, if any: the reads of
/// `text_events`, at most one per character plus the end (see `read_from`).
pub open spec fn document_events(xml: Seq<char>) -> (Seq<XmlEvent>, Option<Seq<char>>) {
    read_from(text_events(xml), 0, xml.len() as int)
}

/// Reads the events of an XML text (see `document_events`): the events up to and
/// including the end, or up to a reader error, whose message is returned beside the
/// events read before it. Every event takes at least one character of the text, so the
/// reading stops after at most one event per character plus the end.
pub fn read_xml_events(xml: &str) -> (r: (Vec<XmlEvent>, Option<String>))
    ensures
        r.0@ == document_events(xml@).0,
        match document_events(xml@).1 {
            None => r.1 is None,
            Some(m) => r.1 matches Some(x) && x@ == m,
        },
{
    let n = chars_of(xml).len();
    let mut reader = xml_reader(xml);
    let ghost src = text_events(xml@);
    let ghost whole = read_from(src, 0, n as int);
    let mut events: Vec<XmlEvent> = Vec::new();
    let mut steps: usize = 0;
    while steps <= n
        invariant
            n == xml@.len(),
            src == text_events(xml@),
            whole == read_from(src, 0, n as int),
            read_to_end(src),
            reader_pending(reader) == src.skip(steps as int),
            forall|i: int| 0 <= i < steps ==> !ends_reading(#[trigger] src[i]),
            whole.0 == events@ + read_from(src, steps as int, n as int).0,
            whole.1 == read_from(src, steps as int, n as int).1,
        decreases n + 1 - steps,
    {
        assert(steps < src.len()) by {
            if steps >= src.len() {
                assert(!ends_reading(src[src.len() - 1]));
            }
        }
        assert(src.skip(steps as int)[0] == src[steps as int]);
        match read_event(&mut reader) {
            Ok(raw) => {
                let ghost rw = raw;
                let ev = decode_event(raw);
                let end = match ev {
                    XmlEvent::Eof => true,
                    _ => false,
                };
                events.push(ev);
                if end {
                    assert(rw is Eof);
                    assert(whole.0 =~= events@);
                    return (events, None);
                }
                assert(src.skip(steps as int).drop_first() =~= src.skip(steps + 1));
                if steps == n {
                    assert(whole.0 =~= events@);
                    return (events, Some(crate::error::owned("XML: слишком много событий")));
                }
                assert(whole.0 =~= events@ + read_from(src, steps + 1, n as int).0);
            },
            Err(e) => {
                assert(whole.0 =~= events@);
                return (events, Some(e));
            },
        }
        steps += 1;
    }
    (events, Some(crate::error::owned("XML: слишком много событий")))
}

} // verus!
