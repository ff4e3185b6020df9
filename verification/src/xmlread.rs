//! XML events of a document part, as plain values: what the document and
//! style-sheet readers look at of the tags, attributes and text that
//! quick-xml finds.

use vstd::prelude::*;
use crate::text::{chars_of, seq_eq};
use crate::styles::byte_boundary;
use quick_xml::events::{BytesStart, Event};
use quick_xml::Reader;

verus! {

#[verifier::external_type_specification]
#[verifier::external_body]
#[verifier::reject_recursive_types(R)]
pub struct ExXmlReader<R>(quick_xml::Reader<R>);

/// An attribute of a tag: its qualified name, and its value normalized as
/// XML 1.0 prescribes (`None` where the value cannot be normalized, such as
/// an unknown entity).
#[derive(Debug, Clone)]
pub struct XmlAttr {
    pub key: String,
    pub value: Option<String>,
}

/// A start or empty tag: its qualified name and its attributes in document
/// order (`None` for an attribute that could not be read).
#[derive(Debug, Clone)]
pub struct XmlTag {
    pub name: String,
    pub attrs: Vec<Option<XmlAttr>>,
}

/// One event of an XML reader.
#[derive(Debug, Clone)]
pub enum XmlEvent {
    Start(XmlTag),
    Empty(XmlTag),
    /// An end tag, by its qualified name.
    End(String),
    /// Character data, as read (entities not yet replaced).
    Text(String),
    /// Anything else (comments, declarations, entity references, ...).
    Other,
    /// The end of the document.
    Eof,
    /// A syntax error, with its message.
    Error(String),
}

/// What a reader hands out before its tags are converted: a start or empty
/// tag as its text (name and attributes) with the length of its name.
#[derive(Debug, Clone)]
pub enum XmlToken {
    Start(String, usize),
    Empty(String, usize),
    End(String),
    Text(String),
    Other,
    Eof,
    Error(String),
}

/// A tag token whose name length ends a whole character of its text.
pub open spec fn tag_token_sound(t: XmlToken) -> bool {
    match t {
        XmlToken::Start(c, n) => byte_boundary(c@, n as int),
        XmlToken::Empty(c, n) => byte_boundary(c@, n as int),
        _ => true,
    }
}

/// What quick-xml's `Reader::read_event` gives on its `k`-th call (from 0)
/// on a reader made by `Reader::from_str(xml)` with `trim_text(trim)`, as a
/// token of plain values. The reader reads only `xml`, so this depends on
/// these arguments alone.
pub uninterp spec fn xml_token_at(xml: Seq<char>, trim: bool, k: nat) -> XmlToken;

/// What `BytesStart::from_content(content, name_len)` gives for its name and
/// its attributes (each with `Attribute::normalized_value` for XML 1.0).
pub uninterp spec fn xml_tag_of(content: Seq<char>, name_len: usize) -> XmlTag;

/// A quick-xml reader over a document text, with (as ghost values) the text,
/// whether it trims white space around text, and how many events it has
/// given.
pub struct XmlCursor<'a> {
    reader: Reader<&'a [u8]>,
    source: Ghost<Seq<char>>,
    trimmed: Ghost<bool>,
    given: Ghost<nat>,
}

impl<'a> XmlCursor<'a> {
    pub closed spec fn source(&self) -> Seq<char> {
        self.source@
    }

    pub closed spec fn trimmed(&self) -> bool {
        self.trimmed@
    }

    pub closed spec fn given(&self) -> nat {
        self.given@
    }
}

/// `quick_xml::Reader::from_str`: a reader at the start of `xml`, not
/// trimming text (quick-xml's default configuration).
#[verifier::external_body]
fn xml_reader<'a>(xml: &'a str) -> (r: XmlCursor<'a>)
    ensures
        r.source() == xml@,
        !r.trimmed(),
        r.given() == 0,
{
    XmlCursor { reader: Reader::from_str(xml), source: Ghost(xml@), trimmed: Ghost(false), given: Ghost(0) }
}

/// `quick_xml::reader::Config::trim_text`, before any event is read: whether
/// white space around text is dropped.
#[verifier::external_body]
fn xml_trim_text(c: &mut XmlCursor, trim: bool)
    requires
        old(c).given() == 0,
    ensures
        final(c).source() == old(c).source(),
        final(c).trimmed() == trim,
        final(c).given() == 0,
{
    c.reader.config_mut().trim_text(trim);
}

/// `quick_xml::Reader::read_event`: the next event, with a tag as its text
/// and name length, the end tag's name and the text as strings. It is the
/// event of that position of the text. A tag's name is a slice of its text
/// (`BytesStart::name` slices the text at the name length), so the name
/// length ends a whole character of the text.
#[verifier::external_body]
fn xml_next(c: &mut XmlCursor) -> (r: XmlToken)
    ensures
        r == xml_token_at(old(c).source(), old(c).trimmed(), old(c).given()),
        tag_token_sound(r),
        final(c).source() == old(c).source(),
        final(c).trimmed() == old(c).trimmed(),
        final(c).given() == old(c).given() + 1,
{
    match c.reader.read_event() {
        Ok(Event::Start(e)) => XmlToken::Start(String::from(&*e), e.name().as_ref().len()),
        Ok(Event::Empty(e)) => XmlToken::Empty(String::from(&*e), e.name().as_ref().len()),
        Ok(Event::End(e)) => XmlToken::End(String::from(e.name().as_ref())),
        Ok(Event::Text(t)) => XmlToken::Text(String::from(&*t)),
        Ok(Event::Eof) => XmlToken::Eof,
        Ok(_) => XmlToken::Other,
        Err(e) => XmlToken::Error(e.to_string()),
    }
}

/// `quick_xml::events::BytesStart::from_content`, then `name` and
/// `attributes`, each attribute with `Attribute::normalized_value` for XML
/// 1.0: the tag as plain values. `name` slices the text at `name_len`,
/// which must therefore end a whole character of it.
#[verifier::external_body]
fn xml_tag(content: &str, name_len: usize) -> (r: XmlTag)
    requires
        byte_boundary(content@, name_len as int),
    ensures
        r == xml_tag_of(content@, name_len),
{
    let e = BytesStart::from_content(content, name_len);
    let mut attrs = Vec::new();
    for a in e.attributes() {
        attrs.push(match a {
            Ok(a) => Some(XmlAttr {
                key: String::from(a.key.as_ref()),
                value: a.normalized_value(quick_xml::XmlVersion::Implicit1_0).ok().map(|v| v.into_owned()),
            }),
            Err(_) => None,
        });
    }
    XmlTag { name: String::from(e.name().as_ref()), attrs }
}

/// The event of a token: a tag's text and name length become the tag.
pub open spec fn event_of_token(t: XmlToken) -> XmlEvent {
    match t {
        XmlToken::Start(c, n) => XmlEvent::Start(xml_tag_of(c@, n)),
        XmlToken::Empty(c, n) => XmlEvent::Empty(xml_tag_of(c@, n)),
        XmlToken::End(n) => XmlEvent::End(n),
        XmlToken::Text(t) => XmlEvent::Text(t),
        XmlToken::Other => XmlEvent::Other,
        XmlToken::Eof => XmlEvent::Eof,
        XmlToken::Error(m) => XmlEvent::Error(m),
    }
}

/// The `k`-th event quick-xml reads from `xml`.
pub open spec fn xml_event_at(xml: Seq<char>, trim: bool, k: nat) -> XmlEvent {
    event_of_token(xml_token_at(xml, trim, k))
}

/// The events read from the `k`-th on: up to and including the first end of
/// the document or syntax error, and no further than one event per
/// character and the end.
pub open spec fn xml_events_from(xml: Seq<char>, trim: bool, k: nat) -> Seq<XmlEvent>
    decreases xml.len() - k,
{
    let e = xml_event_at(xml, trim, k);
    if ends_reading(e) || k >= xml.len() {
        seq![e]
    } else {
        seq![e] + xml_events_from(xml, trim, k + 1)
    }
}

/// The events of `xml` that the readers look at.
pub open spec fn xml_events(xml: Seq<char>, trim: bool) -> Seq<XmlEvent> {
    xml_events_from(xml, trim, 0)
}

/// An event after which no more are read: the end of the document or a
/// syntax error.
pub open spec fn ends_reading(e: XmlEvent) -> bool {
    e is Eof || e is Error
}

/// The events of `xml`, read up to and including the end of the document or
/// the first syntax error; at most one event per character and the end.
pub fn read_xml_events(xml: &str, trim_text: bool) -> (r: Vec<XmlEvent>)
    ensures
        r@ == xml_events(xml@, trim_text),
        1 <= r@.len() <= xml@.len() + 1,
        forall|i: int| 0 <= i < r@.len() - 1 ==> !ends_reading(#[trigger] r@[i]),
        ends_reading(r@.last()) || r@.len() == xml@.len() + 1,
{
    let mut reader = xml_reader(xml);
    xml_trim_text(&mut reader, trim_text);
    let limit = xml.unicode_len();
    let mut events: Vec<XmlEvent> = Vec::new();
    let mut k: usize = 0;
    loop
        invariant_except_break
            k <= limit,
            limit == xml@.len(),
            events@.len() == k,
            reader.source() == xml@,
            reader.trimmed() == trim_text,
            reader.given() == k,
            events@ + xml_events_from(xml@, trim_text, k as nat) == xml_events(xml@, trim_text),
            forall|i: int| 0 <= i < events@.len() ==> !ends_reading(#[trigger] events@[i]),
        ensures
            events@ == xml_events(xml@, trim_text),
            1 <= events@.len() <= limit + 1,
            forall|i: int| 0 <= i < events@.len() - 1 ==> !ends_reading(#[trigger] events@[i]),
            ends_reading(events@.last()) || events@.len() == limit + 1,
        decreases limit - k,
    {
        let ev = match xml_next(&mut reader) {
            XmlToken::Start(c, n) => XmlEvent::Start(xml_tag(c.as_str(), n)),
            XmlToken::Empty(c, n) => XmlEvent::Empty(xml_tag(c.as_str(), n)),
            XmlToken::End(n) => XmlEvent::End(n),
            XmlToken::Text(t) => XmlEvent::Text(t),
            XmlToken::Other => XmlEvent::Other,
            XmlToken::Eof => XmlEvent::Eof,
            XmlToken::Error(m) => XmlEvent::Error(m),
        };
        assert(ev == xml_event_at(xml@, trim_text, k as nat));
        let done = match &ev {
            XmlEvent::Eof => true,
            XmlEvent::Error(_) => true,
            _ => false,
        };
        let ghost before = events@;
        events.push(ev);
        assert(forall|i: int| 0 <= i < before.len() ==> events@[i] == before[i]);
        if done || k == limit {
            assert(xml_events_from(xml@, trim_text, k as nat) == seq![ev]);
            assert(events@ =~= before + seq![ev]);
            break;
        }
        assert(xml_events_from(xml@, trim_text, k as nat) == seq![ev] + xml_events_from(
            xml@,
            trim_text,
            (k + 1) as nat,
        ));
        assert(events@ + xml_events_from(xml@, trim_text, (k + 1) as nat) =~= before + (seq![ev]
            + xml_events_from(xml@, trim_text, (k + 1) as nat)));
        k += 1;
    }
    events
}

// ---------------------------------------------------------------------------
// Names and attributes
// ---------------------------------------------------------------------------
/// The first `:` of a name at or after `k`.
pub open spec fn first_colon_char(s: Seq<char>, k: int) -> Option<int>
    decreases s.len() - k,
{
    if k < 0 || k >= s.len() {
        None
    } else if s[k] == ':' {
        Some(k)
    } else {
        first_colon_char(s, k + 1)
    }
}

/// The local part of a qualified name: what follows its first `:`.
pub open spec fn spec_local_part(name: Seq<char>) -> Seq<char> {
    match first_colon_char(name, 0) {
        Some(i) => name.skip(i + 1),
        None => name,
    }
}

/// The local part of a qualified name (`w:pPr` gives `pPr`).
pub fn local_part(name: &str) -> (r: Vec<char>)
    ensures
        r@ == spec_local_part(name@),
{
    let cs = chars_of(name);
    let mut k: usize = 0;
    while k < cs.len()
        invariant
            k <= cs.len(),
            cs@ == name@,
            first_colon_char(name@, 0) == first_colon_char(name@, k as int),
        decreases cs.len() - k,
    {
        if cs[k] == ':' {
            let mut out: Vec<char> = Vec::new();
            let mut j = k + 1;
            while j < cs.len()
                invariant
                    k < j <= cs.len(),
                    out@ == cs@.subrange(k + 1, j as int),
                decreases cs.len() - j,
            {
                out.push(cs[j]);
                j += 1;
            }
            assert(out@ =~= name@.skip(k + 1));
            return out;
        }
        k += 1;
    }
    cs
}

/// Whether a tag's or attribute's local name is `lit`.
pub fn is_named(local: &[char], lit: &str) -> (r: bool)
    ensures
        r == (local@ == lit@),
{
    let l = chars_of(lit);
    seq_eq(local, l.as_slice())
}

/// An optional string by its characters.
pub open spec fn opt_chars(o: Option<String>) -> Option<Seq<char>> {
    match o {
        Some(s) => Some(s@),
        None => None,
    }
}

/// The first readable attribute at or after `k` whose local name is `name`.
pub open spec fn attr_index(attrs: Seq<Option<XmlAttr>>, name: Seq<char>, k: int) -> Option<int>
    decreases attrs.len() - k,
{
    if k < 0 || k >= attrs.len() {
        None
    } else if attrs[k] is Some && spec_local_part(attrs[k].unwrap().key@) == name {
        Some(k)
    } else {
        attr_index(attrs, name, k + 1)
    }
}

/// The value of the first attribute with local name `name`; `None` when
/// there is none or its value cannot be normalized.
pub open spec fn spec_attr_val(tag: XmlTag, name: Seq<char>) -> Option<Seq<char>> {
    match attr_index(tag.attrs@, name, 0) {
        Some(i) => opt_chars(tag.attrs@[i].unwrap().value),
        None => None,
    }
}

/// The value of a tag's attribute, looked up by local name.
pub fn attr_val(tag: &XmlTag, name: &str) -> (r: Option<String>)
    ensures
        opt_chars(r) == spec_attr_val(*tag, name@),
{
    let want = chars_of(name);
    let mut k: usize = 0;
    while k < tag.attrs.len()
        invariant
            k <= tag.attrs.len(),
            want@ == name@,
            attr_index(tag.attrs@, name@, 0) == attr_index(tag.attrs@, name@, k as int),
        decreases tag.attrs.len() - k,
    {
        match &tag.attrs[k] {
            Some(a) => {
                let local = local_part(a.key.as_str());
                if seq_eq(local.as_slice(), want.as_slice()) {
                    return match &a.value {
                        Some(v) => Some(v.clone()),
                        None => None,
                    };
                }
            },
            None => {},
        }
        k += 1;
    }
    None
}

// ---------------------------------------------------------------------------
// Entities in text
// ---------------------------------------------------------------------------
/// What `quick_xml::escape::unescape` makes of a text (`None` for an
/// unknown or unterminated entity).
pub uninterp spec fn xml_unescaped(s: Seq<char>) -> Option<Seq<char>>;

/// `quick_xml::escape::unescape`: replaces the predefined entities and
/// character references. Text without `&` comes back unchanged.
#[verifier::external_body]
pub(crate) fn unescape_text(s: &str) -> (r: Option<String>)
    ensures
        opt_chars(r) == xml_unescaped(s@),
        !s@.contains('&') ==> opt_chars(r) == Some(s@),
{
    quick_xml::escape::unescape(s).ok().map(|v| v.into_owned())
}

} // verus!
