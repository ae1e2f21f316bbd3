//! Reading XML text into the tree. The tokenizer and namespace resolver of
//! `quick_xml` produce the events; the verified builder turns the event
//! sequence into prolog, root element and epilog.
use vstd::prelude::*;
use quick_xml::events::attributes::{Attribute as XmlAttribute, Attributes};
use quick_xml::events::{BytesCData, BytesPI, BytesRef, BytesStart, BytesText, Event};
use quick_xml::name::ResolveResult;
use quick_xml::reader::NsReader;
use crate::document::{lemma_document_view, Document, DocumentView, DEFAULT_MAX_XML_BYTES, DEFAULT_MAX_XML_DEPTH};
use crate::model::{lemma_children_view, lemma_nodes_view_push, nodes_view, Attribute, AttributeView, Element, ElementView, Error, ErrorView, Node, NodeView};
use crate::text::{all_whitespace, concat, is_blank, owned, push_char, spec_split_qname, split_qname};

verus! {

#[verifier::external_type_specification]
#[verifier::external_body]
#[verifier::reject_recursive_types(R)]
pub struct ExNsReader<R>(NsReader<R>);

#[verifier::external_type_specification]
#[verifier::external_body]
pub struct ExEvent<'i>(Event<'i>);

#[verifier::external_type_specification]
#[verifier::external_body]
pub struct ExBytesStart<'i>(BytesStart<'i>);

#[verifier::external_type_specification]
#[verifier::external_body]
pub struct ExBytesText<'i>(BytesText<'i>);

#[verifier::external_type_specification]
#[verifier::external_body]
pub struct ExBytesCData<'i>(BytesCData<'i>);

#[verifier::external_type_specification]
#[verifier::external_body]
pub struct ExBytesPI<'i>(BytesPI<'i>);

#[verifier::external_type_specification]
#[verifier::external_body]
pub struct ExBytesRef<'i>(BytesRef<'i>);

#[verifier::external_type_specification]
#[verifier::external_body]
pub struct ExAttributes<'a>(Attributes<'a>);

#[verifier::external_type_specification]
#[verifier::external_body]
pub struct ExAttrError(quick_xml::events::attributes::AttrError);

#[verifier::external_type_specification]
#[verifier::external_body]
pub struct ExXmlAttribute<'a>(XmlAttribute<'a>);

/// How the reader resolved the prefix of an element or attribute name.
pub enum Resolution {
    Unbound,
    Bound(String),
    Unknown(String),
}

/// A resolution as plain values: no prefix binding applies, the bound
/// namespace, or the prefix that no declaration binds.
pub enum ResolutionView {
    Unbound,
    Bound(Seq<char>),
    Unknown(Seq<char>),
}

impl View for Resolution {
    type V = ResolutionView;

    open spec fn view(&self) -> ResolutionView {
        match self {
            Resolution::Unbound => ResolutionView::Unbound,
            Resolution::Bound(ns) => ResolutionView::Bound(ns@),
            Resolution::Unknown(p) => ResolutionView::Unknown(p@),
        }
    }
}

/// What reading one attribute gives: its qualified name with its normalized
/// value or the normalization error's message, or the message of the error
/// that reading the attribute gave.
pub type AttrRead = Result<(Seq<char>, Result<Seq<char>, Seq<char>>), Seq<char>>;

/// A start tag as plain values: qualified name, local name, and what reading
/// its attributes in turn gives.
pub type TagView = (Seq<char>, Seq<char>, Seq<AttrRead>);

/// An event of the reader as plain values.
pub enum EventView {
    Start(TagView),
    End,
    Empty(TagView),
    Text(Seq<char>),
    CData(Seq<char>),
    Comment(Seq<char>),
    Declaration,
    ProcessingInstruction(Seq<char>),
    DocType,
    Reference(Seq<char>),
    Eof,
}

/// What one call of the reader gives: the resolution of the event's name and
/// the event, or the message of the reader's error.
pub type ReadItem = Result<(ResolutionView, EventView), Seq<char>>;

/// Whether reading stops at `item`: an error or the end of input.
pub open spec fn is_terminal(item: ReadItem) -> bool {
    item is Err || item matches Ok((_, EventView::Eof))
}

/// The events that `NsReader::read_resolved_event` gives in turn on a reader
/// made by `NsReader::from_str(xml)`, up to and including the first error or
/// end of input.
pub uninterp spec fn xml_events(xml: Seq<char>) -> Seq<ReadItem>;

/// How the reader over `xml`, after handing out `n` events, resolves the
/// attribute name `key` (`NamespaceResolver::resolve_attribute`).
pub uninterp spec fn attribute_scope(xml: Seq<char>, n: nat, key: Seq<char>) -> ResolutionView;

/// The text a reader reads and how many events it has handed out.
pub uninterp spec fn reader_state(r: NsReader<&[u8]>) -> (Seq<char>, nat);

/// What an event holds, as plain values.
pub uninterp spec fn event_view(e: Event) -> EventView;

/// What a start tag holds, as plain values.
pub uninterp spec fn tag_view(s: BytesStart) -> TagView;

/// The text of a text or comment event, without entity references.
pub uninterp spec fn text_view(t: BytesText) -> Seq<char>;

/// The content of a CDATA section.
pub uninterp spec fn cdata_view(c: BytesCData) -> Seq<char>;

/// The content of a processing instruction.
pub uninterp spec fn pi_view(p: BytesPI) -> Seq<char>;

/// The name inside a general entity reference `&name;`.
pub uninterp spec fn reference_view(r: BytesRef) -> Seq<char>;

/// What an attribute iterator still yields, in order.
pub uninterp spec fn attributes_pending(it: Attributes) -> Seq<AttrRead>;

/// An attribute's qualified name and its normalized value, or the message of
/// the error that normalizing the value gives.
pub uninterp spec fn attribute_view(a: XmlAttribute) -> (Seq<char>, Result<Seq<char>, Seq<char>>);

/// The plain view of what a call of the reader returned.
pub open spec fn read_item(r: Result<(Resolution, Event), String>) -> ReadItem {
    match r {
        Ok((res, ev)) => Ok((res@, event_view(ev))),
        Err(m) => Err(m@),
    }
}

/// The kinds of event that the reader produces, with their payloads.
pub enum RawEvent<'i> {
    Start(BytesStart<'i>),
    End,
    Empty(BytesStart<'i>),
    Text(BytesText<'i>),
    CData(BytesCData<'i>),
    Comment(BytesText<'i>),
    Declaration,
    ProcessingInstruction(BytesPI<'i>),
    DocType,
    Reference(BytesRef<'i>),
    Eof,
}

/// `NsReader::from_str`: a namespace-aware reader over `xml`, which keeps
/// whitespace in text. The events it will give end with the first error or
/// the end of input, and there is at least one.
#[verifier::external_body]
fn xml_reader<'i>(xml: &'i str) -> (r: NsReader<&'i [u8]>)
    ensures
        reader_state(r) == (xml@, 0nat),
        xml_events(reader_state(r).0).len() > 0,
        is_terminal(xml_events(reader_state(r).0).last()),
        forall|i: int| 0 <= i < xml_events(reader_state(r).0).len() - 1
            ==> !is_terminal(#[trigger] xml_events(reader_state(r).0)[i]),
{
    NsReader::from_str(xml)
}

/// `NsReader::read_resolved_event`: the next event and the namespace of its
/// name, or the reader's error message.
#[verifier::external_body]
fn read_event<'i>(reader: &mut NsReader<&'i [u8]>) -> (r: Result<(Resolution, Event<'i>), String>)
    requires
        reader_state(*old(reader)).1 < xml_events(reader_state(*old(reader)).0).len(),
    ensures
        reader_state(*final(reader)) == (reader_state(*old(reader)).0, reader_state(*old(reader)).1 + 1),
        read_item(r) == xml_events(reader_state(*old(reader)).0)[reader_state(*old(reader)).1 as int],
{
    match reader.read_resolved_event() {
        Ok((ResolveResult::Unbound, event)) => Ok((Resolution::Unbound, event)),
        Ok((ResolveResult::Bound(ns), event)) => Ok((Resolution::Bound(ns.as_ref().to_owned()), event)),
        Ok((ResolveResult::Unknown(prefix), event)) => Ok((Resolution::Unknown(prefix), event)),
        Err(error) => Err(error.to_string()),
    }
}

/// Tells the variants of `quick_xml::events::Event` apart.
#[verifier::external_body]
fn raw_event<'i>(event: Event<'i>) -> (r: RawEvent<'i>)
    ensures
        event_view(event) == match r {
            RawEvent::Start(s) => EventView::Start(tag_view(s)),
            RawEvent::End => EventView::End,
            RawEvent::Empty(s) => EventView::Empty(tag_view(s)),
            RawEvent::Text(t) => EventView::Text(text_view(t)),
            RawEvent::CData(c) => EventView::CData(cdata_view(c)),
            RawEvent::Comment(t) => EventView::Comment(text_view(t)),
            RawEvent::Declaration => EventView::Declaration,
            RawEvent::ProcessingInstruction(p) => EventView::ProcessingInstruction(pi_view(p)),
            RawEvent::DocType => EventView::DocType,
            RawEvent::Reference(x) => EventView::Reference(reference_view(x)),
            RawEvent::Eof => EventView::Eof,
        },
{
    match event {
        Event::Start(e) => RawEvent::Start(e),
        Event::End(_) => RawEvent::End,
        Event::Empty(e) => RawEvent::Empty(e),
        Event::Text(e) => RawEvent::Text(e),
        Event::CData(e) => RawEvent::CData(e),
        Event::Comment(e) => RawEvent::Comment(e),
        Event::Decl(_) => RawEvent::Declaration,
        Event::PI(e) => RawEvent::ProcessingInstruction(e),
        Event::DocType(_) => RawEvent::DocType,
        Event::GeneralRef(e) => RawEvent::Reference(e),
        Event::Eof => RawEvent::Eof,
    }
}

/// `BytesText::into_inner`: the text as read, without entity references.
#[verifier::external_body]
fn text_content(text: BytesText<'_>) -> (r: String)
    ensures
        r@ == text_view(text),
{
    text.into_inner().into_owned()
}

/// `BytesCData::into_inner`: the content of a CDATA section.
#[verifier::external_body]
fn cdata_content(cdata: BytesCData<'_>) -> (r: String)
    ensures
        r@ == cdata_view(cdata),
{
    cdata.into_inner().into_owned()
}

/// `BytesPI::into_inner`: the content of a processing instruction.
#[verifier::external_body]
fn pi_content(pi: BytesPI<'_>) -> (r: String)
    ensures
        r@ == pi_view(pi),
{
    pi.into_inner().into_owned()
}

/// The name inside a general entity reference `&name;` (`Deref` of
/// `BytesRef`).
#[verifier::external_body]
fn reference_name(reference: &BytesRef<'_>) -> (r: String)
    ensures
        r@ == reference_view(*reference),
{
    (**reference).to_owned()
}

/// What `BytesRef::resolve_char_ref` gives for the reference `&{name};`:
/// the character of a `#`-prefixed decimal or `#x`-prefixed hexadecimal code,
/// or the message of the error that rejects it.
pub uninterp spec fn char_reference_result(name: Seq<char>) -> Result<Option<char>, Seq<char>>;

/// The result of a character-reference resolution, as plain values.
pub open spec fn char_reference_view(r: Result<Option<char>, String>) -> Result<Option<char>, Seq<char>> {
    match r {
        Ok(c) => Ok(c),
        Err(m) => Err(m@),
    }
}

/// The value of a digit in base 10 or 16 (hexadecimal digits in either case).
pub open spec fn digit_value(c: char, radix: nat) -> Option<nat> {
    if '0' <= c && c <= '9' {
        Some((c as nat - '0' as nat) as nat)
    } else if radix == 16 && 'a' <= c && c <= 'f' {
        Some((c as nat - 'a' as nat + 10) as nat)
    } else if radix == 16 && 'A' <= c && c <= 'F' {
        Some((c as nat - 'A' as nat + 10) as nat)
    } else {
        None
    }
}

/// The number that `d` writes in base `radix`, if `d` is a nonempty run of
/// its digits.
pub open spec fn digits_value(d: Seq<char>, radix: nat) -> Option<nat>
    decreases d.len(),
{
    if d.len() == 0 {
        None
    } else {
        match digit_value(d.last(), radix) {
            None => None,
            Some(x) => if d.len() == 1 {
                Some(x)
            } else {
                match digits_value(d.drop_last(), radix) {
                    Some(p) => Some(p * radix + x),
                    None => None,
                }
            },
        }
    }
}

/// The code that a character reference named `#digits` or `#xhexdigits`
/// gives, if its digits are well formed.
pub open spec fn char_reference_code(name: Seq<char>) -> Option<nat> {
    if name.len() >= 2 && name[1] == 'x' {
        digits_value(name.skip(2), 16)
    } else {
        digits_value(name.skip(1), 10)
    }
}

/// Whether `v` is the code of a character that a reference may name: not
/// zero, not a surrogate, at most `0x10FFFF`.
pub open spec fn referable_code(v: nat) -> bool {
    0 < v && v <= 0x10FFFF && !(0xD800 <= v && v <= 0xDFFF)
}

/// `BytesRef::resolve_char_ref` on the reference named `name`: `Ok(None)`
/// unless `name` starts with `#`; otherwise the character whose decimal or
/// `x`-prefixed hexadecimal code follows, where that code names a character
/// other than NUL, and an error whose message is named otherwise.
#[verifier::external_body]
fn char_reference(name: &str) -> (r: Result<Option<char>, String>)
    ensures
        name@.len() == 0 || name@[0] != '#' ==> r matches Ok(None),
        name@.len() > 0 && name@[0] == '#' ==> match char_reference_code(name@) {
            Some(v) => if referable_code(v) {
                r matches Ok(Some(c)) && c as nat == v
            } else {
                r is Err
            },
            None => r is Err,
        },
        char_reference_view(r) == char_reference_result(name@),
{
    BytesRef::new(name).resolve_char_ref().map_err(|error| error.to_string())
}

/// The replacement text of the five predefined XML entities.
pub open spec fn spec_predefined_entity(name: Seq<char>) -> Option<Seq<char>> {
    if name == "lt"@ {
        Some("<"@)
    } else if name == "gt"@ {
        Some(">"@)
    } else if name == "amp"@ {
        Some("&"@)
    } else if name == "apos"@ {
        Some("'"@)
    } else if name == "quot"@ {
        Some("\""@)
    } else {
        None
    }
}

/// `quick_xml::escape::resolve_predefined_entity`, which without the
/// `escape-html` feature resolves exactly the five predefined XML entities.
#[verifier::external_body]
fn predefined_entity(name: &str) -> (r: Option<String>)
    ensures
        r matches Some(s) ==> spec_predefined_entity(name@) == Some(s@),
        r is None ==> spec_predefined_entity(name@) is None,
{
    quick_xml::escape::resolve_predefined_entity(name).map(|s| s.to_owned())
}

/// `BytesStart::name` and `BytesStart::local_name`: the qualified name of a
/// start tag and its local part, which `QName::local_name` takes from after
/// the first `:`.
#[verifier::external_body]
fn start_names(start: &BytesStart<'_>) -> (r: (String, String))
    ensures
        r.0@ == tag_view(*start).0,
        r.1@ == tag_view(*start).1,
        r.1@ == spec_split_qname(r.0@).1,
{
    (start.name().as_ref().to_owned(), start.local_name().as_ref().to_owned())
}

/// `BytesStart::attributes`: an iterator over the attributes of a start tag,
/// which rejects duplicate names.
#[verifier::external_body]
fn start_attributes<'b>(start: &'b BytesStart<'_>) -> (r: Attributes<'b>)
    ensures
        attributes_pending(r) == tag_view(*start).2,
{
    start.attributes()
}

/// `Attributes::next`: the next attribute, or the message of the error that
/// reading it gave; `None` once nothing is pending.
#[verifier::external_body]
fn next_attribute<'b>(attributes: &mut Attributes<'b>) -> (r: Option<Result<XmlAttribute<'b>, String>>)
    ensures
        attributes_pending(*old(attributes)).len() == 0 ==> r is None,
        attributes_pending(*old(attributes)).len() > 0 ==> {
            &&& attributes_pending(*final(attributes)) == attributes_pending(*old(attributes)).drop_first()
            &&& match attributes_pending(*old(attributes))[0] {
                Ok(read) => r matches Some(Ok(a)) && attribute_view(a) == read,
                Err(m) => r matches Some(Err(x)) && x@ == m,
            }
        },
{
    match attributes.next() {
        Some(Ok(attribute)) => Some(Ok(attribute)),
        Some(Err(error)) => Some(Err(error.to_string())),
        None => None,
    }
}

/// The qualified name of an attribute, as written.
#[verifier::external_body]
fn attribute_key(attribute: &XmlAttribute<'_>) -> (r: String)
    ensures
        r@ == attribute_view(*attribute).0,
{
    attribute.key.as_ref().to_owned()
}

/// `Attribute::normalized_value` under XML 1.0: the value with references
/// resolved and whitespace normalized, or the error's message.
#[verifier::external_body]
fn attribute_value(attribute: &XmlAttribute<'_>) -> (r: Result<String, String>)
    ensures
        match r {
            Ok(v) => attribute_view(*attribute).1 == Ok::<Seq<char>, Seq<char>>(v@),
            Err(m) => attribute_view(*attribute).1 == Err::<Seq<char>, Seq<char>>(m@),
        },
{
    match attribute.normalized_value(quick_xml::XmlVersion::Implicit1_0) {
        Ok(value) => Ok(value.into_owned()),
        Err(error) => Err(error.to_string()),
    }
}

/// `NamespaceResolver::resolve_attribute` at the reader's position.
#[verifier::external_body]
fn attribute_resolution(reader: &NsReader<&[u8]>, attribute: &XmlAttribute<'_>) -> (r: Resolution)
    ensures
        r@ == attribute_scope(reader_state(*reader).0, reader_state(*reader).1, attribute_view(*attribute).0),
{
    match reader.resolver().resolve_attribute(attribute.key).0 {
        ResolveResult::Unbound => Resolution::Unbound,
        ResolveResult::Bound(ns) => Resolution::Bound(ns.as_ref().to_owned()),
        ResolveResult::Unknown(prefix) => Resolution::Unknown(prefix),
    }
}

/// One item of a document as the builder consumes it.
pub enum XmlToken {
    /// An opening tag; the element carries its attributes and no children.
    Start(Element),
    /// A self-closing tag.
    Empty(Element),
    /// A closing tag.
    End,
    /// Character data.
    Text(String),
    /// A general entity or character reference: its name as written and the
    /// text that it stands for.
    Reference { name: String, text: String },
    CData(String),
    Comment(String),
    ProcessingInstruction(String),
    /// The XML declaration.
    Declaration,
    /// A document type declaration.
    DocType,
}

pub enum XmlTokenView {
    Start(ElementView),
    Empty(ElementView),
    End,
    Text(Seq<char>),
    Reference { name: Seq<char>, text: Seq<char> },
    CData(Seq<char>),
    Comment(Seq<char>),
    ProcessingInstruction(Seq<char>),
    Declaration,
    DocType,
}

impl View for XmlToken {
    type V = XmlTokenView;

    open spec fn view(&self) -> XmlTokenView {
        match self {
            XmlToken::Start(e) => XmlTokenView::Start(e@),
            XmlToken::Empty(e) => XmlTokenView::Empty(e@),
            XmlToken::End => XmlTokenView::End,
            XmlToken::Text(t) => XmlTokenView::Text(t@),
            XmlToken::Reference { name, text } => XmlTokenView::Reference { name: name@, text: text@ },
            XmlToken::CData(t) => XmlTokenView::CData(t@),
            XmlToken::Comment(t) => XmlTokenView::Comment(t@),
            XmlToken::ProcessingInstruction(t) => XmlTokenView::ProcessingInstruction(t@),
            XmlToken::Declaration => XmlTokenView::Declaration,
            XmlToken::DocType => XmlTokenView::DocType,
        }
    }
}

/// The builder's state: the open elements, innermost last, the nodes before
/// and after the root, and the root once it is closed.
pub struct BuildState {
    pub stack: Seq<ElementView>,
    pub prolog: Seq<NodeView>,
    pub root: Option<ElementView>,
    pub epilog: Seq<NodeView>,
}

/// Nothing read yet.
pub open spec fn initial_state() -> BuildState {
    BuildState { stack: Seq::empty(), prolog: Seq::empty(), root: None, epilog: Seq::empty() }
}

/// `e` with `n` appended to its children.
pub open spec fn with_child(e: ElementView, n: NodeView) -> ElementView {
    ElementView { children: e.children.push(n), ..e }
}

/// `e` with text `t` added at the end: joined to a trailing text node, or as
/// a new one.
pub open spec fn with_trailing_text(e: ElementView, t: Seq<char>) -> ElementView {
    if e.children.len() > 0 && e.children.last() is Text {
        ElementView {
            children: e.children.drop_last().push(NodeView::Text(e.children.last()->Text_0 + t)),
            ..e
        }
    } else {
        with_child(e, NodeView::Text(t))
    }
}

/// `st` with `n` added to the innermost open element.
pub open spec fn add_to_top(st: BuildState, n: NodeView) -> BuildState {
    BuildState { stack: st.stack.drop_last().push(with_child(st.stack.last(), n)), ..st }
}

/// A completed element goes into the innermost open element, or becomes the
/// root; a second root is an error.
pub open spec fn attach(st: BuildState, e: ElementView) -> Result<BuildState, ErrorView> {
    if st.stack.len() > 0 {
        Ok(add_to_top(st, NodeView::Element(e)))
    } else if st.root is Some {
        Err(ErrorView::Xml("document has multiple root elements"@))
    } else {
        Ok(BuildState { root: Some(e), ..st })
    }
}

/// A comment or processing instruction goes into the innermost open element,
/// else after the root once there is one, else before it.
pub open spec fn place_misc(st: BuildState, n: NodeView) -> BuildState {
    if st.stack.len() > 0 {
        add_to_top(st, n)
    } else if st.root is Some {
        BuildState { epilog: st.epilog.push(n), ..st }
    } else {
        BuildState { prolog: st.prolog.push(n), ..st }
    }
}

/// The effect of one token.
pub open spec fn build_step(st: BuildState, t: XmlTokenView) -> Result<BuildState, ErrorView> {
    match t {
        XmlTokenView::Start(e) => if st.stack.len() >= DEFAULT_MAX_XML_DEPTH {
            Err(ErrorView::MaxDepthExceeded { maximum: DEFAULT_MAX_XML_DEPTH as nat })
        } else {
            Ok(BuildState { stack: st.stack.push(e), ..st })
        },
        XmlTokenView::Empty(e) => if st.stack.len() >= DEFAULT_MAX_XML_DEPTH {
            Err(ErrorView::MaxDepthExceeded { maximum: DEFAULT_MAX_XML_DEPTH as nat })
        } else {
            attach(st, e)
        },
        XmlTokenView::End => if st.stack.len() == 0 {
            Err(ErrorView::Xml("unexpected closing element"@))
        } else {
            attach(BuildState { stack: st.stack.drop_last(), ..st }, st.stack.last())
        },
        XmlTokenView::Text(t) => if st.stack.len() > 0 {
            Ok(BuildState {
                stack: st.stack.drop_last().push(with_trailing_text(st.stack.last(), t)),
                ..st
            })
        } else if all_whitespace(t) {
            Ok(st)
        } else {
            Err(ErrorView::Xml("text outside the root element"@))
        },
        XmlTokenView::Reference { name, text } => if st.stack.len() > 0 {
            Ok(add_to_top(st, NodeView::Reference { name, text }))
        } else if all_whitespace(text) {
            Ok(st)
        } else {
            Err(ErrorView::Xml("text outside the root element"@))
        },
        XmlTokenView::CData(t) => if st.stack.len() > 0 {
            Ok(add_to_top(st, NodeView::CData(t)))
        } else {
            Ok(st)
        },
        XmlTokenView::Comment(t) => Ok(place_misc(st, NodeView::Comment(t))),
        XmlTokenView::ProcessingInstruction(t) => Ok(place_misc(st, NodeView::ProcessingInstruction(t))),
        XmlTokenView::Declaration => Ok(st),
        XmlTokenView::DocType => Err(ErrorView::Xml("DOCTYPE declarations are not supported in IDM documents"@)),
    }
}

/// Text outside every open element, written out or as a reference, is
/// ignored when it is whitespace, before the root as well as after it; any
/// other text there is an error.
pub proof fn law_whitespace_outside_the_root_is_ignored(st: BuildState, t: Seq<char>)
    requires
        st.stack.len() == 0,
    ensures
        all_whitespace(t) ==> build_step(st, XmlTokenView::Text(t)) == Ok::<BuildState, ErrorView>(st),
        !all_whitespace(t) ==> build_step(st, XmlTokenView::Text(t)) is Err,
        forall|name: Seq<char>| all_whitespace(t) ==> #[trigger] build_step(st, XmlTokenView::Reference { name, text: t })
            == Ok::<BuildState, ErrorView>(st),
{
}

/// The state after all of `ts`, or the first error.
pub open spec fn build_run(ts: Seq<XmlTokenView>) -> Result<BuildState, ErrorView>
    decreases ts.len(),
{
    if ts.len() == 0 {
        Ok(initial_state())
    } else {
        match build_run(ts.drop_last()) {
            Ok(st) => build_step(st, ts.last()),
            Err(e) => Err(e),
        }
    }
}

/// Whitespace after a complete document, such as a final newline, leaves the
/// document that the tokens make unchanged.
pub proof fn law_trailing_whitespace_is_ignored(ts: Seq<XmlTokenView>, t: Seq<char>)
    requires
        all_whitespace(t),
        build_run(ts) matches Ok(st) && st.stack.len() == 0,
    ensures
        build_document(ts.push(XmlTokenView::Text(t))) == build_document(ts),
{
    assert(ts.push(XmlTokenView::Text(t)).drop_last() =~= ts);
    assert(ts.push(XmlTokenView::Text(t)).last() == XmlTokenView::Text(t));
}

/// At the end of input every element must be closed and there must be a root.
pub open spec fn build_finish(st: BuildState) -> Result<(Seq<NodeView>, ElementView, Seq<NodeView>), ErrorView> {
    if st.stack.len() > 0 {
        Err(ErrorView::Xml("unclosed element"@))
    } else {
        match st.root {
            Some(root) => Ok((st.prolog, root, st.epilog)),
            None => Err(ErrorView::Xml("document has no root element"@)),
        }
    }
}

/// Prolog, root and epilog of the document made of `ts`.
pub open spec fn build_document(ts: Seq<XmlTokenView>) -> Result<(Seq<NodeView>, ElementView, Seq<NodeView>), ErrorView> {
    match build_run(ts) {
        Ok(st) => build_finish(st),
        Err(e) => Err(e),
    }
}

/// The views of a sequence of tokens.
pub open spec fn tokens_view(ts: Seq<XmlToken>) -> Seq<XmlTokenView> {
    ts.map_values(|t: XmlToken| t@)
}

struct TreeBuilder {
    stack: Vec<Element>,
    prolog: Vec<Node>,
    root: Option<Element>,
    epilog: Vec<Node>,
}

impl View for TreeBuilder {
    type V = BuildState;

    closed spec fn view(&self) -> BuildState {
        BuildState {
            stack: self.stack@.map_values(|e: Element| e@),
            prolog: nodes_view(self.prolog@),
            root: match self.root {
                Some(e) => Some(e@),
                None => None,
            },
            epilog: nodes_view(self.epilog@),
        }
    }
}

impl TreeBuilder {
    fn new() -> (r: Self)
        ensures
            r@ == initial_state(),
    {
        let r = TreeBuilder { stack: Vec::new(), prolog: Vec::new(), root: None, epilog: Vec::new() };
        assert(r@.stack =~= Seq::<ElementView>::empty());
        assert(r@.prolog =~= Seq::<NodeView>::empty());
        assert(r@.epilog =~= Seq::<NodeView>::empty());
        r
    }

    fn depth(&self) -> (r: usize)
        ensures
            r == self@.stack.len(),
    {
        self.stack.len()
    }

    fn add_to_top(&mut self, n: Node)
        requires
            old(self)@.stack.len() > 0,
        ensures
            final(self)@ == add_to_top(old(self)@, n@),
    {
        let ghost before = self@;
        let mut top = self.stack.pop().unwrap();
        proof { lemma_children_view(top); }
        let ghost top_before = top@;
        let ghost old_children = top.children@;
        let ghost nv = n@;
        proof { lemma_nodes_view_push(old_children, n); }
        top.children.push(n);
        proof {
            lemma_children_view(top);
            assert(top@.children == top_before.children.push(nv));
            assert(top@ =~= with_child(top_before, nv));
        }
        self.stack.push(top);
        assert(self@.stack =~= before.stack.drop_last().push(with_child(before.stack.last(), nv)));
    }

    fn attach(&mut self, e: Element) -> (r: Result<(), Error>)
        ensures
            match attach(old(self)@, e@) {
                Ok(st) => r is Ok && final(self)@ == st,
                Err(x) => r matches Err(y) && y@ == x,
            },
    {
        if self.stack.len() > 0 {
            self.add_to_top(Node::Element(e));
            Ok(())
        } else if self.root.is_some() {
            Err(Error::Xml(owned("document has multiple root elements")))
        } else {
            self.root = Some(e);
            Ok(())
        }
    }

    fn place_misc(&mut self, n: Node)
        ensures
            final(self)@ == place_misc(old(self)@, n@),
    {
        let ghost before = self@;
        if self.stack.len() > 0 {
            self.add_to_top(n);
        } else if self.root.is_some() {
            self.epilog.push(n);
            assert(self@.epilog =~= before.epilog.push(n@));
        } else {
            self.prolog.push(n);
            assert(self@.prolog =~= before.prolog.push(n@));
        }
    }

    fn add_text(&mut self, t: String)
        requires
            old(self)@.stack.len() > 0,
        ensures
            final(self)@ == (BuildState {
                stack: old(self)@.stack.drop_last().push(with_trailing_text(old(self)@.stack.last(), t@)),
                ..old(self)@
            }),
    {
        let ghost before = self@;
        let mut top = self.stack.pop().unwrap();
        proof { lemma_children_view(top); }
        let ghost top_before = top@;
        let count = top.children.len();
        let last_is_text = count > 0 && match &top.children[count - 1] {
            Node::Text(_) => true,
            _ => false,
        };
        let ghost old_children = top.children@;
        if last_is_text {
            proof { lemma_nodes_view_push(old_children.drop_last(), old_children.last()); }
            assert(old_children.drop_last().push(old_children.last()) =~= old_children);
            match top.children.pop() {
                Some(Node::Text(mut existing)) => {
                    let ghost prior = existing@;
                    assert(old_children.last() == Node::Text(existing));
                    existing.append(t.as_str());
                    let merged = Node::Text(existing);
                    proof { lemma_nodes_view_push(old_children.drop_last(), merged); }
                    top.children.push(merged);
                    proof {
                        lemma_children_view(top);
                        assert(top_before.children.last() == NodeView::Text(prior));
                        assert(top@.children =~= top_before.children.drop_last().push(NodeView::Text(prior + t@)));
                    }
                },
                _ => {
                    assert(false);
                },
            }
        } else {
            let ghost tv = t@;
            let added = Node::Text(t);
            proof { lemma_nodes_view_push(old_children, added); }
            top.children.push(added);
            proof {
                lemma_children_view(top);
                assert(top@.children =~= top_before.children.push(NodeView::Text(tv)));
            }
        }
        proof {
            lemma_children_view(top);
            assert(top@ =~= with_trailing_text(top_before, t@));
        }
        self.stack.push(top);
        assert(self@.stack =~= before.stack.drop_last().push(with_trailing_text(before.stack.last(), t@)));
    }

    fn step(&mut self, t: XmlToken) -> (r: Result<(), Error>)
        ensures
            match build_step(old(self)@, t@) {
                Ok(st) => r is Ok && final(self)@ == st,
                Err(x) => r matches Err(y) && y@ == x,
            },
    {
        let ghost before = self@;
        match t {
            XmlToken::Start(e) => {
                if self.stack.len() >= DEFAULT_MAX_XML_DEPTH {
                    return Err(Error::MaxDepthExceeded { maximum: DEFAULT_MAX_XML_DEPTH });
                }
                let ghost ev = e@;
                self.stack.push(e);
                assert(self@.stack =~= before.stack.push(ev));
                Ok(())
            },
            XmlToken::Empty(e) => {
                if self.stack.len() >= DEFAULT_MAX_XML_DEPTH {
                    return Err(Error::MaxDepthExceeded { maximum: DEFAULT_MAX_XML_DEPTH });
                }
                self.attach(e)
            },
            XmlToken::End => {
                match self.stack.pop() {
                    Some(e) => {
                        assert(self@.stack =~= before.stack.drop_last());
                        self.attach(e)
                    },
                    None => Err(Error::Xml(owned("unexpected closing element"))),
                }
            },
            XmlToken::Text(text) => {
                if self.stack.len() > 0 {
                    self.add_text(text);
                    Ok(())
                } else if is_blank(text.as_str()) {
                    Ok(())
                } else {
                    Err(Error::Xml(owned("text outside the root element")))
                }
            },
            XmlToken::Reference { name, text } => {
                if self.stack.len() > 0 {
                    self.add_to_top(Node::Reference { name, text });
                    Ok(())
                } else if is_blank(text.as_str()) {
                    Ok(())
                } else {
                    Err(Error::Xml(owned("text outside the root element")))
                }
            },
            XmlToken::CData(text) => {
                if self.stack.len() > 0 {
                    self.add_to_top(Node::CData(text));
                }
                Ok(())
            },
            XmlToken::Comment(text) => {
                self.place_misc(Node::Comment(text));
                Ok(())
            },
            XmlToken::ProcessingInstruction(text) => {
                self.place_misc(Node::ProcessingInstruction(text));
                Ok(())
            },
            XmlToken::Declaration => Ok(()),
            XmlToken::DocType => Err(Error::Xml(owned("DOCTYPE declarations are not supported in IDM documents"))),
        }
    }

    fn finish(self, max_xml_bytes: usize) -> (r: Result<Document, Error>)
        ensures
            match build_finish(self@) {
                Ok((prolog, root, epilog)) => r matches Ok(d) && d@.prolog == prolog && d@.root == root
                    && d@.epilog == epilog && d@.max_xml_bytes == max_xml_bytes,
                Err(x) => r matches Err(y) && y@ == x,
            },
    {
        if self.stack.len() > 0 {
            return Err(Error::Xml(owned("unclosed element")));
        }
        match self.root {
            Some(root) => {
                let d = Document { prolog: self.prolog, root, epilog: self.epilog, max_xml_bytes };
                proof { lemma_document_view(d); }
                Ok(d)
            },
            None => Err(Error::Xml(owned("document has no root element"))),
        }
    }
}

/// The namespace of a resolved name; an unknown prefix is an error.
pub open spec fn namespace_of(r: ResolutionView) -> Result<Option<Seq<char>>, ErrorView> {
    match r {
        ResolutionView::Unbound => Ok(None),
        ResolutionView::Bound(ns) => Ok(Some(ns)),
        ResolutionView::Unknown(p) => Err(ErrorView::Xml("unknown namespace prefix `"@ + p + "`"@)),
    }
}

fn resolved_namespace(resolution: Resolution) -> (r: Result<Option<String>, Error>)
    ensures
        match namespace_of(resolution@) {
            Ok(ns) => r matches Ok(x) && crate::document::opt_chars(x) == ns,
            Err(e) => r matches Err(x) && x@ == e,
        },
{
    match resolution {
        Resolution::Unbound => Ok(None),
        Resolution::Bound(ns) => Ok(Some(ns)),
        Resolution::Unknown(prefix) => {
            let mut message = concat("unknown namespace prefix `", prefix.as_str());
            message.append("`");
            Err(Error::Xml(message))
        },
    }
}

/// Whether an attribute name declares a namespace: `xmlns` or `xmlns:*`.
pub open spec fn is_namespace_declaration(name: Seq<char>) -> bool {
    name == "xmlns"@ || (name.len() >= 6 && name.take(6) == "xmlns:"@)
}

fn declares_namespace(name: &str) -> (r: bool)
    ensures
        r == is_namespace_declaration(name@),
{
    if crate::text::str_eq(name, "xmlns") {
        return true;
    }
    let v = crate::text::to_chars(name);
    if v.len() < 6 {
        return false;
    }
    let head = crate::text::string_of_range(&v, 0, 6);
    assert(v@.subrange(0, 6) =~= v@.take(6));
    crate::text::str_eq(head.as_str(), "xmlns:")
}

/// The attribute that one read gives, read after `n` events of `xml`: a
/// namespace declaration belongs to the `xmlns` namespace; another attribute
/// takes the namespace of its prefix.
pub open spec fn attribute_from(xml: Seq<char>, n: nat, read: AttrRead) -> Result<AttributeView, ErrorView> {
    match read {
        Err(m) => Err(ErrorView::Xml(m)),
        Ok((key, value)) => {
            let ns = if is_namespace_declaration(key) {
                Ok(Some("http://www.w3.org/2000/xmlns/"@))
            } else {
                namespace_of(attribute_scope(xml, n, key))
            };
            match ns {
                Err(e) => Err(e),
                Ok(namespace) => match value {
                    Err(m) => Err(ErrorView::Xml(m)),
                    Ok(v) => Ok(AttributeView {
                        qualified_name: key,
                        local_name: spec_split_qname(key).1,
                        prefix: spec_split_qname(key).0,
                        namespace,
                        value: v,
                    }),
                },
            }
        },
    }
}

/// The attributes that `reads` give, in order, or the first error.
pub open spec fn attributes_from(xml: Seq<char>, n: nat, reads: Seq<AttrRead>) -> Result<Seq<AttributeView>, ErrorView>
    decreases reads.len(),
{
    if reads.len() == 0 {
        Ok(Seq::empty())
    } else {
        match attributes_from(xml, n, reads.drop_last()) {
            Err(e) => Err(e),
            Ok(prev) => match attribute_from(xml, n, reads.last()) {
                Err(e) => Err(e),
                Ok(a) => Ok(prev.push(a)),
            },
        }
    }
}

/// The element, without children, of the start tag `tag` read as event `n`
/// of `xml`, in namespace `namespace`.
pub open spec fn element_from(xml: Seq<char>, n: nat, namespace: Option<Seq<char>>, tag: TagView) -> Result<ElementView, ErrorView> {
    match attributes_from(xml, n, tag.2) {
        Err(e) => Err(e),
        Ok(attributes) => Ok(ElementView {
            qualified_name: tag.0,
            local_name: tag.1,
            prefix: spec_split_qname(tag.0).0,
            namespace,
            attributes,
            children: Seq::empty(),
        }),
    }
}

/// The element of a start tag, with its attributes in source order.
fn read_element(reader: &NsReader<&[u8]>, namespace: Option<String>, start: &BytesStart<'_>) -> (r: Result<Element, Error>)
    ensures
        match element_from(reader_state(*reader).0, reader_state(*reader).1, crate::document::opt_chars(namespace), tag_view(*start)) {
            Ok(e) => r matches Ok(x) && x@ == e,
            Err(e) => r matches Err(x) && x@ == e,
        },
{
    let ghost xml = reader_state(*reader).0;
    let ghost n = reader_state(*reader).1;
    let ghost reads = tag_view(*start).2;
    let (qualified_name, local_name) = start_names(start);
    let (prefix, _) = split_qname(qualified_name.as_str());
    let mut attributes: Vec<Attribute> = Vec::new();
    let mut it = start_attributes(start);
    let ghost mut i: int = 0;
    assert(reads.take(0) =~= Seq::<AttrRead>::empty());
    assert(attributes@.map_values(|a: Attribute| a@) =~= Seq::<AttributeView>::empty());
    loop
        invariant_except_break
            attributes_pending(it) == reads.skip(i),
        invariant
            0 <= i <= reads.len(),
            attributes_from(xml, n, reads.take(i)) == Ok::<Seq<AttributeView>, ErrorView>(attributes@.map_values(|a: Attribute| a@)),
            xml == reader_state(*reader).0,
            n == reader_state(*reader).1,
            reads == tag_view(*start).2,
        ensures
            i == reads.len(),
            attributes_from(xml, n, reads) == Ok::<Seq<AttributeView>, ErrorView>(attributes@.map_values(|a: Attribute| a@)),
        decreases attributes_pending(it).len(),
    {
        let ghost pending = attributes_pending(it);
        let next = next_attribute(&mut it);
        match next {
            None => {
                assert(pending.len() == 0);
                assert(reads.take(i) =~= reads);
                break;
            },
            Some(Err(message)) => {
                proof {
                    assert(reads.take(i + 1).drop_last() =~= reads.take(i));
                    assert(reads.take(i + 1).last() == reads[i]);
                    lemma_attributes_error_persists(xml, n, reads, i + 1);
                }
                return Err(Error::Xml(message));
            },
            Some(Ok(attribute)) => {
                proof {
                    assert(reads.take(i + 1).drop_last() =~= reads.take(i));
                    assert(reads.take(i + 1).last() == reads[i]);
                    assert(reads.skip(i).drop_first() =~= reads.skip(i + 1));
                }
                let qualified = attribute_key(&attribute);
                let (attribute_prefix, local) = split_qname(qualified.as_str());
                let attribute_namespace = if declares_namespace(qualified.as_str()) {
                    Some(owned("http://www.w3.org/2000/xmlns/"))
                } else {
                    match resolved_namespace(attribute_resolution(reader, &attribute)) {
                        Ok(ns) => ns,
                        Err(e) => {
                            proof { lemma_attributes_error_persists(xml, n, reads, i + 1); }
                            return Err(e);
                        },
                    }
                };
                let value = match attribute_value(&attribute) {
                    Ok(v) => v,
                    Err(message) => {
                        proof { lemma_attributes_error_persists(xml, n, reads, i + 1); }
                        return Err(Error::Xml(message));
                    },
                };
                let attribute = Attribute {
                    qualified_name: qualified,
                    local_name: local,
                    prefix: attribute_prefix,
                    namespace: attribute_namespace,
                    value,
                };
                let ghost av = attribute@;
                let ghost before = attributes@;
                attributes.push(attribute);
                proof {
                    assert(attributes@.map_values(|a: Attribute| a@) =~= before.map_values(|a: Attribute| a@).push(av));
                    i = i + 1;
                }
            },
        }
    }
    let e = Element { qualified_name, local_name, prefix, namespace, attributes, children: Vec::new() };
    proof { lemma_children_view(e); }
    assert(e@.children =~= Seq::<NodeView>::empty());
    Ok(e)
}

/// Once the attributes read so far hold an error, every longer run of reads
/// gives that error.
proof fn lemma_attributes_error_persists(xml: Seq<char>, n: nat, reads: Seq<AttrRead>, i: int)
    requires
        0 <= i <= reads.len(),
        attributes_from(xml, n, reads.take(i)) is Err,
    ensures
        attributes_from(xml, n, reads) == attributes_from(xml, n, reads.take(i)),
    decreases reads.len() - i,
{
    if i < reads.len() {
        assert(reads.take(i + 1).drop_last() =~= reads.take(i));
        lemma_attributes_error_persists(xml, n, reads, i + 1);
    } else {
        assert(reads.take(i) =~= reads);
    }
}

/// The text that the general entity reference `&name;` stands for: a
/// character reference, or one of the five predefined entities.
pub open spec fn reference_text(name: Seq<char>) -> Result<Seq<char>, ErrorView> {
    match char_reference_result(name) {
        Ok(Some(c)) => Ok(seq![c]),
        Err(m) => Err(ErrorView::Xml(m)),
        Ok(None) => match spec_predefined_entity(name) {
            Some(t) => Ok(t),
            None => Err(ErrorView::Xml("undefined entity reference `&"@ + name + ";`"@)),
        },
    }
}

fn resolve_reference(name: &str) -> (r: Result<String, Error>)
    ensures
        match reference_text(name@) {
            Ok(t) => r matches Ok(x) && x@ == t,
            Err(e) => r matches Err(x) && x@ == e,
        },
{
    match char_reference(name) {
        Ok(Some(c)) => {
            let mut t = String::new();
            push_char(&mut t, c);
            Ok(t)
        },
        Err(message) => Err(Error::Xml(message)),
        Ok(None) => match predefined_entity(name) {
            Some(t) => Ok(t),
            None => {
                let mut message = concat("undefined entity reference `&", name);
                message.append(";`");
                Err(Error::Xml(message))
            },
        },
    }
}

/// The token that event `ev`, read as event `n` of `xml` with its name in
/// `namespace`, gives while `depth` elements are open; a start or empty tag
/// beyond the nesting limit is refused before its attributes are read.
pub open spec fn token_of(xml: Seq<char>, n: nat, namespace: Option<Seq<char>>, ev: EventView, depth: nat) -> Result<XmlTokenView, ErrorView> {
    match ev {
        EventView::Start(tag) => if depth >= DEFAULT_MAX_XML_DEPTH {
            Err(ErrorView::MaxDepthExceeded { maximum: DEFAULT_MAX_XML_DEPTH as nat })
        } else {
            match element_from(xml, n, namespace, tag) {
                Ok(e) => Ok(XmlTokenView::Start(e)),
                Err(e) => Err(e),
            }
        },
        EventView::Empty(tag) => if depth >= DEFAULT_MAX_XML_DEPTH {
            Err(ErrorView::MaxDepthExceeded { maximum: DEFAULT_MAX_XML_DEPTH as nat })
        } else {
            match element_from(xml, n, namespace, tag) {
                Ok(e) => Ok(XmlTokenView::Empty(e)),
                Err(e) => Err(e),
            }
        },
        EventView::End => Ok(XmlTokenView::End),
        EventView::Text(t) => Ok(XmlTokenView::Text(t)),
        EventView::Reference(name) => match reference_text(name) {
            Ok(t) => Ok(XmlTokenView::Reference { name, text: t }),
            Err(e) => Err(e),
        },
        EventView::CData(t) => Ok(XmlTokenView::CData(t)),
        EventView::Comment(t) => Ok(XmlTokenView::Comment(t)),
        EventView::ProcessingInstruction(t) => Ok(XmlTokenView::ProcessingInstruction(t)),
        EventView::Declaration => Ok(XmlTokenView::Declaration),
        EventView::DocType => Ok(XmlTokenView::DocType),
        EventView::Eof => Ok(XmlTokenView::Declaration),
    }
}

/// Prolog, root and epilog of what reading `items[k..]` of `xml` makes from
/// builder state `st`: each event gives a token that the builder takes, until
/// the end of input or the first error.
pub open spec fn read_outcome(xml: Seq<char>, items: Seq<ReadItem>, k: nat, st: BuildState)
    -> Result<(Seq<NodeView>, ElementView, Seq<NodeView>), ErrorView>
    decreases items.len() - k,
{
    if k >= items.len() {
        Err(ErrorView::Xml("the reader ended without reaching the end of input"@))
    } else {
        match items[k as int] {
            Err(m) => Err(ErrorView::Xml(m)),
            Ok((resolution, ev)) => match namespace_of(resolution) {
                Err(e) => Err(e),
                Ok(namespace) => if ev is Eof {
                    build_finish(st)
                } else {
                    match token_of(xml, k + 1, namespace, ev, st.stack.len()) {
                        Err(e) => Err(e),
                        Ok(t) => match build_step(st, t) {
                            Err(e) => Err(e),
                            Ok(next) => read_outcome(xml, items, k + 1, next),
                        },
                    }
                },
            },
        }
    }
}

/// The document that parsing `xml` under the input limit `max` gives, or the
/// error; the limit is checked on the UTF-8 length by the caller.
pub open spec fn parse_outcome(xml: Seq<char>, max: nat) -> Result<DocumentView, ErrorView> {
    match read_outcome(xml, xml_events(xml), 0, initial_state()) {
        Ok((prolog, root, epilog)) => Ok(DocumentView { prolog, root, epilog, max_xml_bytes: max }),
        Err(e) => Err(e),
    }
}

/// The length in bytes of the UTF-8 encoding of `s`, as `str::len` gives it.
pub open spec fn utf8_len(s: Seq<char>) -> usize {
    vstd::utf8::encode_utf8(s).len() as usize
}

/// What parsing `xml` under the input limit `max` gives: the limit is checked
/// first, on the UTF-8 length.
pub open spec fn parse_limited(xml: Seq<char>, max: usize) -> Result<DocumentView, ErrorView> {
    if utf8_len(xml) > max {
        Err(ErrorView::InputTooLarge { actual: utf8_len(xml) as nat, maximum: max as nat })
    } else {
        parse_outcome(xml, max as nat)
    }
}

/// The plain view of a parse result.
pub open spec fn document_result(r: Result<Document, Error>) -> Result<DocumentView, ErrorView> {
    match r {
        Ok(d) => Ok(d@),
        Err(e) => Err(e@),
    }
}

impl Document {
    /// Parses `xml` with the default input limit of 64 MiB.
    pub fn parse(xml: &str) -> (r: Result<Document, Error>)
        ensures
            document_result(r) == parse_limited(xml@, DEFAULT_MAX_XML_BYTES),
    {
        Self::parse_with_limit(xml, DEFAULT_MAX_XML_BYTES)
    }

    /// Parses `xml`, refusing input longer than `max_xml_bytes` bytes, nesting
    /// deeper than 1024 elements and document type declarations. The document
    /// is what the verified builder makes of the events that the reader gives
    /// on `xml`.
    pub fn parse_with_limit(xml: &str, max_xml_bytes: usize) -> (r: Result<Document, Error>)
        ensures
            document_result(r) == parse_limited(xml@, max_xml_bytes),
    {
        let length = xml.len();
        if length > max_xml_bytes {
            return Err(Error::InputTooLarge { actual: length, maximum: max_xml_bytes });
        }
        let mut reader = xml_reader(xml);
        let mut builder = TreeBuilder::new();
        let ghost items = xml_events(xml@);
        let ghost mut k: nat = 0;
        loop
            invariant
                reader_state(reader) == (xml@, k),
                length == xml.len(),
                length <= max_xml_bytes,
                items == xml_events(xml@),
                k < items.len(),
                is_terminal(items.last()),
                forall|i: int| 0 <= i < items.len() - 1 ==> !is_terminal(#[trigger] items[i]),
                read_outcome(xml@, items, 0, initial_state()) == read_outcome(xml@, items, k, builder@),
            decreases items.len() - k,
        {
            let ghost here = builder@;
            let (resolution, event) = match read_event(&mut reader) {
                Ok(pair) => pair,
                Err(message) => {
                    return Err(Error::Xml(message));
                },
            };
            let ghost ev = event_view(event);
            let namespace = resolved_namespace(resolution)?;
            let token = match raw_event(event) {
                RawEvent::Start(start) => {
                    if builder.depth() >= DEFAULT_MAX_XML_DEPTH {
                        return Err(Error::MaxDepthExceeded { maximum: DEFAULT_MAX_XML_DEPTH });
                    }
                    XmlToken::Start(read_element(&reader, namespace, &start)?)
                },
                RawEvent::Empty(start) => {
                    if builder.depth() >= DEFAULT_MAX_XML_DEPTH {
                        return Err(Error::MaxDepthExceeded { maximum: DEFAULT_MAX_XML_DEPTH });
                    }
                    XmlToken::Empty(read_element(&reader, namespace, &start)?)
                },
                RawEvent::End => XmlToken::End,
                RawEvent::Text(text) => XmlToken::Text(text_content(text)),
                RawEvent::Reference(reference) => {
                    let name = reference_name(&reference);
                    let text = resolve_reference(name.as_str())?;
                    XmlToken::Reference { name, text }
                },
                RawEvent::CData(cdata) => XmlToken::CData(cdata_content(cdata)),
                RawEvent::Comment(comment) => XmlToken::Comment(text_content(comment)),
                RawEvent::ProcessingInstruction(pi) => XmlToken::ProcessingInstruction(pi_content(pi)),
                RawEvent::Declaration => XmlToken::Declaration,
                RawEvent::DocType => XmlToken::DocType,
                RawEvent::Eof => {
                    let result = builder.finish(max_xml_bytes);
                    proof { lemma_document_result(result, here, max_xml_bytes as nat); }
                    return result;
                },
            };
            assert(token_of(xml@, k + 1, crate::document::opt_chars(namespace), ev, here.stack.len()) == Ok::<XmlTokenView, ErrorView>(token@));
            builder.step(token)?;
            proof {
                assert(!is_terminal(items[k as int]));
                k = k + 1;
            }
        }
    }

    /// Builds a document from a token sequence, as the parser does with the
    /// tokens that it reads.
    pub fn from_tokens(tokens: Vec<XmlToken>, max_xml_bytes: usize) -> (r: Result<Document, Error>)
        ensures
            match build_document(tokens_view(tokens@)) {
                Ok((prolog, root, epilog)) => r matches Ok(d) && d@.prolog == prolog && d@.root == root
                    && d@.epilog == epilog && d@.max_xml_bytes == max_xml_bytes,
                Err(x) => r matches Err(y) && y@ == x,
            },
    {
        let ghost ts = tokens_view(tokens@);
        let mut builder = TreeBuilder::new();
        for t in it: tokens.into_iter()
            invariant
                it.seq() == tokens@,
                ts == tokens_view(tokens@),
                build_run(ts.take(it.index())) == Ok::<BuildState, ErrorView>(builder@),
        {
            assert(ts.take(it.index() + 1).drop_last() =~= ts.take(it.index()));
            assert(ts.take(it.index() + 1).last() == t@);
            match builder.step(t) {
                Ok(()) => {},
                Err(e) => {
                    proof { lemma_run_failure_persists(ts, it.index() + 1); }
                    return Err(e);
                },
            }
        }
        assert(ts.take(ts.len() as int) =~= ts);
        builder.finish(max_xml_bytes)
    }
}

/// Reading fails only with an XML error or at the nesting limit.
pub proof fn lemma_parse_error_kind(xml: Seq<char>, max: usize)
    ensures
        parse_limited(xml, max) matches Err(e) ==> e is InputTooLarge || e is Xml || e is MaxDepthExceeded,
{
    lemma_read_error_kind(xml, xml_events(xml), 0, initial_state());
}

proof fn lemma_read_error_kind(xml: Seq<char>, items: Seq<ReadItem>, k: nat, st: BuildState)
    ensures
        read_outcome(xml, items, k, st) matches Err(e) ==> e is Xml || e is MaxDepthExceeded,
    decreases items.len() - k,
{
    if k < items.len() {
        match items[k as int] {
            Ok((resolution, ev)) => {
                match ev {
                    EventView::Start(tag) => lemma_attributes_error_kind(xml, k + 1, tag.2),
                    EventView::Empty(tag) => lemma_attributes_error_kind(xml, k + 1, tag.2),
                    _ => {},
                }
                if let Ok(namespace) = namespace_of(resolution) {
                    if !(ev is Eof) {
                        if let Ok(t) = token_of(xml, k + 1, namespace, ev, st.stack.len()) {
                            if let Ok(next) = build_step(st, t) {
                                lemma_read_error_kind(xml, items, k + 1, next);
                            }
                        }
                    }
                }
            },
            Err(_) => {},
        }
    }
}

proof fn lemma_attributes_error_kind(xml: Seq<char>, n: nat, reads: Seq<AttrRead>)
    ensures
        attributes_from(xml, n, reads) matches Err(e) ==> e is Xml,
    decreases reads.len(),
{
    if reads.len() > 0 {
        lemma_attributes_error_kind(xml, n, reads.drop_last());
    }
}

proof fn lemma_document_result(result: Result<Document, Error>, st: BuildState, max: nat)
    requires
        match build_finish(st) {
            Ok((prolog, root, epilog)) => result matches Ok(d) && d@.prolog == prolog && d@.root == root
                && d@.epilog == epilog && d@.max_xml_bytes == max,
            Err(x) => result matches Err(y) && y@ == x,
        },
    ensures
        document_result(result) == match build_finish(st) {
            Ok((prolog, root, epilog)) => Ok::<DocumentView, ErrorView>(DocumentView { prolog, root, epilog, max_xml_bytes: max }),
            Err(e) => Err(e),
        },
{
    match result {
        Ok(d) => {
            assert(d@ =~= (DocumentView { prolog: d@.prolog, root: d@.root, epilog: d@.epilog, max_xml_bytes: max }));
        },
        Err(_) => {},
    }
}

proof fn lemma_run_failure_persists(ts: Seq<XmlTokenView>, i: int)
    requires
        0 <= i <= ts.len(),
        build_run(ts.take(i)) is Err,
    ensures
        build_run(ts) == build_run(ts.take(i)),
    decreases ts.len() - i,
{
    if i < ts.len() {
        assert(ts.take(i + 1).drop_last() =~= ts.take(i));
        lemma_run_failure_persists(ts, i + 1);
    } else {
        assert(ts.take(i) =~= ts);
    }
}

} // verus!
