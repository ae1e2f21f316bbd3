//! Serializing the tree back to XML text. `quick_xml`'s writer performs the
//! escaping and indentation; the verified code decides what is written, and
//! in which order.
use vstd::prelude::*;
use quick_xml::events::{BytesCData, BytesDecl, BytesPI, BytesRef, BytesStart, BytesText, Event};
use quick_xml::writer::Writer;
use crate::document::{lemma_document_view, Document, DocumentView};
use crate::model::{
    lemma_children_view, nodes_view, Attribute, AttributeView, Element, ElementView, Error, ErrorView, Node, NodeView,
};
use crate::text::owned;

verus! {

#[verifier::external_type_specification]
#[verifier::external_body]
#[verifier::reject_recursive_types(W)]
pub struct ExWriter<W>(Writer<W>);

/// What a writer over a byte buffer has received: whether it indents, and
/// the events handed to it so far, in order.
pub uninterp spec fn writer_state(w: Writer<Vec<u8>>) -> (bool, Seq<WrittenEvent>);

/// What a start tag holds: its qualified name and its attributes as
/// (qualified name, unescaped value) pairs, in the order they were pushed.
pub uninterp spec fn start_content(s: BytesStart) -> (Seq<char>, Seq<(Seq<char>, Seq<char>)>);

/// The text that a writer produces from `events`, indented by two spaces when
/// `pretty`: escaping, quoting and indentation are the writer's.
pub uninterp spec fn xml_text(pretty: bool, events: Seq<WrittenEvent>) -> Seq<char>;

/// `Writer::new`, or `Writer::new_with_indent` with two spaces when `pretty`,
/// over an empty byte buffer: nothing written yet.
#[verifier::external_body]
fn xml_writer(pretty: bool) -> (w: Writer<Vec<u8>>)
    ensures
        writer_state(w) == (pretty, Seq::<WrittenEvent>::empty()),
{
    if pretty {
        Writer::new_with_indent(Vec::new(), b' ', 2)
    } else {
        Writer::new(Vec::new())
    }
}

/// `Writer::write_event` with `<?xml version="1.0" encoding="UTF-8"?>`.
/// The writer fails only where the underlying buffer does, and appending to a
/// `Vec<u8>` does not fail.
#[verifier::external_body]
fn write_declaration(writer: &mut Writer<Vec<u8>>) -> (r: Result<(), String>)
    ensures
        r is Ok,
        writer_state(*final(writer)) == (writer_state(*old(writer)).0,
            writer_state(*old(writer)).1.push(WrittenEvent::Declaration)),
{
    writer
        .write_event(Event::Decl(BytesDecl::new("1.0", Some("UTF-8"), None)))
        .map_err(|error| error.to_string())
}

/// `BytesStart::new`: a start tag named `name`, without attributes.
#[verifier::external_body]
fn start_tag<'a>(name: &'a str) -> (s: BytesStart<'a>)
    ensures
        start_content(s) == (name@, Seq::<(Seq<char>, Seq<char>)>::empty()),
{
    BytesStart::new(name)
}

/// `BytesStart::push_attribute`: appends `key="value"`; the value is escaped
/// when written.
#[verifier::external_body]
fn push_attribute<'a>(start: &mut BytesStart<'a>, key: &str, value: &str)
    ensures
        start_content(*final(start)) == (start_content(*old(start)).0,
            start_content(*old(start)).1.push((key@, value@))),
{
    start.push_attribute((key, value));
}

/// `Writer::write_event` with a self-closing tag; it does not fail on a
/// byte buffer.
#[verifier::external_body]
fn write_empty(writer: &mut Writer<Vec<u8>>, start: BytesStart<'_>) -> (r: Result<(), String>)
    ensures
        r is Ok,
        writer_state(*final(writer)) == (writer_state(*old(writer)).0, writer_state(*old(writer)).1.push(
            WrittenEvent::Empty(start_content(start).0, start_content(start).1))),
{
    writer.write_event(Event::Empty(start)).map_err(|error| error.to_string())
}

/// `Writer::write_event` with an opening tag; it does not fail on a byte
/// buffer.
#[verifier::external_body]
fn write_start(writer: &mut Writer<Vec<u8>>, start: &BytesStart<'_>) -> (r: Result<(), String>)
    ensures
        r is Ok,
        writer_state(*final(writer)) == (writer_state(*old(writer)).0, writer_state(*old(writer)).1.push(
            WrittenEvent::Start(start_content(*start).0, start_content(*start).1))),
{
    writer.write_event(Event::Start(start.borrow())).map_err(|error| error.to_string())
}

/// `Writer::write_event` with the closing tag that `BytesStart::to_end`
/// makes from `start`; it does not fail on a byte buffer.
#[verifier::external_body]
fn write_end(writer: &mut Writer<Vec<u8>>, start: &BytesStart<'_>) -> (r: Result<(), String>)
    ensures
        r is Ok,
        writer_state(*final(writer)) == (writer_state(*old(writer)).0,
            writer_state(*old(writer)).1.push(WrittenEvent::End(start_content(*start).0))),
{
    writer.write_event(Event::End(start.to_end())).map_err(|error| error.to_string())
}

/// `Writer::write_event` with character data (`BytesText::new` escapes it);
/// it does not fail on a byte buffer.
#[verifier::external_body]
fn write_text(writer: &mut Writer<Vec<u8>>, value: &str) -> (r: Result<(), String>)
    ensures
        r is Ok,
        writer_state(*final(writer)) == (writer_state(*old(writer)).0,
            writer_state(*old(writer)).1.push(WrittenEvent::Text(value@))),
{
    writer.write_event(Event::Text(BytesText::new(value))).map_err(|error| error.to_string())
}

/// `Writer::write_event` with the general reference `&name;`
/// (`BytesRef::new`), written as it is; it does not fail on a byte buffer.
#[verifier::external_body]
fn write_reference(writer: &mut Writer<Vec<u8>>, name: &str) -> (r: Result<(), String>)
    ensures
        r is Ok,
        writer_state(*final(writer)) == (writer_state(*old(writer)).0,
            writer_state(*old(writer)).1.push(WrittenEvent::Reference(name@))),
{
    writer.write_event(Event::GeneralRef(BytesRef::new(name))).map_err(|error| error.to_string())
}

/// `Writer::write_event` with a CDATA section; it does not fail on a byte
/// buffer.
#[verifier::external_body]
fn write_cdata(writer: &mut Writer<Vec<u8>>, value: &str) -> (r: Result<(), String>)
    ensures
        r is Ok,
        writer_state(*final(writer)) == (writer_state(*old(writer)).0,
            writer_state(*old(writer)).1.push(WrittenEvent::CData(value@))),
{
    writer.write_event(Event::CData(BytesCData::new(value))).map_err(|error| error.to_string())
}

/// `Writer::write_event` with a comment; it does not fail on a byte buffer.
#[verifier::external_body]
fn write_comment(writer: &mut Writer<Vec<u8>>, value: &str) -> (r: Result<(), String>)
    ensures
        r is Ok,
        writer_state(*final(writer)) == (writer_state(*old(writer)).0,
            writer_state(*old(writer)).1.push(WrittenEvent::Comment(value@))),
{
    writer.write_event(Event::Comment(BytesText::new(value))).map_err(|error| error.to_string())
}

/// `Writer::write_event` with a processing instruction; it does not fail on
/// a byte buffer.
#[verifier::external_body]
fn write_pi(writer: &mut Writer<Vec<u8>>, value: &str) -> (r: Result<(), String>)
    ensures
        r is Ok,
        writer_state(*final(writer)) == (writer_state(*old(writer)).0,
            writer_state(*old(writer)).1.push(WrittenEvent::ProcessingInstruction(value@))),
{
    writer.write_event(Event::PI(BytesPI::new(value))).map_err(|error| error.to_string())
}

/// `Writer::into_inner` then `String::from_utf8`: the writer's text. Every
/// byte it wrote comes from a `&str` or is an indentation byte, so the
/// buffer is valid UTF-8.
#[verifier::external_body]
fn writer_output(writer: Writer<Vec<u8>>) -> (r: Result<String, std::string::FromUtf8Error>)
    ensures
        r is Ok,
        r matches Ok(s) ==> s@ == xml_text(writer_state(writer).0, writer_state(writer).1),
{
    String::from_utf8(writer.into_inner())
}

/// Whether a node may stand outside the root: a comment or a processing
/// instruction.
pub open spec fn is_misc(n: NodeView) -> bool {
    n is Comment || n is ProcessingInstruction
}

/// Whether every node of `s` may stand outside the root.
pub open spec fn all_misc(s: Seq<NodeView>) -> bool {
    forall|i: int| 0 <= i < s.len() ==> is_misc(#[trigger] s[i])
}

/// What one call hands to the writer: the XML declaration, a tag with its qualified name and its
/// attributes as (qualified name, value) pairs, an end tag with its name, or
/// the content of a text, CDATA, comment or processing-instruction event, or
/// the name of a reference.
pub enum WrittenEvent {
    Declaration,
    Start(Seq<char>, Seq<(Seq<char>, Seq<char>)>),
    Empty(Seq<char>, Seq<(Seq<char>, Seq<char>)>),
    End(Seq<char>),
    Text(Seq<char>),
    Reference(Seq<char>),
    CData(Seq<char>),
    Comment(Seq<char>),
    ProcessingInstruction(Seq<char>),
}

/// The (qualified name, value) pairs of attributes, in order.
pub open spec fn attribute_pairs(attributes: Seq<AttributeView>) -> Seq<(Seq<char>, Seq<char>)> {
    attributes.map_values(|a: AttributeView| (a.qualified_name, a.value))
}

/// The events that writing `e` hands to the writer, in order: a self-closing
/// tag for an element without children, else its start tag, the events of
/// its children and its end tag.
pub open spec fn element_events(e: ElementView) -> Seq<WrittenEvent>
    decreases e, 0int,
{
    if e.children.len() == 0 {
        seq![WrittenEvent::Empty(e.qualified_name, attribute_pairs(e.attributes))]
    } else {
        seq![WrittenEvent::Start(e.qualified_name, attribute_pairs(e.attributes))]
            + children_events(e.children, e.children.len() as int) + seq![WrittenEvent::End(e.qualified_name)]
    }
}

/// The events of the first `upto` children.
pub open spec fn children_events(s: Seq<NodeView>, upto: int) -> Seq<WrittenEvent>
    decreases s, upto,
{
    if upto <= 0 || upto > s.len() {
        Seq::empty()
    } else {
        children_events(s, upto - 1) + match s[upto - 1] {
            NodeView::Element(c) => element_events(c),
            NodeView::Text(t) => seq![WrittenEvent::Text(t)],
            NodeView::Reference { name, .. } => seq![WrittenEvent::Reference(name)],
            NodeView::CData(t) => seq![WrittenEvent::CData(t)],
            NodeView::Comment(t) => seq![WrittenEvent::Comment(t)],
            NodeView::ProcessingInstruction(t) => seq![WrittenEvent::ProcessingInstruction(t)],
        }
    }
}

/// Writes `element` and its subtree: the writer receives exactly the events
/// of the element, in document order.
fn write_element(writer: &mut Writer<Vec<u8>>, element: &Element) -> (r: Result<(), Error>)
    ensures
        r is Ok,
        writer_state(*final(writer)) == (writer_state(*old(writer)).0,
            writer_state(*old(writer)).1 + element_events(element@)),
    decreases element,
{
    proof { lemma_children_view(*element); }
    let ghost before = writer_state(*writer);
    let ghost name = element@.qualified_name;
    let ghost pairs = attribute_pairs(element@.attributes);
    let mut start = start_tag(element.qualified_name.as_str());
    let mut i: usize = 0;
    while i < element.attributes.len()
        invariant
            i <= element.attributes@.len(),
            pairs == attribute_pairs(element@.attributes),
            element@.attributes == element.attributes@.map_values(|a: Attribute| a@),
            start_content(start) == (name, pairs.take(i as int)),
        decreases element.attributes@.len() - i,
    {
        push_attribute(&mut start, element.attributes[i].qualified_name.as_str(), element.attributes[i].value.as_str());
        proof {
            assert(pairs[i as int] == (element.attributes@[i as int].qualified_name@, element.attributes@[i as int].value@));
            assert(pairs.take(i as int).push(pairs[i as int]) =~= pairs.take(i + 1));
        }
        i += 1;
    }
    assert(pairs.take(element.attributes@.len() as int) =~= pairs);
    if element.children.len() == 0 {
        map_write(write_empty(writer, start))?;
        assert(before.1.push(WrittenEvent::Empty(name, pairs)) =~= before.1 + element_events(element@));
        return Ok(());
    }
    let ghost s = element@.children;
    let ghost head = seq![WrittenEvent::Start(name, pairs)];
    map_write(write_start(writer, &start))?;
    assert(children_events(s, 0) =~= Seq::<WrittenEvent>::empty());
    assert(before.1.push(WrittenEvent::Start(name, pairs)) =~= before.1 + head + children_events(s, 0));
    let mut j: usize = 0;
    while j < element.children.len()
        invariant
            j <= element.children@.len(),
            s == element@.children,
            s == nodes_view(element.children@),
            start_content(start) == (name, pairs),
            writer_state(*writer) == (before.0, before.1 + head + children_events(s, j as int)),
        decreases element.children@.len() - j,
    {
        let ghost mid = writer_state(*writer).1;
        assert(s[j as int] == element.children@[j as int]@);
        match &element.children[j] {
            Node::Element(child) => {
                assert(s[j as int] == NodeView::Element(child@));
                write_element(writer, child)?;
            },
            Node::Text(value) => {
                map_write(write_text(writer, value.as_str()))?;
            },
            Node::Reference { name, .. } => {
                map_write(write_reference(writer, name.as_str()))?;
            },
            Node::CData(value) => {
                map_write(write_cdata(writer, value.as_str()))?;
            },
            Node::Comment(value) => {
                map_write(write_comment(writer, value.as_str()))?;
            },
            Node::ProcessingInstruction(value) => {
                map_write(write_pi(writer, value.as_str()))?;
            },
        }
        let ghost tail: Seq<WrittenEvent> = match s[j as int] {
            NodeView::Element(c) => element_events(c),
            NodeView::Text(t) => seq![WrittenEvent::Text(t)],
            NodeView::Reference { name, .. } => seq![WrittenEvent::Reference(name)],
            NodeView::CData(t) => seq![WrittenEvent::CData(t)],
            NodeView::Comment(t) => seq![WrittenEvent::Comment(t)],
            NodeView::ProcessingInstruction(t) => seq![WrittenEvent::ProcessingInstruction(t)],
        };
        assert(writer_state(*writer).1 =~= mid + tail);
        assert(children_events(s, j as int + 1) == children_events(s, j as int) + tail);
        assert(before.1 + head + children_events(s, j as int) + tail =~= before.1 + head + children_events(s, j as int + 1));
        j += 1;
    }
    map_write(write_end(writer, &start))?;
    assert(before.1 + head + children_events(s, s.len() as int) + seq![WrittenEvent::End(name)]
        =~= before.1 + element_events(element@));
    Ok(())
}

fn map_write(r: Result<(), String>) -> (x: Result<(), Error>)
    ensures
        r matches Ok(()) ==> x matches Ok(()),
        r matches Err(m) ==> x matches Err(e) && e@ == ErrorView::Write(m@),
{
    match r {
        Ok(()) => Ok(()),
        Err(message) => Err(Error::Write(message)),
    }
}

/// The message of a document whose prolog or epilog holds something other
/// than comments and processing instructions.
pub open spec fn outside_root_message() -> Seq<char> {
    "only comments and processing instructions are valid outside the root element"@
}

/// The events of the comments and processing instructions of `s`, in order.
pub open spec fn misc_events(s: Seq<NodeView>) -> Seq<WrittenEvent>
    decreases s.len(),
{
    if s.len() == 0 {
        Seq::empty()
    } else {
        misc_events(s.drop_last()) + match s.last() {
            NodeView::Comment(t) => seq![WrittenEvent::Comment(t)],
            NodeView::ProcessingInstruction(t) => seq![WrittenEvent::ProcessingInstruction(t)],
            _ => Seq::empty(),
        }
    }
}

/// The events that serializing `d` hands to the writer: the XML declaration,
/// the prolog, the root element and the epilog.
pub open spec fn document_events(d: DocumentView) -> Seq<WrittenEvent> {
    seq![WrittenEvent::Declaration] + misc_events(d.prolog) + element_events(d.root) + misc_events(d.epilog)
}

proof fn lemma_misc_events_one(n: NodeView)
    ensures
        misc_events(seq![n]) == match n {
            NodeView::Comment(t) => seq![WrittenEvent::Comment(t)],
            NodeView::ProcessingInstruction(t) => seq![WrittenEvent::ProcessingInstruction(t)],
            _ => Seq::<WrittenEvent>::empty(),
        },
{
    assert(seq![n].drop_last() =~= Seq::<NodeView>::empty());
    assert(seq![n].last() == n);
    assert(misc_events(Seq::<NodeView>::empty()) =~= Seq::<WrittenEvent>::empty());
    let tail: Seq<WrittenEvent> = match n {
        NodeView::Comment(t) => seq![WrittenEvent::Comment(t)],
        NodeView::ProcessingInstruction(t) => seq![WrittenEvent::ProcessingInstruction(t)],
        _ => Seq::<WrittenEvent>::empty(),
    };
    assert(Seq::<WrittenEvent>::empty() + tail =~= tail);
}

fn write_document_level_node(writer: &mut Writer<Vec<u8>>, node: &Node) -> (r: Result<(), Error>)
    ensures
        is_misc(node@) ==> r is Ok && writer_state(*final(writer)) == (writer_state(*old(writer)).0,
            writer_state(*old(writer)).1 + misc_events(seq![node@])),
        !is_misc(node@) ==> (r matches Err(e) && e@ == ErrorView::Write(outside_root_message())),
{
    let ghost before = writer_state(*writer);
    proof { lemma_misc_events_one(node@); }
    match node {
        Node::Comment(value) => {
            let r = map_write(write_comment(writer, value.as_str()));
            assert(before.1 + misc_events(seq![node@]) =~= before.1.push(WrittenEvent::Comment(value@)));
            r
        },
        Node::ProcessingInstruction(value) => {
            let r = map_write(write_pi(writer, value.as_str()));
            assert(before.1 + misc_events(seq![node@]) =~= before.1.push(WrittenEvent::ProcessingInstruction(value@)));
            r
        },
        _ => Err(Error::Write(owned("only comments and processing instructions are valid outside the root element"))),
    }
}

fn write_nodes(writer: &mut Writer<Vec<u8>>, nodes: &Vec<Node>) -> (r: Result<(), Error>)
    ensures
        all_misc(nodes_view(nodes@)) ==> r is Ok && writer_state(*final(writer)) == (writer_state(*old(writer)).0,
            writer_state(*old(writer)).1 + misc_events(nodes_view(nodes@))),
        !all_misc(nodes_view(nodes@)) ==> (r matches Err(e) && e@ == ErrorView::Write(outside_root_message())),
{
    let ghost before = writer_state(*writer);
    let ghost s = nodes_view(nodes@);
    assert(s.take(0) =~= Seq::<NodeView>::empty());
    assert(before.1 + misc_events(s.take(0)) =~= before.1);
    let mut i: usize = 0;
    while i < nodes.len()
        invariant
            i <= nodes@.len(),
            s == nodes_view(nodes@),
            forall|k: int| 0 <= k < i ==> is_misc(#[trigger] s[k]),
            writer_state(*writer) == (before.0, before.1 + misc_events(s.take(i as int))),
        decreases nodes@.len() - i,
    {
        let ghost mid = writer_state(*writer).1;
        assert(s[i as int] == nodes@[i as int]@);
        write_document_level_node(writer, &nodes[i])?;
        proof {
            let one = seq![s[i as int]];
            lemma_misc_events_one(s[i as int]);
            assert(s.take(i + 1).drop_last() =~= s.take(i as int));
            assert(s.take(i + 1).last() == s[i as int]);
            assert(misc_events(s.take(i + 1)) == misc_events(s.take(i as int)) + misc_events(one));
            assert(before.1 + misc_events(s.take(i as int)) + misc_events(one) =~= before.1 + misc_events(s.take(i + 1)));
        }
        i += 1;
    }
    assert(s.take(s.len() as int) =~= s);
    assert(all_misc(s));
    Ok(())
}

impl Document {
    /// Serializes the document with an XML declaration, indented by two spaces
    /// when `pretty`. Only comments and processing instructions may stand
    /// outside the root; anything else there is a write error.
    pub fn to_xml(&self, pretty: bool) -> (r: Result<String, Error>)
        ensures
            all_misc(self@.prolog) && all_misc(self@.epilog)
                ==> (r matches Ok(s) && s@ == xml_text(pretty, document_events(self@))),
            !(all_misc(self@.prolog) && all_misc(self@.epilog))
                ==> (r matches Err(e) && e@ == ErrorView::Write(outside_root_message())),
    {
        proof { lemma_document_view(*self); }
        let mut writer = xml_writer(pretty);
        match write_declaration(&mut writer) {
            Ok(()) => {},
            Err(message) => {
                return Err(Error::Write(message));
            },
        }
        write_nodes(&mut writer, &self.prolog)?;
        write_element(&mut writer, &self.root)?;
        write_nodes(&mut writer, &self.epilog)?;
        assert(seq![WrittenEvent::Declaration] + misc_events(self@.prolog) + element_events(self@.root)
            + misc_events(self@.epilog) =~= document_events(self@));
        match writer_output(writer) {
            Ok(s) => Ok(s),
            Err(e) => Err(Error::Utf8(e)),
        }
    }
}

} // verus!
