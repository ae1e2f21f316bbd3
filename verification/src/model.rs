//! The lossless XML tree: attributes, nodes and elements, their mathematical
//! views, and the library's error type.
use vstd::prelude::*;
use crate::text::{concat, owned, push_decimal, spec_decimal, spec_split_qname, split_qname, str_eq};

verus! {

/// `std::string::FromUtf8Error`, carried opaquely by [`Error::Utf8`].
#[verifier::external_type_specification]
#[verifier::external_body]
pub struct ExFromUtf8Error(std::string::FromUtf8Error);

/// Failures of parsing, path resolution, schema editing and serialization.
#[derive(Debug)]
pub enum Error {
    InputTooLarge { actual: usize, maximum: usize },
    MaxDepthExceeded { maximum: usize },
    Xml(String),
    Write(String),
    Utf8(std::string::FromUtf8Error),
    InvalidPath(String),
    PathNotFound(String),
    Schema(String),
    Json(String),
    Cardinality(String),
}

/// What an [`Error`] says, with its messages as character sequences.
pub enum ErrorView {
    InputTooLarge { actual: nat, maximum: nat },
    MaxDepthExceeded { maximum: nat },
    Xml(Seq<char>),
    Write(Seq<char>),
    Utf8,
    InvalidPath(Seq<char>),
    PathNotFound(Seq<char>),
    Schema(Seq<char>),
    Json(Seq<char>),
    Cardinality(Seq<char>),
}

impl View for Error {
    type V = ErrorView;

    open spec fn view(&self) -> ErrorView {
        match self {
            Error::InputTooLarge { actual, maximum } => ErrorView::InputTooLarge {
                actual: *actual as nat,
                maximum: *maximum as nat,
            },
            Error::MaxDepthExceeded { maximum } => ErrorView::MaxDepthExceeded {
                maximum: *maximum as nat,
            },
            Error::Xml(m) => ErrorView::Xml(m@),
            Error::Write(m) => ErrorView::Write(m@),
            Error::Utf8(_) => ErrorView::Utf8,
            Error::InvalidPath(m) => ErrorView::InvalidPath(m@),
            Error::PathNotFound(m) => ErrorView::PathNotFound(m@),
            Error::Schema(m) => ErrorView::Schema(m@),
            Error::Json(m) => ErrorView::Json(m@),
            Error::Cardinality(m) => ErrorView::Cardinality(m@),
        }
    }
}

/// The description of an error; that of a UTF-8 error also carries the
/// message of the `FromUtf8Error` it wraps.
pub open spec fn message_of(e: ErrorView) -> Seq<char> {
    match e {
        ErrorView::InputTooLarge { actual, maximum } => "XML input is "@ + spec_decimal(actual)
            + " bytes; the configured maximum is "@ + spec_decimal(maximum) + " bytes"@,
        ErrorView::MaxDepthExceeded { maximum } => "XML nesting exceeds the maximum depth of "@ + spec_decimal(maximum),
        ErrorView::Xml(m) => "invalid XML: "@ + m,
        ErrorView::Write(m) => "could not serialize XML: "@ + m,
        ErrorView::Utf8 => "serialized XML was not UTF-8: "@,
        ErrorView::InvalidPath(m) => "invalid path `"@ + m + "`"@,
        ErrorView::PathNotFound(m) => "path not found: `"@ + m + "`"@,
        ErrorView::Schema(m) => "schema inventory error: "@ + m,
        ErrorView::Json(m) => "JSON document error: "@ + m,
        ErrorView::Cardinality(m) => "schema cardinality violation: "@ + m,
    }
}

/// The message of a `FromUtf8Error`, as its `Display` writes it.
#[verifier::external_body]
fn utf8_error_text(error: &std::string::FromUtf8Error) -> String {
    error.to_string()
}

impl Error {
    /// The human-readable description of the error.
    pub fn message(&self) -> (r: String)
        ensures
            !(self@ is Utf8) ==> r@ == message_of(self@),
    {
        match self {
            Error::InputTooLarge { actual, maximum } => {
                let mut r = owned("XML input is ");
                push_decimal(&mut r, *actual);
                r.append(" bytes; the configured maximum is ");
                push_decimal(&mut r, *maximum);
                r.append(" bytes");
                r
            },
            Error::MaxDepthExceeded { maximum } => {
                let mut r = owned("XML nesting exceeds the maximum depth of ");
                push_decimal(&mut r, *maximum);
                r
            },
            Error::Xml(m) => concat("invalid XML: ", m.as_str()),
            Error::Write(m) => concat("could not serialize XML: ", m.as_str()),
            Error::Utf8(e) => concat("serialized XML was not UTF-8: ", utf8_error_text(e).as_str()),
            Error::InvalidPath(m) => {
                let mut r = concat("invalid path `", m.as_str());
                r.append("`");
                r
            },
            Error::PathNotFound(m) => {
                let mut r = concat("path not found: `", m.as_str());
                r.append("`");
                r
            },
            Error::Schema(m) => concat("schema inventory error: ", m.as_str()),
            Error::Json(m) => concat("JSON document error: ", m.as_str()),
            Error::Cardinality(m) => concat("schema cardinality violation: ", m.as_str()),
        }
    }
}

/// An attribute, with its qualified spelling as written in the source, such
/// as `dt:GUID`.
#[derive(Debug, Clone, PartialEq, Eq)]
pub struct Attribute {
    pub qualified_name: String,
    pub local_name: String,
    pub prefix: Option<String>,
    pub namespace: Option<String>,
    pub value: String,
}

/// A child of an element, in source order.
#[derive(Debug, PartialEq, Eq)]
pub enum Node {
    Element(Element),
    Text(String),
    /// A general entity or character reference, with its name as written
    /// between `&` and `;` and the text that it stands for.
    Reference { name: String, text: String },
    CData(String),
    Comment(String),
    ProcessingInstruction(String),
}

/// An element with its qualified spelling, namespace, ordered attributes and
/// ordered children.
#[derive(Debug, PartialEq, Eq)]
pub struct Element {
    pub qualified_name: String,
    pub local_name: String,
    pub prefix: Option<String>,
    pub namespace: Option<String>,
    pub attributes: Vec<Attribute>,
    pub children: Vec<Node>,
}

pub struct AttributeView {
    pub qualified_name: Seq<char>,
    pub local_name: Seq<char>,
    pub prefix: Option<Seq<char>>,
    pub namespace: Option<Seq<char>>,
    pub value: Seq<char>,
}

pub enum NodeView {
    Element(ElementView),
    Text(Seq<char>),
    Reference { name: Seq<char>, text: Seq<char> },
    CData(Seq<char>),
    Comment(Seq<char>),
    ProcessingInstruction(Seq<char>),
}

pub struct ElementView {
    pub qualified_name: Seq<char>,
    pub local_name: Seq<char>,
    pub prefix: Option<Seq<char>>,
    pub namespace: Option<Seq<char>>,
    pub attributes: Seq<AttributeView>,
    pub children: Seq<NodeView>,
}

/// The characters of an optional string.
pub open spec fn opt_view(o: Option<String>) -> Option<Seq<char>> {
    match o {
        Some(s) => Some(s@),
        None => None,
    }
}

impl View for Attribute {
    type V = AttributeView;

    open spec fn view(&self) -> AttributeView {
        AttributeView {
            qualified_name: self.qualified_name@,
            local_name: self.local_name@,
            prefix: opt_view(self.prefix),
            namespace: opt_view(self.namespace),
            value: self.value@,
        }
    }
}

pub open spec fn node_view(n: Node) -> NodeView
    decreases n, 1nat,
{
    match n {
        Node::Element(e) => NodeView::Element(element_view(e)),
        Node::Text(t) => NodeView::Text(t@),
        Node::Reference { name, text } => NodeView::Reference { name: name@, text: text@ },
        Node::CData(t) => NodeView::CData(t@),
        Node::Comment(t) => NodeView::Comment(t@),
        Node::ProcessingInstruction(t) => NodeView::ProcessingInstruction(t@),
    }
}

pub open spec fn element_view(e: Element) -> ElementView
    decreases e, 0nat,
{
    ElementView {
        qualified_name: e.qualified_name@,
        local_name: e.local_name@,
        prefix: opt_view(e.prefix),
        namespace: opt_view(e.namespace),
        attributes: e.attributes@.map_values(|a: Attribute| a@),
        children: Seq::new(
            e.children@.len(),
            |i: int|
                if 0 <= i < e.children@.len() {
                    node_view(e.children@[i])
                } else {
                    NodeView::Text(Seq::empty())
                },
        ),
    }
}

impl View for Element {
    type V = ElementView;

    open spec fn view(&self) -> ElementView {
        element_view(*self)
    }
}

impl View for Node {
    type V = NodeView;

    open spec fn view(&self) -> NodeView {
        node_view(*self)
    }
}

/// The views of a sequence of nodes.
pub open spec fn nodes_view(s: Seq<Node>) -> Seq<NodeView> {
    s.map_values(|n: Node| n@)
}

pub proof fn lemma_children_view(e: Element)
    ensures
        e@.children == nodes_view(e.children@),
        e@.attributes == e.attributes@.map_values(|a: Attribute| a@),
{
    assert(e@.children =~= nodes_view(e.children@));
}

pub proof fn lemma_nodes_view_push(v: Seq<Node>, n: Node)
    ensures
        nodes_view(v.push(n)) == nodes_view(v).push(n@),
        v.len() > 0 ==> nodes_view(v.drop_last()) == nodes_view(v).drop_last(),
        v.len() > 0 ==> nodes_view(v).last() == v.last()@,
{
    assert(nodes_view(v.push(n)) =~= nodes_view(v).push(n@));
    if v.len() > 0 {
        assert(nodes_view(v.drop_last()) =~= nodes_view(v).drop_last());
    }
}

pub proof fn lemma_nodes_view_insert(v: Seq<Node>, i: int, n: Node)
    requires
        0 <= i <= v.len(),
    ensures
        nodes_view(v.insert(i, n)) == nodes_view(v).insert(i, n@),
{
    assert(nodes_view(v.insert(i, n)) =~= nodes_view(v).insert(i, n@));
}

/// An attribute created by name: prefix and local part split at the first
/// colon, no namespace.
pub open spec fn new_attribute_view(qualified_name: Seq<char>, value: Seq<char>) -> AttributeView {
    AttributeView {
        qualified_name,
        local_name: spec_split_qname(qualified_name).1,
        prefix: spec_split_qname(qualified_name).0,
        namespace: None,
        value,
    }
}

/// A fresh element without attributes or children.
pub open spec fn new_element_view(qualified_name: Seq<char>, namespace: Option<Seq<char>>) -> ElementView {
    ElementView {
        qualified_name,
        local_name: spec_split_qname(qualified_name).1,
        prefix: spec_split_qname(qualified_name).0,
        namespace,
        attributes: Seq::empty(),
        children: Seq::empty(),
    }
}

/// Index of the first attribute whose qualified name is `name`.
pub open spec fn attr_by_qname(attrs: Seq<AttributeView>, name: Seq<char>) -> Option<int>
    decreases attrs.len(),
{
    if attrs.len() == 0 {
        None
    } else {
        match attr_by_qname(attrs.drop_last(), name) {
            Some(i) => Some(i),
            None => if attrs.last().qualified_name == name { Some(attrs.len() - 1) } else { None },
        }
    }
}

/// Index of the first attribute whose local name is `name`.
pub open spec fn attr_by_local(attrs: Seq<AttributeView>, name: Seq<char>) -> Option<int>
    decreases attrs.len(),
{
    if attrs.len() == 0 {
        None
    } else {
        match attr_by_local(attrs.drop_last(), name) {
            Some(i) => Some(i),
            None => if attrs.last().local_name == name { Some(attrs.len() - 1) } else { None },
        }
    }
}

pub proof fn lemma_attr_by_qname(attrs: Seq<AttributeView>, name: Seq<char>)
    ensures
        attr_by_qname(attrs, name) matches Some(i) ==> 0 <= i < attrs.len()
            && attrs[i].qualified_name == name
            && forall|j: int| 0 <= j < i ==> attrs[j].qualified_name != name,
        attr_by_qname(attrs, name) is None ==> forall|j: int|
            0 <= j < attrs.len() ==> attrs[j].qualified_name != name,
    decreases attrs.len(),
{
    if attrs.len() > 0 {
        let t = attrs.drop_last();
        lemma_attr_by_qname(t, name);
        assert(forall|j: int| 0 <= j < t.len() ==> t[j] == attrs[j]);
    }
}

pub proof fn lemma_attr_by_local(attrs: Seq<AttributeView>, name: Seq<char>)
    ensures
        attr_by_local(attrs, name) matches Some(i) ==> 0 <= i < attrs.len()
            && attrs[i].local_name == name
            && forall|j: int| 0 <= j < i ==> attrs[j].local_name != name,
        attr_by_local(attrs, name) is None ==> forall|j: int|
            0 <= j < attrs.len() ==> attrs[j].local_name != name,
    decreases attrs.len(),
{
    if attrs.len() > 0 {
        let t = attrs.drop_last();
        lemma_attr_by_local(t, name);
        assert(forall|j: int| 0 <= j < t.len() ==> t[j] == attrs[j]);
    }
}

/// `attrs` after setting `name` to `value`: the first attribute of that
/// qualified name takes the value, or a new one is appended.
pub open spec fn attrs_with_value(attrs: Seq<AttributeView>, name: Seq<char>, value: Seq<char>) -> Seq<AttributeView> {
    match attr_by_qname(attrs, name) {
        Some(i) => attrs.update(i, AttributeView { value, ..attrs[i] }),
        None => attrs.push(new_attribute_view(name, value)),
    }
}

/// After setting `name`, an attribute of that qualified name exists.
pub proof fn lemma_attrs_with_value_found(attrs: Seq<AttributeView>, name: Seq<char>, value: Seq<char>)
    ensures
        attr_by_qname(attrs_with_value(attrs, name, value), name) is Some,
{
    let r = attrs_with_value(attrs, name, value);
    lemma_attr_by_qname(attrs, name);
    lemma_attr_by_qname(r, name);
    match attr_by_qname(attrs, name) {
        Some(i) => {
            assert(r[i].qualified_name == name);
        },
        None => {
            assert(r[attrs.len() as int].qualified_name == name);
        },
    }
}

/// The value of the first attribute whose local name is `name`.
pub open spec fn value_by_local(e: ElementView, name: Seq<char>) -> Option<Seq<char>> {
    match attr_by_local(e.attributes, name) {
        Some(i) => Some(e.attributes[i].value),
        None => None,
    }
}

/// Position of the first attribute whose qualified name is `name`.
pub fn find_attribute_by_qname(attributes: &Vec<Attribute>, name: &str) -> (r: Option<usize>)
    ensures
        r matches Some(i) ==> i < attributes@.len()
            && attr_by_qname(attributes@.map_values(|a: Attribute| a@), name@) == Some(i as int),
        r is None ==> attr_by_qname(attributes@.map_values(|a: Attribute| a@), name@) is None,
{
    let ghost views = attributes@.map_values(|a: Attribute| a@);
    proof { lemma_attr_by_qname(views, name@); }
    let mut i: usize = 0;
    while i < attributes.len()
        invariant
            i <= attributes@.len(),
            views == attributes@.map_values(|a: Attribute| a@),
            attr_by_qname(views, name@) matches Some(k) ==> 0 <= k < views.len()
                && views[k].qualified_name == name@
                && forall|j: int| 0 <= j < k ==> views[j].qualified_name != name@,
            attr_by_qname(views, name@) is None ==> forall|j: int|
                0 <= j < views.len() ==> views[j].qualified_name != name@,
            forall|j: int| 0 <= j < i ==> views[j].qualified_name != name@,
        decreases attributes@.len() - i,
    {
        if str_eq(attributes[i].qualified_name.as_str(), name) {
            assert(views[i as int].qualified_name == name@);
            return Some(i);
        }
        assert(views[i as int].qualified_name != name@);
        i += 1;
    }
    None
}

/// Position of the first attribute whose local name is `name`.
pub fn find_attribute_by_local(attributes: &Vec<Attribute>, name: &str) -> (r: Option<usize>)
    ensures
        r matches Some(i) ==> i < attributes@.len()
            && attr_by_local(attributes@.map_values(|a: Attribute| a@), name@) == Some(i as int),
        r is None ==> attr_by_local(attributes@.map_values(|a: Attribute| a@), name@) is None,
{
    let ghost views = attributes@.map_values(|a: Attribute| a@);
    proof { lemma_attr_by_local(views, name@); }
    let mut i: usize = 0;
    while i < attributes.len()
        invariant
            i <= attributes@.len(),
            views == attributes@.map_values(|a: Attribute| a@),
            attr_by_local(views, name@) matches Some(k) ==> 0 <= k < views.len()
                && views[k].local_name == name@
                && forall|j: int| 0 <= j < k ==> views[j].local_name != name@,
            attr_by_local(views, name@) is None ==> forall|j: int|
                0 <= j < views.len() ==> views[j].local_name != name@,
            forall|j: int| 0 <= j < i ==> views[j].local_name != name@,
        decreases attributes@.len() - i,
    {
        if str_eq(attributes[i].local_name.as_str(), name) {
            assert(views[i as int].local_name == name@);
            return Some(i);
        }
        assert(views[i as int].local_name != name@);
        i += 1;
    }
    None
}

/// The value of the first attribute of `element` whose local name is `name`.
pub fn attribute_by_local<'a>(element: &'a Element, name: &str) -> (r: Option<&'a str>)
    ensures
        r matches Some(v) ==> value_by_local(element@, name@) == Some(v@),
        r is None ==> value_by_local(element@, name@) is None,
{
    proof { lemma_children_view(*element); }
    match find_attribute_by_local(&element.attributes, name) {
        Some(i) => Some(element.attributes[i].value.as_str()),
        None => None,
    }
}

/// Copies an optional borrowed string.
pub fn opt_owned(o: Option<&str>) -> (r: Option<String>)
    ensures
        r matches Some(s) ==> o matches Some(t) && s@ == t@,
        r is None ==> o is None,
{
    match o {
        Some(t) => Some(owned(t)),
        None => None,
    }
}

/// A namespace declaration attribute such as `xmlns:xsi`.
pub fn namespace_attribute(name: &str, value: &str) -> (r: Attribute)
    ensures
        r@ == (AttributeView {
            namespace: Some("http://www.w3.org/2000/xmlns/"@),
            ..new_attribute_view(name@, value@)
        }),
{
    let (prefix, local) = split_qname(name);
    Attribute {
        qualified_name: owned(name),
        local_name: local,
        prefix,
        namespace: Some(owned("http://www.w3.org/2000/xmlns/")),
        value: owned(value),
    }
}

impl Element {
    /// A fresh element named `qualified_name`, its prefix and local part split
    /// at the first colon.
    pub fn new(qualified_name: &str, namespace: Option<&str>) -> (r: Self)
        ensures
            r@ == new_element_view(qualified_name@, match namespace {
                Some(n) => Some(n@),
                None => None,
            }),
    {
        let (prefix, local_name) = split_qname(qualified_name);
        let r = Element {
            qualified_name: owned(qualified_name),
            local_name,
            prefix,
            namespace: opt_owned(namespace),
            attributes: Vec::new(),
            children: Vec::new(),
        };
        assert(r@.attributes =~= Seq::<AttributeView>::empty());
        assert(r@.children =~= Seq::<NodeView>::empty());
        r
    }

    pub fn local_name(&self) -> (r: &str)
        ensures
            r@ == self@.local_name,
    {
        self.local_name.as_str()
    }

    pub fn namespace_uri(&self) -> (r: Option<&str>)
        ensures
            r matches Some(s) ==> self@.namespace == Some(s@),
            r is None ==> self@.namespace is None,
    {
        match &self.namespace {
            Some(s) => Some(s.as_str()),
            None => None,
        }
    }

    pub fn prefix(&self) -> (r: Option<&str>)
        ensures
            r matches Some(s) ==> self@.prefix == Some(s@),
            r is None ==> self@.prefix is None,
    {
        match &self.prefix {
            Some(s) => Some(s.as_str()),
            None => None,
        }
    }

    /// Sets the first attribute with this qualified name, or appends a new
    /// one; nothing else changes.
    pub fn set_attribute(&mut self, qualified_name: &str, value: &str)
        ensures
            final(self)@ == (ElementView {
                attributes: attrs_with_value(old(self)@.attributes, qualified_name@, value@),
                ..old(self)@
            }),
    {
        proof { lemma_children_view(*self); }
        match find_attribute_by_qname(&self.attributes, qualified_name) {
            Some(i) => {
                let mut attribute = self.attributes.remove(i);
                attribute.value = owned(value);
                self.attributes.insert(i, attribute);
            },
            None => {
                let (prefix, local_name) = split_qname(qualified_name);
                self.attributes.push(Attribute {
                    qualified_name: owned(qualified_name),
                    local_name,
                    prefix,
                    namespace: None,
                    value: owned(value),
                });
            },
        }
        proof {
            lemma_children_view(*self);
            assert(final(self)@.attributes =~= attrs_with_value(old(self)@.attributes, qualified_name@, value@));
        }
    }
}

} // verus!
