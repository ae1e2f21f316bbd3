//! The document: prolog, root element and epilog, and its path-based reading
//! and editing operations.
use vstd::prelude::*;
use crate::model::{
    attr_by_local, attr_by_qname, attrs_with_value, find_attribute_by_local, find_attribute_by_qname,
    lemma_attrs_with_value_found, lemma_children_view, namespace_attribute, new_attribute_view, new_element_view,
    nodes_view, Attribute, AttributeView, Element, ElementView, Error, ErrorView, Node, NodeView,
};
use crate::path::{child_path, parse_path, segments_view, spec_child_path, spec_parse_path, PathSegment, SegmentView};
use crate::text::{
    concat, find_last, first_index_of, last_index_of, lemma_last_index_of, owned, spec_split_qname, split_qname,
    str_eq, string_of_range, to_chars,
};
use crate::tree::{
    child_element_position, child_of, count_children_named, elem_at, element_at, element_at_mut, ints,
    is_element_named, lemma_locate_valid, lemma_named_positions, named_positions, replace_at, resolve_positions,
    resolve_segments, valid_positions,
};

verus! {

pub const IDM_SCHEMA_LOCATION: &'static str = "idm.xsd";

pub const DEFAULT_MAX_XML_BYTES: usize = 67108864;

pub const DEFAULT_MAX_XML_DEPTH: usize = 1024;

pub const XSI_NAMESPACE: &'static str = "http://www.w3.org/2001/XMLSchema-instance";

/// A parsed or created idmXML document.
#[derive(Debug, PartialEq, Eq)]
pub struct Document {
    pub(crate) prolog: Vec<Node>,
    pub(crate) root: Element,
    pub(crate) epilog: Vec<Node>,
    pub(crate) max_xml_bytes: usize,
}

pub struct DocumentView {
    pub prolog: Seq<NodeView>,
    pub root: ElementView,
    pub epilog: Seq<NodeView>,
    pub max_xml_bytes: nat,
}

impl View for Document {
    type V = DocumentView;

    closed spec fn view(&self) -> DocumentView {
        DocumentView {
            prolog: nodes_view(self.prolog@),
            root: self.root@,
            epilog: nodes_view(self.epilog@),
            max_xml_bytes: self.max_xml_bytes as nat,
        }
    }
}

/// What a document's view is made of.
pub(crate) proof fn lemma_document_view(d: Document)
    ensures
        d@ == (DocumentView {
            prolog: nodes_view(d.prolog@),
            root: d.root@,
            epilog: nodes_view(d.epilog@),
            max_xml_bytes: d.max_xml_bytes as nat,
        }),
{
}

/// The positions that `path` selects from `root`, or the error that looking it
/// up gives.
pub open spec fn lookup(root: ElementView, path: Seq<char>) -> Result<Seq<int>, ErrorView> {
    match spec_parse_path(path) {
        None => Err(ErrorView::InvalidPath(path)),
        Some(segments) => match resolve_segments(root, segments) {
            Some(pos) => Ok(pos),
            None => Err(ErrorView::PathNotFound(path)),
        },
    }
}

/// The local names of the element children, in order.
pub open spec fn element_child_names(s: Seq<NodeView>) -> Seq<Seq<char>>
    decreases s.len(),
{
    if s.len() == 0 {
        Seq::empty()
    } else {
        element_child_names(s.drop_last()) + match s.last() {
            NodeView::Element(e) => seq![e.local_name],
            _ => Seq::empty(),
        }
    }
}

/// The concatenated text and CDATA children.
pub open spec fn text_content(s: Seq<NodeView>) -> Seq<char>
    decreases s.len(),
{
    if s.len() == 0 {
        Seq::empty()
    } else {
        text_content(s.drop_last()) + match s.last() {
            NodeView::Text(t) => t,
            NodeView::Reference { text, .. } => text,
            NodeView::CData(t) => t,
            _ => Seq::empty(),
        }
    }
}

/// The children other than text, references and CDATA, in order.
pub open spec fn without_text(s: Seq<NodeView>) -> Seq<NodeView>
    decreases s.len(),
{
    if s.len() == 0 {
        Seq::empty()
    } else {
        without_text(s.drop_last()) + match s.last() {
            NodeView::Text(_) => Seq::empty(),
            NodeView::Reference { .. } => Seq::empty(),
            NodeView::CData(_) => Seq::empty(),
            n => seq![n],
        }
    }
}

/// `e` whose text is replaced by a single leading text node `value`.
pub open spec fn with_text(e: ElementView, value: Seq<char>) -> ElementView {
    ElementView { children: seq![NodeView::Text(value)] + without_text(e.children), ..e }
}

/// The value that `xmlns:{prefix}` declares on `e`.
pub open spec fn declared_namespace(e: ElementView, prefix: Seq<char>) -> Option<Seq<char>> {
    match attr_by_qname(e.attributes, "xmlns:"@ + prefix) {
        Some(i) => Some(e.attributes[i].value),
        None => None,
    }
}

/// The innermost declaration of `prefix` met while following `segments` from
/// `e`, starting from `inherited`; `None` where a step is missing.
pub open spec fn namespace_along(
    e: ElementView,
    segments: Seq<SegmentView>,
    prefix: Seq<char>,
    inherited: Option<Seq<char>>,
) -> Option<Seq<char>>
    decreases segments.len(),
{
    let here = match declared_namespace(e, prefix) {
        Some(v) => Some(v),
        None => inherited,
    };
    if segments.len() == 0 {
        here
    } else {
        let ps = named_positions(e.children, segments[0].name);
        if segments[0].index < ps.len() {
            namespace_along(
                child_of(e, ps[segments[0].index as int]),
                segments.drop_first(),
                prefix,
                here,
            )
        } else {
            None
        }
    }
}

/// The namespace bound to `prefix` at the element that `segments` name; the
/// first segment stands for the root, whatever its name.
pub open spec fn namespace_for_prefix_spec(root: ElementView, segments: Seq<SegmentView>, prefix: Seq<char>) -> Option<Seq<char>> {
    namespace_along(root, segments.drop_first(), prefix, None)
}

/// The namespace that an attribute or element named `name` takes at the
/// element that `segments` name: that of its prefix, if any.
pub open spec fn prefix_namespace(root: ElementView, segments: Seq<SegmentView>, name: Seq<char>) -> Option<Seq<char>> {
    match spec_split_qname(name).0 {
        Some(prefix) => namespace_for_prefix_spec(root, segments, prefix),
        None => None,
    }
}

/// `e` after `set_attribute(name, value)` with the namespace `namespace` given
/// to that attribute.
pub open spec fn with_attribute(e: ElementView, name: Seq<char>, value: Seq<char>, namespace: Option<Seq<char>>) -> ElementView {
    let attrs = attrs_with_value(e.attributes, name, value);
    let i = attr_by_qname(attrs, name).unwrap();
    ElementView { attributes: attrs.update(i, AttributeView { namespace, ..attrs[i] }), ..e }
}

/// The value that `attribute(path, name)` reads from `e`: the attribute of
/// that qualified name, else, for an unprefixed name, the first of that local
/// name.
pub open spec fn attribute_value(e: ElementView, name: Seq<char>) -> Option<Seq<char>> {
    match attr_by_qname(e.attributes, name) {
        Some(i) => Some(e.attributes[i].value),
        None => if first_index_of(name, ':') is Some {
            None
        } else {
            match attr_by_local(e.attributes, name) {
                Some(i) => Some(e.attributes[i].value),
                None => None,
            }
        },
    }
}

/// The text before the last `/` of `p`, or nothing.
pub open spec fn parent_text(p: Seq<char>) -> Seq<char> {
    match last_index_of(p, '/') {
        Some(i) => p.take(i),
        None => Seq::empty(),
    }
}

/// The children after moving the one at `source` next to the one at `target`
/// (after it when `after`), and where it lands.
pub open spec fn moved_children(s: Seq<NodeView>, source: int, target: int, after: bool) -> (Seq<NodeView>, int) {
    let insertion = target + if after { 1int } else { 0int };
    let position = if source < insertion { insertion - 1 } else { insertion };
    (s.remove(source).insert(position, s[source]), position)
}

/// The attributes of a new document's root: the `xsi` namespace and the
/// schema location.
pub open spec fn idm_root_attributes() -> Seq<AttributeView> {
    seq![
        AttributeView {
            namespace: Some("http://www.w3.org/2000/xmlns/"@),
            ..new_attribute_view("xmlns:xsi"@, XSI_NAMESPACE@)
        },
        AttributeView {
            qualified_name: "xsi:noNamespaceSchemaLocation"@,
            local_name: "noNamespaceSchemaLocation"@,
            prefix: Some("xsi"@),
            namespace: Some(XSI_NAMESPACE@),
            value: IDM_SCHEMA_LOCATION@,
        },
    ]
}

pub(crate) fn schema_location_attribute() -> (r: Attribute)
    ensures
        r@ == idm_root_attributes()[1],
{
    Attribute {
        qualified_name: owned("xsi:noNamespaceSchemaLocation"),
        local_name: owned("noNamespaceSchemaLocation"),
        prefix: Some(owned("xsi")),
        namespace: Some(owned(XSI_NAMESPACE)),
        value: owned(IDM_SCHEMA_LOCATION),
    }
}

/// Finds the value declared for `xmlns:{prefix}` on `e`.
fn namespace_declaration(e: &Element, prefix: &str) -> (r: Option<String>)
    ensures
        r matches Some(v) ==> declared_namespace(e@, prefix@) == Some(v@),
        r is None ==> declared_namespace(e@, prefix@) is None,
{
    proof { lemma_children_view(*e); }
    let name = concat("xmlns:", prefix);
    match find_attribute_by_qname(&e.attributes, name.as_str()) {
        Some(i) => Some(e.attributes[i].value.clone()),
        None => None,
    }
}

/// The namespace bound to `prefix` at the element that `segments` name.
fn namespace_for_prefix(root: &Element, segments: &Vec<PathSegment>, prefix: &str) -> (r: Option<String>)
    requires
        segments@.len() > 0,
    ensures
        r matches Some(v) ==> namespace_for_prefix_spec(root@, segments_view(segments@), prefix@) == Some(v@),
        r is None ==> namespace_for_prefix_spec(root@, segments_view(segments@), prefix@) is None,
{
    let ghost segs = segments_view(segments@);
    let mut current: &Element = root;
    let mut inherited: Option<String> = None;
    let mut i: usize = 1;
    assert(segs.skip(1) =~= segs.drop_first());
    loop
        invariant
            1 <= i <= segments@.len(),
            segs == segments_view(segments@),
            namespace_for_prefix_spec(root@, segs, prefix@) == namespace_along(
                current@,
                segs.skip(i as int),
                prefix@,
                opt_chars(inherited),
            ),
        decreases segments@.len() - i,
    {
        let here = match namespace_declaration(current, prefix) {
            Some(v) => Some(v),
            None => inherited,
        };
        if i == segments.len() {
            assert(segs.skip(i as int) =~= Seq::<SegmentView>::empty());
            return here;
        }
        let ghost tail = segs.skip(i as int);
        assert(tail.drop_first() =~= segs.skip(i + 1));
        assert(tail[0] == segments@[i as int]@);
        proof { lemma_children_view(*current); }
        match child_element_position(current, segments[i].name.as_str(), segments[i].index) {
            Some(p) => {
                proof { lemma_named_positions(current@.children, tail[0].name); }
                let next = match &current.children[p] {
                    Node::Element(c) => c,
                    _ => {
                        proof { assert(is_element_named(current@.children[p as int], tail[0].name)); }
                        unreached()
                    },
                };
                assert(next@ == child_of(current@, p as int));
                current = next;
                inherited = here;
            },
            None => {
                return None;
            },
        }
        i += 1;
    }

}

/// The positions of the parent of the element that `segments` name, and that
/// element's position among the parent's children.
pub open spec fn removal(root: ElementView, segments: Seq<SegmentView>) -> Option<(Seq<int>, int)> {
    match resolve_segments(root, segments.drop_last()) {
        Some(pos) => {
            let ps = named_positions(elem_at(root, pos).children, segments.last().name);
            if segments.last().index < ps.len() {
                Some((pos, ps[segments.last().index as int]))
            } else {
                None
            }
        },
        None => None,
    }
}

/// The text of `path` before its last `/`.
fn parent_of(path: &str) -> (r: String)
    ensures
        r@ == parent_text(path@),
{
    let v = to_chars(path);
    proof { lemma_last_index_of(v@, '/'); }
    assert(v@.subrange(0, v@.len() as int) =~= v@);
    match find_last(&v, 0, v.len(), '/') {
        Some(i) => {
            assert(v@.subrange(0, i as int) =~= v@.take(i as int));
            string_of_range(&v, 0, i)
        },
        None => String::new(),
    }
}

/// Number of element children named `name` among the first `upto` children.
pub(crate) fn count_named_before(e: &Element, name: &str, upto: usize) -> (r: usize)
    requires
        upto <= e@.children.len(),
    ensures
        r == named_positions(e@.children.take(upto as int), name@).len(),
{
    proof { lemma_children_view(*e); }
    let ghost s = e@.children;
    let mut seen: usize = 0;
    let mut i: usize = 0;
    while i < upto
        invariant
            s == e@.children,
            s == nodes_view(e.children@),
            i <= upto <= e.children@.len(),
            seen == named_positions(s.take(i as int), name@).len(),
            seen <= i,
        decreases upto - i,
    {
        assert(s.take(i + 1).drop_last() =~= s.take(i as int));
        let named = match &e.children[i] {
            Node::Element(c) => str_eq(c.local_name.as_str(), name),
            _ => false,
        };
        if named {
            seen += 1;
        }
        i += 1;
    }
    seen
}

/// The characters of each string.
pub open spec fn strings_view(v: Seq<String>) -> Seq<Seq<char>> {
    v.map_values(|n: String| n@)
}

/// The characters of an optional borrowed string.
pub open spec fn opt_str(o: Option<&str>) -> Option<Seq<char>> {
    match o {
        Some(s) => Some(s@),
        None => None,
    }
}

/// What `append_element` makes of `root`, and the path it returns.
pub open spec fn append_outcome(root: ElementView, parent_path: Seq<char>, qualified_name: Seq<char>, namespace: Option<Seq<char>>) -> Result<(ElementView, Seq<char>), ErrorView> {
    match lookup(root, parent_path) {
        Err(e) => Err(e),
        Ok(pos) => {
            let local = spec_split_qname(qualified_name).1;
            let parent = elem_at(root, pos);
            let ns = match namespace {
                Some(n) => Some(n),
                None => prefix_namespace(root, spec_parse_path(parent_path).unwrap(), qualified_name),
            };
            Ok((
                replace_at(root, pos, ElementView {
                    children: parent.children.push(NodeView::Element(new_element_view(qualified_name, ns))),
                    ..parent
                }),
                spec_child_path(parent_path, local, named_positions(parent.children, local).len()),
            ))
        },
    }
}

/// What `remove` makes of `root`.
pub open spec fn remove_outcome(root: ElementView, path: Seq<char>) -> Result<ElementView, ErrorView> {
    match spec_parse_path(path) {
        None => Err(ErrorView::InvalidPath(path)),
        Some(segments) => if segments.len() <= 1 {
            Err(ErrorView::InvalidPath("the root element cannot be removed"@))
        } else {
            match removal(root, segments) {
                Some((pos, p)) => Ok(replace_at(root, pos, ElementView {
                    children: elem_at(root, pos).children.remove(p),
                    ..elem_at(root, pos)
                })),
                None => Err(ErrorView::PathNotFound(path)),
            }
        },
    }
}

/// What `move_schema_node` makes of `root`, and the path it returns.
pub open spec fn move_outcome(root: ElementView, path: Seq<char>, target_path: Seq<char>, after: bool) -> Result<(ElementView, Seq<char>), ErrorView> {
    match (spec_parse_path(path), spec_parse_path(target_path)) {
        (None, _) => Err(ErrorView::InvalidPath(path)),
        (Some(_), None) => Err(ErrorView::InvalidPath(target_path)),
        (Some(source), Some(target)) => if source.len() <= 1 || target.len() <= 1 {
            Err(ErrorView::InvalidPath("the IDM root cannot be moved"@))
        } else if parent_text(path) != parent_text(target_path) || source.last().name != target.last().name {
            Err(ErrorView::Cardinality("schema reorder is limited to same-name siblings under one parent"@))
        } else if source.last().index == target.last().index {
            Ok((root, path))
        } else {
            match resolve_segments(root, source.drop_last()) {
                None => Err(ErrorView::PathNotFound(parent_text(path))),
                Some(pos) => {
                    let parent = elem_at(root, pos);
                    let ps = named_positions(parent.children, source.last().name);
                    if source.last().index >= ps.len() {
                        Err(ErrorView::PathNotFound(path))
                    } else if target.last().index >= ps.len() {
                        Err(ErrorView::PathNotFound(target_path))
                    } else {
                        let (children, landed) = moved_children(
                            parent.children,
                            ps[source.last().index as int],
                            ps[target.last().index as int],
                            after,
                        );
                        Ok((
                            replace_at(root, pos, ElementView { children, ..parent }),
                            spec_child_path(
                                parent_text(path),
                                source.last().name,
                                named_positions(children.take(landed), source.last().name).len(),
                            ),
                        ))
                    }
                },
            }
        },
    }
}

/// The characters of an optional string.
pub open spec fn opt_chars(o: Option<String>) -> Option<Seq<char>> {
    match o {
        Some(s) => Some(s@),
        None => None,
    }
}

/// Parses `path` and resolves it below `root`.
fn find(root: &Element, path: &str) -> (r: Result<(Vec<PathSegment>, Vec<usize>), Error>)
    ensures
        r matches Ok((segs, p)) ==> lookup(root@, path@) == Ok::<Seq<int>, ErrorView>(ints(p@))
            && valid_positions(root@, ints(p@)) && valid_positions(root@, ints(p@).skip(0))
            && spec_parse_path(path@) == Some(segments_view(segs@)),
        lookup(root@, path@) matches Err(e) ==> r matches Err(x) && x@ == e,
        lookup(root@, path@) is Ok ==> r is Ok,
{
    match parse_path(path) {
        None => Err(Error::InvalidPath(owned(path))),
        Some(segments) => match resolve_positions(root, &segments, segments.len()) {
            Some(p) => {
                proof {
                    assert(segments_view(segments@).take(segments@.len() as int) =~= segments_view(segments@));
                    let segs = segments_view(segments@);
                    lemma_locate_valid(root@, segs.drop_first());
                    assert(ints(p@).skip(0) =~= ints(p@));
                }
                Ok((segments, p))
            },
            None => {
                assert(segments_view(segments@).take(segments@.len() as int) =~= segments_view(segments@));
                Err(Error::PathNotFound(owned(path)))
            },
        },
    }
}

/// Moves the nodes of `old` that are neither text, references nor CDATA onto
/// `into`.
fn keep_non_text(nodes: Vec<Node>, into: &mut Vec<Node>)
    ensures
        nodes_view(final(into)@) == nodes_view(old(into)@) + without_text(nodes_view(nodes@)),
{
    let ghost s = nodes_view(nodes@);
    let ghost start = nodes_view(into@);
    for n in it: nodes.into_iter()
        invariant
            it.seq() == nodes@,
            s == nodes_view(nodes@),
            nodes_view(into@) == start + without_text(s.take(it.index())),
    {
        let ghost before = into@;
        assert(s.take(it.index() + 1).drop_last() =~= s.take(it.index()));
        assert(s.take(it.index() + 1).last() == n@);
        let ghost nv = n@;
        let ghost prefix = s.take(it.index());
        match n {
            Node::Text(_) => {
                assert(without_text(s.take(it.index() + 1)) =~= without_text(prefix));
            },
            Node::Reference { .. } => {
                assert(without_text(s.take(it.index() + 1)) =~= without_text(prefix));
            },
            Node::CData(_) => {
                assert(without_text(s.take(it.index() + 1)) =~= without_text(prefix));
            },
            other => {
                into.push(other);
                assert(without_text(s.take(it.index() + 1)) =~= without_text(prefix).push(nv));
                assert(nodes_view(into@) =~= nodes_view(before).push(nv));
            },
        }
        assert(nodes_view(into@) =~= start + without_text(s.take(it.index() + 1)));
    }
    assert(s.take(s.len() as int) =~= s);
}

impl Default for Document {
    /// The same document as [`Document::new`].
    fn default() -> (r: Self)
        ensures
            r@.prolog == Seq::<NodeView>::empty(),
            r@.epilog == Seq::<NodeView>::empty(),
            r@.max_xml_bytes == DEFAULT_MAX_XML_BYTES,
            r@.root == (ElementView { attributes: idm_root_attributes(), ..new_element_view("idm"@, None) }),
    {
        Document::new()
    }
}

impl Document {
    /// A minimal document: an `idm` root declaring the `xsi` namespace and the
    /// schema location.
    pub fn new() -> (r: Self)
        ensures
            r@.prolog == Seq::<NodeView>::empty(),
            r@.epilog == Seq::<NodeView>::empty(),
            r@.max_xml_bytes == DEFAULT_MAX_XML_BYTES,
            r@.root == (ElementView { attributes: idm_root_attributes(), ..new_element_view("idm"@, None) }),
    {
        let mut root = Element::new("idm", None);
        let a = namespace_attribute("xmlns:xsi", XSI_NAMESPACE);
        let b = schema_location_attribute();
        let mut attributes: Vec<Attribute> = Vec::new();
        attributes.push(a);
        attributes.push(b);
        assert(attributes@.map_values(|a: Attribute| a@) =~= idm_root_attributes());
        root.attributes = attributes;
        let r = Document { prolog: Vec::new(), root, epilog: Vec::new(), max_xml_bytes: DEFAULT_MAX_XML_BYTES };
        proof {
            lemma_document_view(r);
            lemma_children_view(r.root);
            assert(r@.prolog =~= Seq::<NodeView>::empty());
            assert(r@.epilog =~= Seq::<NodeView>::empty());
        }
        r
    }

    /// The comments and processing instructions before the root.
    pub fn prolog(&self) -> (r: &Vec<Node>)
        ensures
            nodes_view(r@) == self@.prolog,
    {
        proof { lemma_document_view(*self); }
        &self.prolog
    }

    /// The comments and processing instructions after the root.
    pub fn epilog(&self) -> (r: &Vec<Node>)
        ensures
            nodes_view(r@) == self@.epilog,
    {
        proof { lemma_document_view(*self); }
        &self.epilog
    }

    pub fn root(&self) -> (r: &Element)
        ensures
            r@ == self@.root,
    {
        proof { lemma_document_view(*self); }
        &self.root
    }

    pub fn max_xml_bytes(&self) -> (r: usize)
        ensures
            r == self@.max_xml_bytes,
    {
        proof { lemma_document_view(*self); }
        self.max_xml_bytes
    }

    /// Borrows the element at an indexed path, with all its namespace and
    /// extension data.
    pub fn element(&self, path: &str) -> (r: Result<&Element, Error>)
        ensures
            lookup(self@.root, path@) matches Ok(pos) ==> r matches Ok(e) && e@ == elem_at(self@.root, pos),
            lookup(self@.root, path@) matches Err(err) ==> r matches Err(x) && x@ == err,
    {
        proof { lemma_document_view(*self); }
        let (_, p) = find(&self.root, path)?;
        assert(ints(p@).skip(0) =~= ints(p@));
        Ok(element_at(&self.root, &p, 0))
    }

    /// Mutably borrows the element at an indexed path; what the caller leaves
    /// there is what the document holds afterwards.
    pub fn element_mut(&mut self, path: &str) -> (r: Result<&mut Element, Error>)
        ensures
            lookup(old(self)@.root, path@) matches Ok(pos) ==> r matches Ok(e)
                && e@ == elem_at(old(self)@.root, pos)
                && final(self)@ == (DocumentView {
                    root: replace_at(old(self)@.root, pos, final(e)@),
                    ..old(self)@
                }),
            lookup(old(self)@.root, path@) matches Err(err) ==> r matches Err(x) && x@ == err
                && final(self)@ == old(self)@,
    {
        proof { lemma_document_view(*self); }
        let (_, p) = match find(&self.root, path) {
            Ok(found) => found,
            Err(e) => {
                return Err(e);
            },
        };
        assert(ints(p@).skip(0) =~= ints(p@));
        let e = element_at_mut(&mut self.root, &p, 0);
        Ok(e)
    }
    /// The local names of the element children at `path`, in order.
    pub fn child_element_names(&self, path: &str) -> (r: Result<Vec<String>, Error>)
        ensures
            lookup(self@.root, path@) matches Ok(pos) ==> r matches Ok(names)
                && strings_view(names@) == element_child_names(elem_at(self@.root, pos).children),
            lookup(self@.root, path@) matches Err(err) ==> r matches Err(x) && x@ == err,
    {
        let element = self.element(path)?;
        proof { lemma_children_view(*element); }
        let ghost s = element@.children;
        let mut names: Vec<String> = Vec::new();
        let mut i: usize = 0;
        while i < element.children.len()
            invariant
                i <= element.children@.len(),
                s == nodes_view(element.children@),
                strings_view(names@) == element_child_names(s.take(i as int)),
            decreases element.children@.len() - i,
        {
            let ghost before = names@;
            assert(s.take(i + 1).drop_last() =~= s.take(i as int));
            match &element.children[i] {
                Node::Element(child) => {
                    names.push(child.local_name.clone());
                    assert(strings_view(names@) =~= strings_view(before).push(child@.local_name));
                },
                _ => {
                    assert(element_child_names(s.take(i + 1)) =~= element_child_names(s.take(i as int)));
                },
            }
            i += 1;
        }
        assert(s.take(i as int) =~= s);
        Ok(names)
    }

    /// The concatenated text and CDATA content of the element at `path`.
    pub fn text(&self, path: &str) -> (r: Result<String, Error>)
        ensures
            lookup(self@.root, path@) matches Ok(pos) ==> r matches Ok(t)
                && t@ == text_content(elem_at(self@.root, pos).children),
            lookup(self@.root, path@) matches Err(err) ==> r matches Err(x) && x@ == err,
    {
        let element = self.element(path)?;
        proof { lemma_children_view(*element); }
        let ghost s = element@.children;
        let mut text = String::new();
        let mut i: usize = 0;
        while i < element.children.len()
            invariant
                i <= element.children@.len(),
                s == nodes_view(element.children@),
                text@ == text_content(s.take(i as int)),
            decreases element.children@.len() - i,
        {
            assert(s.take(i + 1).drop_last() =~= s.take(i as int));
            match &element.children[i] {
                Node::Text(value) => text.append(value.as_str()),
                Node::Reference { text: value, .. } => text.append(value.as_str()),
                Node::CData(value) => text.append(value.as_str()),
                _ => {},
            }
            assert(text@ =~= text_content(s.take(i + 1)));
            i += 1;
        }
        assert(s.take(i as int) =~= s);
        Ok(text)
    }

    /// Replaces the text and CDATA of the element at `path` by one leading
    /// text node.
    pub fn set_text(&mut self, path: &str, value: &str) -> (r: Result<(), Error>)
        ensures
            lookup(old(self)@.root, path@) matches Ok(pos) ==> r is Ok && final(self)@ == (DocumentView {
                root: replace_at(old(self)@.root, pos, with_text(elem_at(old(self)@.root, pos), value@)),
                ..old(self)@
            }),
            lookup(old(self)@.root, path@) matches Err(err) ==> r matches Err(x) && x@ == err
                && final(self)@ == old(self)@,
    {
        let element = self.element_mut(path)?;
        proof { lemma_children_view(*element); }
        let ghost before = element@;
        let mut old_children: Vec<Node> = Vec::new();
        std::mem::swap(&mut old_children, &mut element.children);
        assert(nodes_view(old_children@) == before.children);
        let mut children: Vec<Node> = Vec::new();
        children.push(Node::Text(owned(value)));
        assert(nodes_view(children@) =~= seq![NodeView::Text(value@)]);
        keep_non_text(old_children, &mut children);
        assert(nodes_view(children@) == seq![NodeView::Text(value@)] + without_text(before.children));
        element.children = children;
        proof {
            lemma_children_view(*element);
            assert(element@.children == with_text(before, value@).children);
            assert(element@ =~= with_text(before, value@));
        }
        Ok(())
    }

    /// The value of the attribute `name` of the element at `path`: matched by
    /// qualified name, else, for an unprefixed name, by local name.
    pub fn attribute(&self, path: &str, name: &str) -> (r: Result<String, Error>)
        ensures
            lookup(self@.root, path@) matches Ok(pos) ==> match attribute_value(elem_at(self@.root, pos), name@) {
                Some(v) => r matches Ok(x) && x@ == v,
                None => r matches Err(x) && x@ == ErrorView::PathNotFound(path@ + "/@"@ + name@),
            },
            lookup(self@.root, path@) matches Err(err) ==> r matches Err(x) && x@ == err,
    {
        let element = self.element(path)?;
        proof { lemma_children_view(*element); }
        match find_attribute_by_qname(&element.attributes, name) {
            Some(i) => {
                return Ok(element.attributes[i].value.clone());
            },
            None => {},
        }
        let n = to_chars(name);
        let has_colon = match crate::text::find_first(&n, 0, n.len(), ':') {
            Some(_) => true,
            None => false,
        };
        assert(n@.subrange(0, n@.len() as int) =~= name@);
        if !has_colon {
            match find_attribute_by_local(&element.attributes, name) {
                Some(i) => {
                    return Ok(element.attributes[i].value.clone());
                },
                None => {},
            }
        }
        let mut missing = concat(path, "/@");
        missing.append(name);
        Err(Error::PathNotFound(missing))
    }

    /// Sets attribute `name` of the element at `path`; a prefixed name takes
    /// the namespace that its prefix is bound to there.
    pub fn set_attribute(&mut self, path: &str, name: &str, value: &str) -> (r: Result<(), Error>)
        ensures
            lookup(old(self)@.root, path@) matches Ok(pos) ==> r is Ok && final(self)@ == (DocumentView {
                root: replace_at(
                    old(self)@.root,
                    pos,
                    with_attribute(
                        elem_at(old(self)@.root, pos),
                        name@,
                        value@,
                        prefix_namespace(old(self)@.root, spec_parse_path(path@).unwrap(), name@),
                    ),
                ),
                ..old(self)@
            }),
            lookup(old(self)@.root, path@) matches Err(err) ==> r matches Err(x) && x@ == err
                && final(self)@ == old(self)@,
    {
        proof { lemma_document_view(*self); }
        let (segments, _) = match find(&self.root, path) {
            Ok(found) => found,
            Err(e) => {
                return Err(e);
            },
        };
        let namespace = match split_qname(name).0 {
            Some(prefix) => namespace_for_prefix(&self.root, &segments, prefix.as_str()),
            None => None,
        };
        let ghost ns = opt_chars(namespace);
        let element = self.element_mut(path)?;
        proof { lemma_children_view(*element); }
        let ghost before = element@;
        element.set_attribute(name, value);
        let ghost set = element@;
        proof {
            lemma_children_view(*element);
            lemma_attrs_with_value_found(before.attributes, name@, value@);
        }
        match find_attribute_by_qname(&element.attributes, name) {
            Some(i) => {
                let mut attribute = element.attributes.remove(i);
                attribute.namespace = namespace;
                element.attributes.insert(i, attribute);
                proof {
                    lemma_children_view(*element);
                    assert(element@.attributes =~= set.attributes.update(i as int, AttributeView { namespace: ns, ..set.attributes[i as int] }));
                    assert(element@ =~= with_attribute(before, name@, value@, ns));
                }
            },
            None => {
                assert(false);
            },
        }
        Ok(())
    }

    /// Appends a new element `qualified_name` below the element at
    /// `parent_path` and returns the path of the new element. Without an
    /// explicit namespace, a prefixed name takes the namespace of its prefix.
    pub fn append_element(&mut self, parent_path: &str, qualified_name: &str, namespace: Option<&str>) -> (r: Result<String, Error>)
        ensures
            match append_outcome(old(self)@.root, parent_path@, qualified_name@, opt_str(namespace)) {
                Ok((root, p)) => r matches Ok(x) && x@ == p && final(self)@ == (DocumentView { root, ..old(self)@ }),
                Err(err) => r matches Err(x) && x@ == err && final(self)@ == old(self)@,
            },
    {
        proof { lemma_document_view(*self); }
        let (segments, _) = match find(&self.root, parent_path) {
            Ok(found) => found,
            Err(e) => {
                return Err(e);
            },
        };
        let resolved = match namespace {
            Some(n) => Some(owned(n)),
            None => match split_qname(qualified_name).0 {
                Some(prefix) => namespace_for_prefix(&self.root, &segments, prefix.as_str()),
                None => None,
            },
        };
        let parent = self.element_mut(parent_path)?;
        proof { lemma_children_view(*parent); }
        let ghost before = parent@;
        let (_, local) = split_qname(qualified_name);
        let index = count_children_named(parent, local.as_str());
        let child = match &resolved {
            Some(n) => Element::new(qualified_name, Some(n.as_str())),
            None => Element::new(qualified_name, None),
        };
        parent.children.push(Node::Element(child));
        proof {
            lemma_children_view(*parent);
            assert(parent@.children =~= before.children.push(NodeView::Element(new_element_view(qualified_name@, opt_chars(resolved)))));
        }
        Ok(child_path(parent_path, local.as_str(), index))
    }

    /// Removes the element at `path`; the root cannot be removed.
    pub fn remove(&mut self, path: &str) -> (r: Result<(), Error>)
        ensures
            match remove_outcome(old(self)@.root, path@) {
                Ok(root) => r is Ok && final(self)@ == (DocumentView { root, ..old(self)@ }),
                Err(err) => r matches Err(x) && x@ == err && final(self)@ == old(self)@,
            },
    {
        proof { lemma_document_view(*self); }
        let segments = match parse_path(path) {
            Some(s) => s,
            None => {
                return Err(Error::InvalidPath(owned(path)));
            },
        };
        if segments.len() <= 1 {
            return Err(Error::InvalidPath(owned("the root element cannot be removed")));
        }
        let n = segments.len() - 1;
        let pos = match resolve_positions(&self.root, &segments, n) {
            Some(p) => p,
            None => {
                return Err(Error::PathNotFound(owned(path)));
            },
        };
        proof {
            let segs = segments_view(segments@);
            lemma_locate_valid(self.root@, segs.take(n as int).drop_first());
            assert(ints(pos@).skip(0) =~= ints(pos@));
            assert(segs.last() == segments@[n as int]@);
            assert(segs.drop_last() =~= segs.take(n as int));
        }
        let position = match child_element_position(
            element_at(&self.root, &pos, 0),
            segments[n].name.as_str(),
            segments[n].index,
        ) {
            Some(p) => p,
            None => {
                return Err(Error::PathNotFound(owned(path)));
            },
        };
        let parent = element_at_mut(&mut self.root, &pos, 0);
        proof {
            lemma_children_view(*parent);
            lemma_named_positions(parent@.children, segments@[n as int]@.name);
        }
        let ghost before = parent@;
        parent.children.remove(position);
        proof {
            lemma_children_view(*parent);
            assert(parent@.children =~= before.children.remove(position as int));
        }
        Ok(())
    }

    /// Moves the element at `path` before (or, with `after`, behind) the
    /// same-name sibling at `target_path` and returns its new path.
    pub fn move_schema_node(&mut self, path: &str, target_path: &str, after: bool) -> (r: Result<String, Error>)
        ensures
            match move_outcome(old(self)@.root, path@, target_path@, after) {
                Ok((root, p)) => r matches Ok(x) && x@ == p && final(self)@ == (DocumentView { root, ..old(self)@ }),
                Err(err) => r matches Err(x) && x@ == err && final(self)@ == old(self)@,
            },
    {
        proof { lemma_document_view(*self); }
        let source = match parse_path(path) {
            Some(s) => s,
            None => {
                return Err(Error::InvalidPath(owned(path)));
            },
        };
        let target = match parse_path(target_path) {
            Some(s) => s,
            None => {
                return Err(Error::InvalidPath(owned(target_path)));
            },
        };
        if source.len() <= 1 || target.len() <= 1 {
            return Err(Error::InvalidPath(owned("the IDM root cannot be moved")));
        }
        let n = source.len() - 1;
        let m = target.len() - 1;
        proof {
            assert(segments_view(source@).last() == source@[n as int]@);
            assert(segments_view(target@).last() == target@[m as int]@);
            assert(segments_view(source@).drop_last() =~= segments_view(source@).take(n as int));
        }
        let source_parent = parent_of(path);
        let target_parent = parent_of(target_path);
        if !str_eq(source_parent.as_str(), target_parent.as_str())
            || !str_eq(source[n].name.as_str(), target[m].name.as_str()) {
            return Err(Error::Cardinality(owned("schema reorder is limited to same-name siblings under one parent")));
        }
        if source[n].index == target[m].index {
            return Ok(owned(path));
        }
        let pos = match resolve_positions(&self.root, &source, n) {
            Some(p) => p,
            None => {
                return Err(Error::PathNotFound(source_parent));
            },
        };
        proof {
            let segs = segments_view(source@);
            lemma_locate_valid(self.root@, segs.take(n as int).drop_first());
            assert(ints(pos@).skip(0) =~= ints(pos@));
        }
        let source_position = match child_element_position(
            element_at(&self.root, &pos, 0),
            source[n].name.as_str(),
            source[n].index,
        ) {
            Some(p) => p,
            None => {
                return Err(Error::PathNotFound(owned(path)));
            },
        };
        let target_position = match child_element_position(
            element_at(&self.root, &pos, 0),
            target[m].name.as_str(),
            target[m].index,
        ) {
            Some(p) => p,
            None => {
                return Err(Error::PathNotFound(owned(target_path)));
            },
        };
        let parent = element_at_mut(&mut self.root, &pos, 0);
        proof {
            lemma_children_view(*parent);
            lemma_named_positions(parent@.children, source@[n as int]@.name);
            lemma_named_positions(parent@.children, target@[m as int]@.name);
            let tps = named_positions(parent@.children, target@[m as int]@.name);
            assert(target_position as int == tps[target@[m as int]@.index as int]);
            assert(target_position < parent.children@.len());
        }
        let ghost before = parent@;
        let length = parent.children.len();
        assert(target_position < length);
        let node = parent.children.remove(source_position);
        let mut insertion = if after { target_position + 1 } else { target_position };
        if source_position < insertion {
            insertion = insertion - 1;
        }
        parent.children.insert(insertion, node);
        proof {
            lemma_children_view(*parent);
            let (children, landed) = moved_children(before.children, source_position as int, target_position as int, after);
            assert(landed == insertion as int);
            assert(parent@.children =~= children);
        }
        let new_index = count_named_before(parent, source[n].name.as_str(), insertion);
        Ok(child_path(source_parent.as_str(), source[n].name.as_str(), new_index))
    }
}

} // verus!
