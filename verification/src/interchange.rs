//! The document as a plain tree: rebuilding a document from its parts, with
//! empty text dropped and a check that the tree survives serialization and
//! parsing unchanged.
use vstd::prelude::*;
use crate::document::{lemma_document_view, Document, DocumentView, DEFAULT_MAX_XML_BYTES};
use crate::model::{
    lemma_children_view, lemma_nodes_view_push, message_of, nodes_view, opt_view, Attribute, Element, ElementView,
    Error, ErrorView, Node, NodeView,
};
use crate::parse::{document_result, lemma_parse_error_kind, parse_limited};
use crate::text::{owned, str_eq, to_chars};
use crate::write::{all_misc, document_events, outside_root_message, xml_text};

verus! {

/// `e` without its empty text nodes, at every depth.
pub open spec fn normalized(e: ElementView) -> ElementView
    decreases e, 0int,
{
    ElementView { children: normalized_children(e.children, e.children.len() as int), ..e }
}

/// The first `upto` nodes of `s` without empty text, each element normalized.
pub open spec fn normalized_children(s: Seq<NodeView>, upto: int) -> Seq<NodeView>
    decreases s, upto,
{
    if upto <= 0 || upto > s.len() {
        Seq::empty()
    } else {
        normalized_children(s, upto - 1) + match s[upto - 1] {
            NodeView::Text(t) => if t.len() == 0 { Seq::empty() } else { seq![NodeView::Text(t)] },
            NodeView::Element(c) => seq![NodeView::Element(normalized(c))],
            n => seq![n],
        }
    }
}

/// Drops the empty text nodes of `e` at every depth.
fn normalize_empty_text(e: &mut Element)
    ensures
        final(e)@ == normalized(old(e)@),
    decreases old(e)@,
{
    proof { lemma_children_view(*e); }
    let ghost before = e@;
    let ghost s = before.children;
    let mut old_children: Vec<Node> = Vec::new();
    std::mem::swap(&mut old_children, &mut e.children);
    assert(nodes_view(old_children@) == s);
    let mut kept: Vec<Node> = Vec::new();
    assert(nodes_view(kept@) =~= normalized_children(s, 0));
    for n in it: old_children.into_iter()
        invariant
            it.seq() == old_children@,
            s == nodes_view(old_children@),
            s == before.children,
            before == old(e)@,
            nodes_view(kept@) == normalized_children(s, it.index() as int),
    {
        let ghost k = it.index();
        let ghost prior = kept@;
        assert(s[k] == n@);
        match n {
            Node::Text(t) => {
                let chars = to_chars(t.as_str());
                if chars.len() > 0 {
                    let node = Node::Text(t);
                    proof { lemma_nodes_view_push(prior, node); }
                    kept.push(node);
                }
            },
            Node::Element(c) => {
                let mut c = c;
                let ghost cv = c@;
                assert(s[k] == NodeView::Element(cv));
                assert(0 <= k < s.len());
                assert(decreases_to!(before => before.children));
                assert(decreases_to!(before.children => before.children[k]));
                assert(decreases_to!(before.children[k] => before.children[k]->Element_0));
                normalize_empty_text(&mut c);
                let node = Node::Element(c);
                proof { lemma_nodes_view_push(prior, node); }
                kept.push(node);
            },
            other => {
                proof { lemma_nodes_view_push(prior, other); }
                kept.push(other);
            },
        }
        assert(nodes_view(kept@) =~= normalized_children(s, k + 1));
    }
    e.children = kept;
    proof { lemma_children_view(*e); }
    assert(e@ =~= normalized(before));
}

fn opt_string_eq(a: &Option<String>, b: &Option<String>) -> (r: bool)
    ensures
        r == (opt_view(*a) == opt_view(*b)),
{
    match (a, b) {
        (Some(x), Some(y)) => str_eq(x.as_str(), y.as_str()),
        (None, None) => true,
        _ => false,
    }
}

fn attributes_eq(a: &Vec<Attribute>, b: &Vec<Attribute>) -> (r: bool)
    ensures
        r == (a@.map_values(|x: Attribute| x@) == b@.map_values(|x: Attribute| x@)),
{
    let ghost va = a@.map_values(|x: Attribute| x@);
    let ghost vb = b@.map_values(|x: Attribute| x@);
    if a.len() != b.len() {
        assert(va.len() != vb.len());
        return false;
    }
    let mut i: usize = 0;
    while i < a.len()
        invariant
            i <= a@.len(),
            a@.len() == b@.len(),
            va == a@.map_values(|x: Attribute| x@),
            vb == b@.map_values(|x: Attribute| x@),
            forall|k: int| 0 <= k < i ==> va[k] == vb[k],
        decreases a@.len() - i,
    {
        let x = &a[i];
        let y = &b[i];
        let same = str_eq(x.qualified_name.as_str(), y.qualified_name.as_str())
            && str_eq(x.local_name.as_str(), y.local_name.as_str())
            && opt_string_eq(&x.prefix, &y.prefix)
            && opt_string_eq(&x.namespace, &y.namespace)
            && str_eq(x.value.as_str(), y.value.as_str());
        assert(va[i as int] == x@ && vb[i as int] == y@);
        if !same {
            assert(va[i as int] != vb[i as int]);
            return false;
        }
        i += 1;
    }
    assert(va =~= vb);
    true
}

/// Whether two elements are the same tree.
fn element_eq(a: &Element, b: &Element) -> (r: bool)
    ensures
        r == (a@ == b@),
    decreases a,
{
    proof {
        lemma_children_view(*a);
        lemma_children_view(*b);
    }
    if !str_eq(a.qualified_name.as_str(), b.qualified_name.as_str()) || !str_eq(a.local_name.as_str(), b.local_name.as_str())
        || !opt_string_eq(&a.prefix, &b.prefix) || !opt_string_eq(&a.namespace, &b.namespace)
        || !attributes_eq(&a.attributes, &b.attributes) {
        return false;
    }
    if a.children.len() != b.children.len() {
        assert(a@.children.len() != b@.children.len());
        return false;
    }
    let ghost sa = a@.children;
    let ghost sb = b@.children;
    let mut i: usize = 0;
    while i < a.children.len()
        invariant
            i <= a.children@.len(),
            a.children@.len() == b.children@.len(),
            sa == nodes_view(a.children@),
            sb == nodes_view(b.children@),
            sa == a@.children,
            sb == b@.children,
            forall|k: int| 0 <= k < i ==> sa[k] == sb[k],
        decreases a.children@.len() - i,
    {
        let same = match (&a.children[i], &b.children[i]) {
            (Node::Element(x), Node::Element(y)) => element_eq(x, y),
            (Node::Text(x), Node::Text(y)) => str_eq(x.as_str(), y.as_str()),
            (Node::Reference { name: x, text: t }, Node::Reference { name: y, text: u }) => {
                str_eq(x.as_str(), y.as_str()) && str_eq(t.as_str(), u.as_str())
            },
            (Node::CData(x), Node::CData(y)) => str_eq(x.as_str(), y.as_str()),
            (Node::Comment(x), Node::Comment(y)) => str_eq(x.as_str(), y.as_str()),
            (Node::ProcessingInstruction(x), Node::ProcessingInstruction(y)) => str_eq(x.as_str(), y.as_str()),
            _ => false,
        };
        assert(sa[i as int] == a.children@[i as int]@ && sb[i as int] == b.children@[i as int]@);
        if !same {
            assert(sa[i as int] != sb[i as int]);
            return false;
        }
        i += 1;
    }
    assert(sa =~= sb);
    true
}

/// Whether two node lists are the same trees.
fn nodes_eq(a: &Vec<Node>, b: &Vec<Node>) -> (r: bool)
    ensures
        r == (nodes_view(a@) == nodes_view(b@)),
{
    let ghost sa = nodes_view(a@);
    let ghost sb = nodes_view(b@);
    if a.len() != b.len() {
        assert(sa.len() != sb.len());
        return false;
    }
    let mut i: usize = 0;
    while i < a.len()
        invariant
            i <= a@.len(),
            a@.len() == b@.len(),
            sa == nodes_view(a@),
            sb == nodes_view(b@),
            forall|k: int| 0 <= k < i ==> sa[k] == sb[k],
        decreases a@.len() - i,
    {
        let same = match (&a[i], &b[i]) {
            (Node::Element(x), Node::Element(y)) => element_eq(x, y),
            (Node::Text(x), Node::Text(y)) => str_eq(x.as_str(), y.as_str()),
            (Node::Reference { name: x, text: t }, Node::Reference { name: y, text: u }) => {
                str_eq(x.as_str(), y.as_str()) && str_eq(t.as_str(), u.as_str())
            },
            (Node::CData(x), Node::CData(y)) => str_eq(x.as_str(), y.as_str()),
            (Node::Comment(x), Node::Comment(y)) => str_eq(x.as_str(), y.as_str()),
            (Node::ProcessingInstruction(x), Node::ProcessingInstruction(y)) => str_eq(x.as_str(), y.as_str()),
            _ => false,
        };
        assert(sa[i as int] == a@[i as int]@ && sb[i as int] == b@[i as int]@);
        if !same {
            assert(sa[i as int] != sb[i as int]);
            return false;
        }
        i += 1;
    }
    assert(sa =~= sb);
    true
}

/// The message of a tree whose serialized text does not parse.
pub open spec fn unparsable_message(e: ErrorView) -> Seq<char> {
    "tree does not serialize to valid namespace-aware XML: "@ + message_of(e)
}

/// The message of a tree that parsing its serialized text does not give back.
pub open spec fn mismatch_message() -> Seq<char> {
    "tree namespace or document-level metadata does not match the serialized XML"@
}

/// What building a document from `prolog`, `root` and `epilog` gives: the
/// root, without its empty text, must be named; only comments and processing
/// instructions may stand outside it; and parsing its serialization must give
/// the same prolog, root and epilog back.
pub open spec fn tree_outcome(prolog: Seq<NodeView>, root: ElementView, epilog: Seq<NodeView>) -> Result<DocumentView, ErrorView> {
    let d = DocumentView { prolog, root: normalized(root), epilog, max_xml_bytes: DEFAULT_MAX_XML_BYTES as nat };
    if d.root.qualified_name.len() == 0 || d.root.local_name.len() == 0 {
        Err(ErrorView::Json("root names cannot be empty"@))
    } else if !(all_misc(prolog) && all_misc(epilog)) {
        Err(ErrorView::Write(outside_root_message()))
    } else {
        match parse_limited(xml_text(false, document_events(d)), DEFAULT_MAX_XML_BYTES) {
            Err(e) => Err(ErrorView::Json(unparsable_message(e))),
            Ok(p) => if p.prolog == d.prolog && p.root == d.root && p.epilog == d.epilog {
                Ok(d)
            } else {
                Err(ErrorView::Json(mismatch_message()))
            },
        }
    }
}

impl Document {
    /// A document from its parts. Empty text nodes are dropped; the root must
    /// be named; and the tree must come back unchanged from serializing and
    /// parsing it, so that its namespaces and document-level nodes are
    /// consistent with its XML.
    pub fn from_tree(prolog: Vec<Node>, root: Element, epilog: Vec<Node>) -> (r: Result<Document, Error>)
        ensures
            document_result(r) == tree_outcome(nodes_view(prolog@), root@, nodes_view(epilog@)),
    {
        let mut root = root;
        normalize_empty_text(&mut root);
        let qualified = to_chars(root.qualified_name.as_str());
        let local = to_chars(root.local_name.as_str());
        if qualified.len() == 0 || local.len() == 0 {
            return Err(Error::Json(owned("root names cannot be empty")));
        }
        let document = Document { prolog, root, epilog, max_xml_bytes: DEFAULT_MAX_XML_BYTES };
        proof { lemma_document_view(document); }
        let xml = document.to_xml(false)?;
        proof { lemma_parse_error_kind(xml@, DEFAULT_MAX_XML_BYTES); }
        let reparsed = match Document::parse(xml.as_str()) {
            Ok(d) => d,
            Err(e) => {
                let mut message = owned("tree does not serialize to valid namespace-aware XML: ");
                message.append(e.message().as_str());
                return Err(Error::Json(message));
            },
        };
        proof { lemma_document_view(reparsed); }
        if !nodes_eq(&reparsed.prolog, &document.prolog) || !element_eq(&reparsed.root, &document.root)
            || !nodes_eq(&reparsed.epilog, &document.epilog) {
            return Err(Error::Json(owned("tree namespace or document-level metadata does not match the serialized XML")));
        }
        Ok(document)
    }
}

} // verus!
