use openbim_idm::path::{format_path, parse_path, PathSegment};
use openbim_idm::{Document, Element, Node, XmlToken};

#[test]
fn set_text_then_text_reads_the_value() {
    let mut document = Document::parse("<idm><a>x<![CDATA[y]]><b/>z</a></idm>").unwrap();
    document.set_text("/idm/a[0]", "new").unwrap();
    assert_eq!(document.text("/idm/a[0]").unwrap(), "new");
    assert_eq!(document.child_element_names("/idm/a[0]").unwrap(), ["b"]);
}

#[test]
fn set_attribute_then_attribute_reads_the_value() {
    let mut document = Document::parse("<idm xmlns:p=\"urn:p\"><a p:k=\"1\" k=\"2\"/></idm>").unwrap();
    document.set_attribute("/idm/a[0]", "p:k", "3").unwrap();
    assert_eq!(document.attribute("/idm/a[0]", "p:k").unwrap(), "3");
    document.set_attribute("/idm/a[0]", "fresh", "4").unwrap();
    assert_eq!(document.attribute("/idm/a[0]", "fresh").unwrap(), "4");
}

#[test]
fn count_matches_the_number_of_listed_paths() {
    let document = Document::parse("<idm><a><a/></a><b><a/></b><a/></idm>").unwrap();
    assert_eq!(document.count("a"), 4);
    assert_eq!(document.element_paths("a").len(), 4);
    assert_eq!(document.count("idm"), document.element_paths("idm").len());
    assert_eq!(document.count("none"), document.element_paths("none").len());
}

#[test]
fn moving_keeps_the_other_children_in_order() {
    let mut document = Document::parse("<idm><c n=\"1\"/><x/><c n=\"2\"/><c n=\"3\"/></idm>").unwrap();
    let landed = document.move_schema_node("/idm/c[2]", "/idm/c[0]", false).unwrap();
    assert_eq!(landed, "/idm/c[0]");
    assert_eq!(document.attribute("/idm/c[0]", "n").unwrap(), "3");
    assert_eq!(document.attribute("/idm/c[1]", "n").unwrap(), "1");
    assert_eq!(document.attribute("/idm/c[2]", "n").unwrap(), "2");
    assert_eq!(document.child_element_names("/idm").unwrap(), ["c", "c", "x", "c"]);
}

#[test]
fn appended_path_leads_to_the_new_element() {
    let mut document = Document::parse("<idm><a/><b/><a/></idm>").unwrap();
    let path = document.append_element("/idm", "a", None).unwrap();
    assert_eq!(path, "/idm/a[2]");
    let element = document.element(&path).unwrap();
    assert_eq!(element.local_name(), "a");
    assert!(element.children.is_empty());
    assert_eq!(document.root().children.len(), 4);
}

#[test]
fn removing_the_appended_path_restores_the_document() {
    let before_append = Document::parse("<idm xmlns:v=\"urn:v\"><a><v:x/></a></idm>").unwrap();
    let mut document = Document::parse("<idm xmlns:v=\"urn:v\"><a><v:x/></a></idm>").unwrap();
    let path = document.append_element("/idm/a[0]", "v:x", None).unwrap();
    assert_eq!(path, "/idm/a[0]/x[1]");
    assert_ne!(document, before_append);
    document.remove(&path).unwrap();
    assert_eq!(document, before_append);
}

#[test]
fn formatted_paths_parse_back_to_their_segments() {
    let segments = vec![
        PathSegment { name: "idm".into(), index: 0 },
        PathSegment { name: "uc".into(), index: 12 },
        PathSegment { name: "subUc".into(), index: 0 },
    ];
    let text = format_path(&segments, 3);
    assert_eq!(text, "/idm/uc[12]/subUc");
    let parsed = parse_path(&text).unwrap();
    let pairs: Vec<(&str, usize)> = parsed.iter().map(|s| (s.name.as_str(), s.index)).collect();
    assert_eq!(pairs, [("idm", 0), ("uc", 12), ("subUc", 0)]);
    assert!(parse_path("/idm/uc[x]").is_none());
    assert!(parse_path("idm").is_none());
    assert!(parse_path("/").is_none());
    assert!(parse_path("/@a").is_none());
    let prefixed = parse_path("/p:idm[0]").unwrap();
    assert_eq!((prefixed[0].name.as_str(), prefixed[0].index), ("idm", 0));
}

#[test]
fn edits_leave_unrelated_elements_as_they_were() {
    let source = "<idm><a><x k=\"1\">t</x></a><b><y>u</y></b></idm>";
    let untouched = Document::parse(source).unwrap();
    let mut document = Document::parse(source).unwrap();
    document.set_text("/idm/a[0]/x[0]", "changed").unwrap();
    document.set_attribute("/idm/a[0]/x[0]", "k", "2").unwrap();
    assert_eq!(document.element("/idm/b[0]").unwrap(), untouched.element("/idm/b[0]").unwrap());
    assert_eq!(document.element("/idm/b[0]/y[0]").unwrap(), untouched.element("/idm/b[0]/y[0]").unwrap());
    assert_ne!(document.element("/idm/a[0]").unwrap(), untouched.element("/idm/a[0]").unwrap());
}

fn head_of(e: &Element) -> Element {
    Element {
        qualified_name: e.qualified_name.clone(),
        local_name: e.local_name.clone(),
        prefix: e.prefix.clone(),
        namespace: e.namespace.clone(),
        attributes: e.attributes.clone(),
        children: Vec::new(),
    }
}

fn events_of(e: &Element, out: &mut Vec<XmlToken>) {
    if e.children.is_empty() {
        out.push(XmlToken::Empty(head_of(e)));
        return;
    }
    out.push(XmlToken::Start(head_of(e)));
    for child in &e.children {
        match child {
            Node::Element(c) => events_of(c, out),
            Node::Text(t) => out.push(XmlToken::Text(t.clone())),
            Node::Reference { name, text } => {
                out.push(XmlToken::Reference { name: name.clone(), text: text.clone() })
            },
            Node::CData(t) => out.push(XmlToken::CData(t.clone())),
            Node::Comment(t) => out.push(XmlToken::Comment(t.clone())),
            Node::ProcessingInstruction(t) => out.push(XmlToken::ProcessingInstruction(t.clone())),
        }
    }
    out.push(XmlToken::End);
}

#[test]
fn the_events_of_a_document_rebuild_it() {
    let source = "<!--p--><idm xmlns:v=\"urn:v\" a=\"1\"><v:x>t<![CDATA[c]]><!--k--><?pi d?><y/></v:x>u</idm><?e?>";
    let document = Document::parse(source).unwrap();
    let mut tokens = vec![XmlToken::Declaration, XmlToken::Comment("p".into())];
    events_of(document.root(), &mut tokens);
    tokens.push(XmlToken::ProcessingInstruction("e".into()));
    let rebuilt = Document::from_tokens(tokens, document.max_xml_bytes()).unwrap();
    assert_eq!(rebuilt, document);
}

#[test]
fn listed_paths_lead_to_the_listed_elements() {
    let document = Document::parse(
        "<idm><a guid=\"g\"/><b><a/><c guid=\"g\"/></b><a><a guid=\"h\"/></a></idm>",
    )
    .unwrap();
    let paths = document.element_paths("a");
    assert_eq!(paths, ["/idm/a[0]", "/idm/b[0]/a[0]", "/idm/a[1]", "/idm/a[1]/a[0]"]);
    for path in &paths {
        assert_eq!(document.element(path).unwrap().local_name(), "a");
    }
    let found = document.find_by_guid("g");
    assert_eq!(found, ["/idm/a[0]", "/idm/b[0]/c[0]"]);
    for path in &found {
        assert_eq!(document.attribute(path, "guid").unwrap(), "g");
    }
}
