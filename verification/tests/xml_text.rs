use openbim_idm::{
    local_schema_inventory, parse_schema, Attribute, Document, Element, Error, Node, SchemaCatalog,
    DEFAULT_MAX_XML_DEPTH,
};

fn catalog() -> SchemaCatalog {
    SchemaCatalog {
        profile: "test".into(),
        root: "idm".into(),
        namespace: None,
        schemas: Vec::new(),
        element_names: vec!["idm".into(), "uc".into()],
        global_elements: vec!["idm".into()],
        attribute_names: vec!["fullTitle".into(), "guid".into()],
        enum_values: vec!["draft".into(), "final".into()],
        recursive_edges: Vec::new(),
        elements: Vec::new(),
        semantic_overlays: Vec::new(),
    }
}

#[test]
fn references_are_kept_as_written_with_their_text() {
    let document = Document::parse("<idm>x&#x41;&lt;y</idm>").unwrap();
    assert_eq!(
        document.root().children,
        vec![
            Node::Text("x".into()),
            Node::Reference { name: "#x41".into(), text: "A".into() },
            Node::Reference { name: "lt".into(), text: "<".into() },
            Node::Text("y".into()),
        ]
    );
    assert_eq!(document.text("/idm").unwrap(), "xA<y");
    let mut edited = Document::parse("<idm>x&#x41;<a/></idm>").unwrap();
    edited.set_text("/idm", "v&w").unwrap();
    assert_eq!(edited.text("/idm").unwrap(), "v&w");
    assert_eq!(
        edited.to_xml(false).unwrap(),
        "<?xml version=\"1.0\" encoding=\"UTF-8\"?><idm>v&amp;w<a/></idm>"
    );
    match Document::parse("&amp;<idm/>") {
        Err(Error::Xml(message)) => assert_eq!(message, "text outside the root element"),
        other => panic!("unexpected {other:?}"),
    }
    assert!(Document::parse("&#32;<idm/>").is_ok());
}

#[test]
fn serializes_every_node_kind_in_document_order() {
    let document = Document::parse(
        "<!--a--><?p q?><idm xmlns:v=\"urn:v\" v:k=\"1\"><s/>t<![CDATA[c]]><!--m--><?i j?></idm><!--b-->",
    )
    .unwrap();
    assert_eq!(
        document.to_xml(false).unwrap(),
        "<?xml version=\"1.0\" encoding=\"UTF-8\"?><!--a--><?p q?><idm xmlns:v=\"urn:v\" v:k=\"1\"><s/>t<![CDATA[c]]><!--m--><?i j?></idm><!--b-->"
    );
    let pretty = Document::parse("<idm><a><b/></a></idm>").unwrap().to_xml(true).unwrap();
    assert_eq!(
        pretty,
        "<?xml version=\"1.0\" encoding=\"UTF-8\"?>\n<idm>\n  <a>\n    <b/>\n  </a>\n</idm>"
    );
}

#[test]
fn serialized_documents_parse_back_unchanged() {
    let source = "<!--a--><idm xmlns=\"urn:d\" xmlns:v=\"urn:v\"><v:x v:k=\"1\">t</v:x><![CDATA[c]]><?i j?></idm>";
    let document = Document::parse(source).unwrap();
    let reparsed = Document::parse(&document.to_xml(false).unwrap()).unwrap();
    assert_eq!(reparsed, document);
    let reparsed = Document::parse(&document.to_xml(true).unwrap()).unwrap();
    assert_eq!(reparsed.root().namespace_uri(), Some("urn:d"));
}

#[test]
fn parsing_fixes_prolog_root_and_epilog() {
    let document = Document::parse("<!--a--><idm><?p q?></idm><!--b-->").unwrap();
    assert_eq!(document.prolog(), &vec![Node::Comment("a".into())]);
    assert_eq!(document.epilog(), &vec![Node::Comment("b".into())]);
    assert_eq!(document.root().local_name(), "idm");
    assert_eq!(document.root().children, vec![Node::ProcessingInstruction("p q".into())]);
    let plain = Document::parse("<idm/>").unwrap();
    assert_eq!(plain.root().local_name(), "idm");
    assert_eq!(plain.root().namespace_uri(), None);
    assert!(plain.root().attributes.is_empty());
    assert!(plain.root().children.is_empty());
    match Document::parse("<a/><b/>") {
        Err(Error::Xml(message)) => assert_eq!(message, "document has multiple root elements"),
        other => panic!("unexpected {other:?}"),
    }
    match Document::parse("") {
        Err(Error::Xml(message)) => assert_eq!(message, "document has no root element"),
        other => panic!("unexpected {other:?}"),
    }
    match Document::parse("<broken>") {
        Err(Error::Xml(message)) => assert_eq!(message, "unclosed element"),
        other => panic!("unexpected {other:?}"),
    }
    match Document::parse("<!DOCTYPE idm><idm/>") {
        Err(Error::Xml(message)) => assert_eq!(message, "DOCTYPE declarations are not supported in IDM documents"),
        other => panic!("unexpected {other:?}"),
    }
    match Document::parse("<p:idm/>") {
        Err(Error::Xml(message)) => assert_eq!(message, "unknown namespace prefix `p`"),
        other => panic!("unexpected {other:?}"),
    }
    match Document::parse("<idm>&nbsp;</idm>") {
        Err(Error::Xml(message)) => assert_eq!(message, "undefined entity reference `&nbsp;`"),
        other => panic!("unexpected {other:?}"),
    }
}

#[test]
fn nesting_is_limited_at_any_tag_beyond_the_limit() {
    let nest = |n: usize| format!("{}{}", "<subIdm>".repeat(n), "</subIdm>".repeat(n));
    assert!(Document::parse(&nest(DEFAULT_MAX_XML_DEPTH)).is_ok());
    match Document::parse(&nest(DEFAULT_MAX_XML_DEPTH + 1)) {
        Err(Error::MaxDepthExceeded { maximum }) => assert_eq!(maximum, 1024),
        other => panic!("unexpected {other:?}"),
    }
    let wrapped = |n: usize| format!("{}<x/>{}", "<subIdm>".repeat(n), "</subIdm>".repeat(n));
    assert!(Document::parse(&wrapped(DEFAULT_MAX_XML_DEPTH - 1)).is_ok());
    match Document::parse(&wrapped(DEFAULT_MAX_XML_DEPTH)) {
        Err(Error::MaxDepthExceeded { maximum }) => assert_eq!(maximum, 1024),
        other => panic!("unexpected {other:?}"),
    }
    match Document::parse_with_limit("<idm/>", 5) {
        Err(Error::InputTooLarge { actual, maximum }) => assert_eq!((actual, maximum), (6, 5)),
        other => panic!("unexpected {other:?}"),
    }
    assert_eq!(Document::parse_with_limit("<idm/>", 6).unwrap().max_xml_bytes(), 6);
}

#[test]
fn start_tags_give_attributes_in_source_order_with_namespaces() {
    let document = Document::parse("<idm xmlns:v=\"urn:v\" b=\"2\" v:a=\" x\ny \"/>").unwrap();
    let attributes: &Vec<Attribute> = &document.root().attributes;
    assert_eq!(attributes.len(), 3);
    assert_eq!(attributes[0].namespace.as_deref(), Some("http://www.w3.org/2000/xmlns/"));
    assert_eq!(attributes[1].qualified_name, "b");
    assert_eq!(attributes[1].namespace, None);
    assert_eq!(attributes[2].local_name, "a");
    assert_eq!(attributes[2].prefix.as_deref(), Some("v"));
    assert_eq!(attributes[2].namespace.as_deref(), Some("urn:v"));
    assert_eq!(attributes[2].value, " x y ");
    assert!(matches!(Document::parse("<idm a=\"1\" a=\"2\"/>"), Err(Error::Xml(_))));
    match Document::parse("<idm q:a=\"1\"/>") {
        Err(Error::Xml(message)) => assert_eq!(message, "unknown namespace prefix `q`"),
        other => panic!("unexpected {other:?}"),
    }
}

#[test]
fn writing_refuses_content_outside_the_root() {
    let root = Element::new("idm", None);
    match Document::from_tree(vec![Node::Text("t".into())], Element::new("idm", None), Vec::new()) {
        Err(Error::Write(message)) => {
            assert_eq!(message, "only comments and processing instructions are valid outside the root element")
        },
        other => panic!("unexpected {other:?}"),
    }
    match Document::from_tree(Vec::new(), Element::new("", None), Vec::new()) {
        Err(Error::Json(message)) => assert_eq!(message, "root names cannot be empty"),
        other => panic!("unexpected {other:?}"),
    }
    let mut undeclared = Element::new("p:idm", None);
    undeclared.namespace = Some("urn:p".into());
    match Document::from_tree(Vec::new(), undeclared, Vec::new()) {
        Err(Error::Json(message)) => assert!(
            message.starts_with("tree does not serialize to valid namespace-aware XML: invalid XML: "),
            "{message}"
        ),
        other => panic!("unexpected {other:?}"),
    }
    match Document::from_tree(Vec::new(), Element::new("idm", Some("urn:lost")), Vec::new()) {
        Err(Error::Json(message)) => {
            assert_eq!(message, "tree namespace or document-level metadata does not match the serialized XML")
        },
        other => panic!("unexpected {other:?}"),
    }
    let kept = Document::from_tree(vec![Node::Comment("c".into())], root, Vec::new()).unwrap();
    assert_eq!(kept.prolog(), &vec![Node::Comment("c".into())]);
}

#[test]
fn schema_texts_fail_with_the_parse_message() {
    match parse_schema("<broken>") {
        Err(Error::Schema(message)) => assert_eq!(message, "invalid XML: unclosed element"),
        other => panic!("unexpected {other:?}"),
    }
    let sources = vec!["<s/>".to_owned(), "<a/><b/>".to_owned(), "<c>".to_owned()];
    match local_schema_inventory(&catalog(), &sources) {
        Err(Error::Schema(message)) => assert_eq!(message, "invalid XML: document has multiple root elements"),
        other => panic!("unexpected {other:?}"),
    }
}

#[test]
fn inventories_list_names_in_ascending_order() {
    let sources = vec![
        "<s><complexType name=\"Zeta\"/><complexType name=\"alpha\"/></s>".to_owned(),
        "<s><complexType name=\"Beta\"/><complexType name=\"Zeta\"/><simpleType name=\"b\"/><simpleType name=\"a\"/></s>"
            .to_owned(),
    ];
    let inventory = local_schema_inventory(&catalog(), &sources).unwrap();
    assert_eq!(inventory.complex_types, ["Beta", "Zeta", "alpha"]);
    assert_eq!(inventory.simple_types, ["a", "b"]);
    assert_eq!(inventory.attributes, ["fullTitle", "guid"]);
}

#[test]
fn catalogs_keep_one_rule_per_handle_and_names_once() {
    assert!(catalog().is_well_formed());
    let mut unsorted = catalog();
    unsorted.attribute_names = vec!["guid".into(), "fullTitle".into()];
    assert!(!unsorted.is_well_formed());
    let mut repeated = catalog();
    repeated.enum_values = vec!["draft".into(), "draft".into()];
    assert!(!repeated.is_well_formed());
}
