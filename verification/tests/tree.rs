use openbim_idm::{
    check_schema_name, local_schema_inventory, schema_files, Attribute, Document, Element, Error, Node, XmlToken,
    SchemaCatalog, IDM_SCHEMA_LOCATION,
};

const SOURCE: &str = "<!-- before --><?setup keep?>\
    <idm xmlns:vendor=\"urn:vendor\" xmlns:dt=\"urn:dt\">\
    <specId guid=\"a\" dt:code=\"c\"/>\
    <!--preserve this comment-->\
    <uc><specId guid=\"b\"/>text<![CDATA[future <content>]]></uc>\
    <vendor:Extension vendor:flag=\"kept\"/>\
    <uc><specId/></uc>\
    <?idm-editor keep-me?>\
    </idm>\
    <!-- after -->";

#[test]
fn round_trips_comments_cdata_vendor_content_and_instructions() {
    let document = Document::parse(SOURCE).expect("parses");
    assert_eq!(document.root().local_name(), "idm");
    assert_eq!(document.root().namespace_uri(), None);
    assert_eq!(document.root().prefix(), None);
    let xml = document.to_xml(false).expect("serializes");
    assert!(xml.starts_with("<?xml version=\"1.0\" encoding=\"UTF-8\"?>"));
    assert!(xml.contains("preserve this comment"));
    assert!(xml.contains("<![CDATA[future <content>]]>"));
    assert!(xml.contains("vendor:Extension"));
    assert!(xml.contains("vendor:flag=\"kept\""));
    assert!(xml.contains("<?idm-editor keep-me?>"));
    assert!(xml.contains("<!-- before -->"));
    assert!(xml.ends_with("<!-- after -->"));
    let reparsed = Document::parse(&xml).expect("reparses");
    assert_eq!(reparsed, document);
    let extension = document.element("/idm/Extension[0]").unwrap();
    assert_eq!(extension.namespace_uri(), Some("urn:vendor"));
    assert_eq!(extension.prefix(), Some("vendor"));
    assert_eq!(extension.attributes[0].namespace.as_deref(), Some("urn:vendor"));
}

#[test]
fn counts_and_lists_elements_by_name_and_guid() {
    let document = Document::parse(SOURCE).unwrap();
    assert_eq!(document.count("uc"), 2);
    assert_eq!(document.count("specId"), 3);
    assert_eq!(document.element_paths("specId"), ["/idm/specId[0]", "/idm/uc[0]/specId[0]", "/idm/uc[1]/specId[0]"]);
    // The number of paths listed is the count.
    assert_eq!(document.element_paths("uc").len(), document.count("uc"));
    assert_eq!(document.find_by_guid("b"), ["/idm/uc[0]/specId[0]"]);
    assert!(document.find_by_guid("zzz").is_empty());
    assert_eq!(document.child_element_names("/idm").unwrap(), ["specId", "uc", "Extension", "uc"]);
}

#[test]
fn reads_and_writes_text_and_attributes_by_path() {
    let mut document = Document::parse(SOURCE).unwrap();
    assert_eq!(document.text("/idm/uc[0]").unwrap(), "textfuture <content>");
    document.set_text("/idm/uc[0]", "replaced").unwrap();
    assert_eq!(document.text("/idm/uc[0]").unwrap(), "replaced");
    assert_eq!(document.child_element_names("/idm/uc[0]").unwrap(), ["specId"]);
    assert_eq!(document.attribute("/idm/specId[0]", "dt:code").unwrap(), "c");
    assert_eq!(document.attribute("/idm/specId[0]", "code").unwrap(), "c");
    match document.attribute("/idm/specId[0]", "x:code") {
        Err(Error::PathNotFound(path)) => assert_eq!(path, "/idm/specId[0]/@x:code"),
        other => panic!("unexpected {other:?}"),
    }
    document.set_attribute("/idm/specId[0]", "dt:extra", "v").unwrap();
    assert_eq!(document.attribute("/idm/specId[0]", "dt:extra").unwrap(), "v");
    let spec = document.element("/idm/specId[0]").unwrap();
    let extra = spec.attributes.iter().find(|a| a.qualified_name == "dt:extra").unwrap();
    assert_eq!(extra.namespace.as_deref(), Some("urn:dt"));
    document.set_attribute("/idm/specId[0]", "guid", "c").unwrap();
    assert_eq!(document.attribute("/idm/specId[0]", "guid").unwrap(), "c");
    match document.set_text("/idm/uc[5]", "x") {
        Err(Error::PathNotFound(path)) => assert_eq!(path, "/idm/uc[5]"),
        other => panic!("unexpected {other:?}"),
    }
    match document.set_attribute("idm", "a", "b") {
        Err(Error::InvalidPath(path)) => assert_eq!(path, "idm"),
        other => panic!("unexpected {other:?}"),
    }
}

#[test]
fn appends_removes_and_moves_elements() {
    let mut document = Document::parse(SOURCE).unwrap();
    let path = document.append_element("/idm", "vendor:Note", None).unwrap();
    assert_eq!(path, "/idm/Note[0]");
    let note = document.element(&path).unwrap();
    assert_eq!(note.namespace_uri(), Some("urn:vendor"));
    let second = document.append_element("/idm", "uc", Some("urn:other")).unwrap();
    assert_eq!(second, "/idm/uc[2]");
    assert_eq!(document.element(&second).unwrap().namespace_uri(), Some("urn:other"));
    document.remove("/idm/uc[2]").unwrap();
    assert_eq!(document.count("uc"), 2);
    match document.remove("/idm") {
        Err(Error::InvalidPath(message)) => assert_eq!(message, "the root element cannot be removed"),
        other => panic!("unexpected {other:?}"),
    }
    match document.remove("/idm/uc[9]") {
        Err(Error::PathNotFound(path)) => assert_eq!(path, "/idm/uc[9]"),
        other => panic!("unexpected {other:?}"),
    }
    let moved = document.move_schema_node("/idm/uc[1]", "/idm/uc[0]", false).unwrap();
    assert_eq!(moved, "/idm/uc[0]");
    assert_eq!(document.text("/idm/uc[1]").unwrap(), "textfuture <content>");
    assert_eq!(document.move_schema_node("/idm/uc[0]", "/idm/uc[0]", true).unwrap(), "/idm/uc[0]");
    match document.move_schema_node("/idm", "/idm/uc[0]", true) {
        Err(Error::InvalidPath(message)) => assert_eq!(message, "the IDM root cannot be moved"),
        other => panic!("unexpected {other:?}"),
    }
}

#[test]
fn new_documents_declare_the_schema_location() {
    let document = Document::new();
    assert_eq!(document.root().local_name(), "idm");
    assert_eq!(document.max_xml_bytes(), openbim_idm::DEFAULT_MAX_XML_BYTES);
    assert_eq!(document.attribute("/idm", "xsi:noNamespaceSchemaLocation").unwrap(), IDM_SCHEMA_LOCATION);
    assert_eq!(
        document.to_xml(false).unwrap(),
        "<?xml version=\"1.0\" encoding=\"UTF-8\"?><idm xmlns:xsi=\"http://www.w3.org/2001/XMLSchema-instance\" xsi:noNamespaceSchemaLocation=\"idm.xsd\"/>"
    );
}

#[test]
fn parse_limits_and_errors() {
    match Document::parse_with_limit("<idm/>", 3) {
        Err(Error::InputTooLarge { actual, maximum }) => assert_eq!((actual, maximum), (6, 3)),
        other => panic!("unexpected {other:?}"),
    }
    let document = Document::parse_with_limit("<idm/>", 6).unwrap();
    assert_eq!(document.max_xml_bytes(), 6);
    assert!(matches!(Document::parse("text<idm/>"), Err(Error::Xml(_))));
    assert!(matches!(Document::parse("<a/><b/>"), Err(Error::Xml(_))));
    assert!(matches!(Document::parse("<x:a/>"), Err(Error::Xml(_))));
}

#[test]
fn error_messages_describe_each_failure() {
    let too_large = Error::InputTooLarge { actual: 10, maximum: 5 };
    assert_eq!(too_large.message(), "XML input is 10 bytes; the configured maximum is 5 bytes");
    assert_eq!(Error::MaxDepthExceeded { maximum: 1024 }.message(), "XML nesting exceeds the maximum depth of 1024");
    assert_eq!(Error::Xml("bad".into()).message(), "invalid XML: bad");
    assert_eq!(Error::Write("w".into()).message(), "could not serialize XML: w");
    assert_eq!(Error::InvalidPath("p".into()).message(), "invalid path `p`");
    assert_eq!(Error::PathNotFound("p".into()).message(), "path not found: `p`");
    assert_eq!(Error::Schema("s".into()).message(), "schema inventory error: s");
    assert_eq!(Error::Json("j".into()).message(), "JSON document error: j");
    assert_eq!(Error::Cardinality("c".into()).message(), "schema cardinality violation: c");
}

#[test]
fn elements_and_attributes_split_qualified_names() {
    let mut element = Element::new("dt:Name", Some("urn:dt"));
    assert_eq!(element.local_name(), "Name");
    assert_eq!(element.prefix(), Some("dt"));
    assert_eq!(element.namespace_uri(), Some("urn:dt"));
    element.set_attribute("x:a", "1");
    element.set_attribute("x:a", "2");
    element.set_attribute("b", "3");
    assert_eq!(
        element.attributes,
        [
            Attribute {
                qualified_name: "x:a".into(),
                local_name: "a".into(),
                prefix: Some("x".into()),
                namespace: None,
                value: "2".into(),
            },
            Attribute {
                qualified_name: "b".into(),
                local_name: "b".into(),
                prefix: None,
                namespace: None,
                value: "3".into(),
            },
        ]
    );
}

#[test]
fn trees_become_documents_only_when_they_survive_serialization() {
    let mut root = Element::new("idm", None);
    root.children.push(Node::Text(String::new()));
    let mut child = Element::new("uc", None);
    child.children.push(Node::Text(String::new()));
    child.children.push(Node::Text("kept".into()));
    root.children.push(Node::Element(child));
    let document = Document::from_tree(vec![Node::Comment(" c ".into())], root, Vec::new()).unwrap();
    assert_eq!(document.text("/idm/uc[0]").unwrap(), "kept");
    assert_eq!(document.child_element_names("/idm").unwrap(), ["uc"]);
    assert_eq!(document.root().children.len(), 1);

    match Document::from_tree(Vec::new(), Element::new("", None), Vec::new()) {
        Err(Error::Json(message)) => assert_eq!(message, "root names cannot be empty"),
        other => panic!("unexpected {other:?}"),
    }
    match Document::from_tree(Vec::new(), Element::new("x:a", None), Vec::new()) {
        Err(Error::Json(message)) => {
            assert!(message.starts_with("tree does not serialize to valid namespace-aware XML: "), "{message}")
        }
        other => panic!("unexpected {other:?}"),
    }
    match Document::from_tree(Vec::new(), Element::new("a", Some("urn:a")), Vec::new()) {
        Err(Error::Json(message)) => assert_eq!(
            message,
            "tree namespace or document-level metadata does not match the serialized XML"
        ),
        other => panic!("unexpected {other:?}"),
    }
    match Document::from_tree(vec![Node::Text("x".into())], Element::new("a", None), Vec::new()) {
        Err(Error::Write(_)) => {}
        other => panic!("unexpected {other:?}"),
    }
}

fn empty_catalog() -> SchemaCatalog {
    SchemaCatalog {
        profile: "p".into(),
        root: "idm".into(),
        namespace: None,
        schemas: Vec::new(),
        element_names: vec!["idm".into(), "uc".into(), "idm".into()],
        global_elements: Vec::new(),
        attribute_names: vec!["guid".into()],
        enum_values: vec!["draft".into()],
        recursive_edges: Vec::new(),
        elements: Vec::new(),
        semantic_overlays: Vec::new(),
    }
}

#[test]
fn schema_names_are_limited_to_the_six_files() {
    assert_eq!(schema_files().len(), 6);
    assert_eq!(schema_files()[5], "idm.xsd");
    assert!(check_schema_name("idm.xsd").is_ok());
    match check_schema_name("../idm.xsd") {
        Err(Error::Schema(message)) => assert_eq!(message, "unknown schema filename `../idm.xsd`"),
        other => panic!("unexpected {other:?}"),
    }
}

#[test]
fn inventories_collect_declared_types() {
    let sources = vec![
        "<xs:schema xmlns:xs=\"urn:xs\"><xs:complexType name=\"A\"/><xs:simpleType name=\"S\"><xs:restriction><xs:enumeration value=\"v\"/></xs:restriction></xs:simpleType></xs:schema>".to_owned(),
        "<xs:schema xmlns:xs=\"urn:xs\"><xs:element name=\"e\"><xs:complexType name=\"A\"/><xs:complexType name=\"B\"/></xs:element></xs:schema>".to_owned(),
    ];
    let inventory = local_schema_inventory(&empty_catalog(), &sources).unwrap();
    assert_eq!(inventory.complex_types, ["A", "B"]);
    assert_eq!(inventory.simple_types, ["S"]);
    assert_eq!(inventory.elements, ["idm", "uc"]);
    assert_eq!(inventory.attributes, ["guid"]);
    assert_eq!(inventory.enum_values, ["draft"]);
    match local_schema_inventory(&empty_catalog(), &vec!["<broken>".to_owned()]) {
        Err(Error::Schema(message)) => assert!(message.starts_with("invalid XML: "), "{message}"),
        other => panic!("unexpected {other:?}"),
    }
}

#[test]
fn documents_are_built_from_token_sequences() {
    let root = Element::new("idm", None);
    let child = Element::new("a", None);
    let tokens = vec![
        XmlToken::Declaration,
        XmlToken::Comment(" c ".into()),
        XmlToken::Start(root),
        XmlToken::Text("x".into()),
        XmlToken::Text("y".into()),
        XmlToken::Empty(child),
        XmlToken::End,
        XmlToken::ProcessingInstruction("pi".into()),
    ];
    let document = Document::from_tokens(tokens, 100).unwrap();
    assert_eq!(document.prolog(), &vec![Node::Comment(" c ".into())]);
    assert_eq!(document.epilog(), &vec![Node::ProcessingInstruction("pi".into())]);
    assert_eq!(document.text("/idm").unwrap(), "xy");
    assert_eq!(document.max_xml_bytes(), 100);
    match Document::from_tokens(vec![XmlToken::End], 100) {
        Err(Error::Xml(message)) => assert_eq!(message, "unexpected closing element"),
        other => panic!("unexpected {other:?}"),
    }
    match Document::from_tokens(vec![XmlToken::DocType], 100) {
        Err(Error::Xml(message)) => assert_eq!(message, "DOCTYPE declarations are not supported in IDM documents"),
        other => panic!("unexpected {other:?}"),
    }
    match Document::from_tokens(vec![XmlToken::Start(Element::new("idm", None))], 100) {
        Err(Error::Xml(message)) => assert_eq!(message, "unclosed element"),
        other => panic!("unexpected {other:?}"),
    }
    match Document::from_tokens(vec![XmlToken::Comment("c".into())], 100) {
        Err(Error::Xml(message)) => assert_eq!(message, "document has no root element"),
        other => panic!("unexpected {other:?}"),
    }
    match Document::from_tokens(
        vec![XmlToken::Empty(Element::new("a", None)), XmlToken::Empty(Element::new("b", None))],
        100,
    ) {
        Err(Error::Xml(message)) => assert_eq!(message, "document has multiple root elements"),
        other => panic!("unexpected {other:?}"),
    }
    match Document::from_tokens(vec![XmlToken::Text("t".into()), XmlToken::Empty(Element::new("a", None))], 100) {
        Err(Error::Xml(message)) => assert_eq!(message, "text outside the root element"),
        other => panic!("unexpected {other:?}"),
    }
}

#[test]
fn the_default_document_is_the_new_document() {
    assert_eq!(Document::default(), Document::new());
    assert!(Document::new().prolog().is_empty());
    assert!(Document::new().epilog().is_empty());
}
