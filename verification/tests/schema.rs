use openbim_idm::{
    AttributeRule, ChildRule, ChoiceGroup, Document, ElementRule, Error, SchemaCatalog, SemanticOverlay,
    ValidationSeverity,
};

fn attr(name: &str, required: bool, default: Option<&str>, enum_values: &[&str]) -> AttributeRule {
    AttributeRule {
        name: name.to_owned(),
        required,
        default: default.map(str::to_owned),
        data_type: None,
        pattern: None,
        enum_values: enum_values.iter().map(|v| (*v).to_owned()).collect(),
        label_key: format!("schema.attribute.{name}"),
        source_file: "test.xsd".to_owned(),
        source_line: 1,
    }
}

fn child(name: &str, definition: &str, min: usize, max: Option<usize>, group: Option<&str>, recursive: bool) -> ChildRule {
    ChildRule {
        name: name.to_owned(),
        definition: definition.to_owned(),
        min_occurs: min,
        max_occurs: max,
        choice_group: group.map(str::to_owned),
        recursive,
        label_key: format!("schema.element.{name}"),
        source_file: "test.xsd".to_owned(),
        source_line: 1,
    }
}

fn rule(handle: &str, name: &str, attributes: Vec<AttributeRule>, children: Vec<ChildRule>) -> ElementRule {
    ElementRule {
        handle: handle.to_owned(),
        name: name.to_owned(),
        global: true,
        source_file: "test.xsd".to_owned(),
        source_line: 1,
        label_key: format!("schema.element.{name}"),
        data_type: None,
        pattern: None,
        enum_values: Vec::new(),
        attributes,
        children,
        choice_groups: Vec::new(),
    }
}

/// A catalog shaped like the idmXML declarations that the tests need.
fn catalog() -> SchemaCatalog {
    let spec_id = vec![
        attr("guid", true, None, &[]),
        attr("fullTitle", true, None, &[]),
        attr("idmCode", false, None, &[]),
        attr("documentStatus", false, None, &["draft", "final"]),
    ];
    let elements = vec![
        rule(
            "idm",
            "idm",
            Vec::new(),
            vec![
                child("specId", "specId", 1, Some(1), None, false),
                child("authoring", "authoring", 1, Some(1), None, false),
                child("uc", "uc", 1, Some(1), None, false),
                child("businessContextMap", "businessContextMap", 0, None, None, false),
                child("er", "er", 0, Some(1), None, false),
                child("subIdm", "subIdm", 0, None, None, true),
            ],
        ),
        rule("specId", "specId", spec_id, Vec::new()),
        rule(
            "authoring",
            "authoring",
            Vec::new(),
            vec![
                child("changeLog", "changeLog", 1, Some(1), None, false),
                child("author", "author", 1, None, None, false),
            ],
        ),
        rule("changeLog", "changeLog", Vec::new(), vec![child("change", "change", 0, None, None, false)]),
        rule(
            "change",
            "change",
            vec![attr("changeDateTime", true, None, &[]), attr("changedElement", false, None, &[])],
            Vec::new(),
        ),
        rule("author", "author", vec![attr("id", true, None, &[])], Vec::new()),
        rule(
            "uc",
            "uc",
            Vec::new(),
            vec![
                child("specId", "specId", 1, Some(1), None, false),
                child("description", "description", 0, Some(1), None, false),
                child("subUc", "subUc", 0, None, None, true),
            ],
        ),
        rule("description", "description", Vec::new(), Vec::new()),
        rule("subUc", "subUc", Vec::new(), vec![child("uc", "uc", 0, None, None, false)]),
        rule("businessContextMap", "businessContextMap", Vec::new(), vec![child("specId", "specId", 1, Some(1), None, false)]),
        rule("er", "er", Vec::new(), vec![
            child("specId", "specId", 1, Some(1), None, false),
            child("subEr", "subEr", 0, None, None, true),
        ]),
        rule("subEr", "subEr", Vec::new(), vec![child("er", "er", 0, None, None, false)]),
        rule("subIdm", "subIdm", Vec::new(), vec![child("idm", "idm", 0, None, None, false)]),
    ];
    SchemaCatalog {
        profile: "test".to_owned(),
        root: "idm".to_owned(),
        namespace: None,
        schemas: Vec::new(),
        element_names: vec!["idm".to_owned(), "specId".to_owned(), "uc".to_owned()],
        global_elements: vec!["idm".to_owned()],
        attribute_names: vec!["guid".to_owned(), "fullTitle".to_owned()],
        enum_values: vec!["draft".to_owned(), "final".to_owned()],
        recursive_edges: Vec::new(),
        elements,
        semantic_overlays: vec![SemanticOverlay {
            code: "root_exchange_requirement".to_owned(),
            path: "/idm".to_owned(),
            child: "er".to_owned(),
            min_occurs: 1,
            source: "ISO 29481-3".to_owned(),
            reason: "An IDM has one exchange requirement".to_owned(),
        }],
    }
}

fn is_lowercase_uuid(s: &str) -> bool {
    let bytes = s.as_bytes();
    bytes.len() == 36
        && bytes.iter().enumerate().all(|(i, b)| {
            if [8, 13, 18, 23].contains(&i) {
                *b == b'-'
            } else {
                b.is_ascii_digit() || (b'a'..=b'f').contains(b)
            }
        })
}

#[test]
fn creates_a_semantically_complete_schema_ordered_idm() {
    let catalog = catalog();
    let document = Document::new_idm(&catalog, "Coordination", "IDM-001").expect("creates IDM");
    let root_children = document.child_element_names("/idm").unwrap();
    assert_eq!(root_children, ["specId", "authoring", "uc", "er"]);
    assert_eq!(document.attribute("/idm/specId[0]", "fullTitle").unwrap(), "Coordination");
    assert_eq!(document.attribute("/idm/specId[0]", "idmCode").unwrap(), "IDM-001");
    assert!(document
        .validate(&catalog)
        .iter()
        .all(|issue| issue.severity != ValidationSeverity::Error));
}

#[test]
fn schema_aware_actions_enforce_cardinality_and_build_recursive_skeletons() {
    let catalog = catalog();
    let mut document = Document::new_idm(&catalog, "Coordination", "IDM-001").unwrap();
    let actions = document.allowed_children(&catalog, "/idm/uc[0]").unwrap();
    let sub_uc = actions.iter().find(|action| action.name == "subUc").unwrap();
    assert!(sub_uc.can_add);
    assert_eq!(sub_uc.label_key, "schema.element.subUc");

    let path = document.append_schema_child(&catalog, "/idm/uc[0]", "subUc").unwrap();
    assert_eq!(path, "/idm/uc[0]/subUc[0]");
    assert_eq!(document.child_element_names(&path).unwrap(), ["uc"]);
    assert!(document.element(&format!("{path}/uc[0]/specId[0]")).is_ok());

    let error = document.remove_schema_node(&catalog, "/idm/uc[0]").unwrap_err();
    assert!(error.message().contains("minimum cardinality"));
    let error = document.remove_schema_node(&catalog, "/idm/er[0]").unwrap_err();
    assert!(error.message().contains("ISO 29481-3"));
    document
        .remove_schema_node(&catalog, &path)
        .expect("optional recursive child can be removed");
}

#[test]
fn enumerates_element_paths_and_reorders_same_name_schema_siblings() {
    let catalog = catalog();
    let mut document = Document::new_idm(&catalog, "Coordination", "IDM-001").unwrap();
    let log_path = "/idm/authoring[0]/changeLog[0]";
    for label in ["A", "B", "C"] {
        let path = document.append_schema_child(&catalog, log_path, "change").unwrap();
        document.set_attribute(&path, "changedElement", label).unwrap();
    }

    assert_eq!(
        document.element_paths("change"),
        [
            "/idm/authoring[0]/changeLog[0]/change[0]",
            "/idm/authoring[0]/changeLog[0]/change[1]",
            "/idm/authoring[0]/changeLog[0]/change[2]",
        ]
    );

    let moved_path = document
        .move_schema_node(
            "/idm/authoring[0]/changeLog[0]/change[0]",
            "/idm/authoring[0]/changeLog[0]/change[2]",
            true,
        )
        .unwrap();
    assert_eq!(moved_path, "/idm/authoring[0]/changeLog[0]/change[2]");
    assert_eq!(
        [0, 1, 2].map(|index| {
            document
                .attribute(&format!("/idm/authoring[0]/changeLog[0]/change[{index}]"), "changedElement")
                .unwrap()
        }),
        ["B", "C", "A"]
    );

    let error = document
        .move_schema_node(
            "/idm/authoring[0]/changeLog[0]/change[0]",
            "/idm/authoring[0]/author[0]",
            false,
        )
        .unwrap_err();
    assert!(error.message().contains("same-name siblings"));
}

#[test]
fn new_idm_fills_required_attributes_with_defaults() {
    let catalog = catalog();
    let document = Document::new_idm(&catalog, "Coordination", "IDM-001").unwrap();
    let guid = document.attribute("/idm/specId[0]", "guid").unwrap();
    assert!(is_lowercase_uuid(&guid), "{guid}");
    let id = document.attribute("/idm/authoring[0]/author[0]", "id").unwrap();
    assert_eq!(id.len(), 35);
    assert!(id.starts_with("id-"));
    assert!(id[3..].bytes().all(|b| b.is_ascii_digit() || (b'a'..=b'f').contains(&b)));
    assert_eq!(document.attribute("/idm", "xsi:noNamespaceSchemaLocation").unwrap(), "idm.xsd");
    assert_eq!(document.find_by_guid(&guid), ["/idm/specId[0]"]);
    let other = Document::new_idm(&catalog, "Coordination", "IDM-001").unwrap();
    assert_ne!(other.attribute("/idm/specId[0]", "guid").unwrap(), guid);
}

#[test]
fn new_idm_reports_a_missing_root_declaration() {
    let mut catalog = catalog();
    catalog.elements.retain(|rule| rule.handle != "idm");
    match Document::new_idm(&catalog, "T", "C") {
        Err(Error::Schema(message)) => assert_eq!(message, "missing schema definition `idm`"),
        other => panic!("unexpected {other:?}"),
    }
}

#[test]
fn schema_paths_outside_the_root_or_undeclared_are_refused() {
    let catalog = catalog();
    let mut document = Document::new_idm(&catalog, "T", "C").unwrap();
    match document.allowed_children(&catalog, "uc") {
        Err(Error::InvalidPath(path)) => assert_eq!(path, "uc"),
        other => panic!("unexpected {other:?}"),
    }
    let mut foreign = Document::parse("<other/>").unwrap();
    match foreign.allowed_children(&catalog, "/other") {
        Err(Error::Schema(message)) => assert_eq!(message, "`/other` is outside the IDM schema root"),
        other => panic!("unexpected {other:?}"),
    }
    match document.append_schema_child(&catalog, "/idm/uc[0]", "nothing") {
        Err(Error::Schema(message)) => assert_eq!(message, "`nothing` is not allowed below `uc`"),
        other => panic!("unexpected {other:?}"),
    }
    match document.append_schema_child(&catalog, "/idm", "uc") {
        Err(Error::Cardinality(message)) => {
            assert_eq!(message, "`uc` already reached maximum cardinality 1 below `/idm`")
        }
        other => panic!("unexpected {other:?}"),
    }
    match document.append_schema_child(&catalog, "/idm/uc[3]", "subUc") {
        Err(Error::PathNotFound(path)) => assert_eq!(path, "/idm/uc[3]"),
        other => panic!("unexpected {other:?}"),
    }
    document.append_element("/idm/uc[0]", "vendor", None).unwrap();
    match document.allowed_children(&catalog, "/idm/uc[0]/vendor[0]") {
        Err(Error::Schema(message)) => assert_eq!(message, "`vendor` is not declared below `uc`"),
        other => panic!("unexpected {other:?}"),
    }
    assert!(foreign.remove_schema_node(&catalog, "/other/x").is_err());
}

#[test]
fn allowed_children_report_counts_and_whether_one_more_fits() {
    let catalog = catalog();
    let mut document = Document::new_idm(&catalog, "T", "C").unwrap();
    let actions = document.allowed_children(&catalog, "/idm").unwrap();
    let names: Vec<&str> = actions.iter().map(|a| a.name.as_str()).collect();
    assert_eq!(names, ["specId", "authoring", "uc", "businessContextMap", "er", "subIdm"]);
    let uc = &actions[2];
    assert_eq!((uc.min_occurs, uc.max_occurs, uc.current, uc.can_add), (1, Some(1), 1, false));
    let maps = &actions[3];
    assert_eq!((maps.current, maps.can_add, maps.recursive), (0, true, false));
    assert!(actions[5].recursive);
    // What the menu offers is what appending permits.
    assert!(document.append_schema_child(&catalog, "/idm", "uc").is_err());
    assert_eq!(
        document.append_schema_child(&catalog, "/idm", "businessContextMap").unwrap(),
        "/idm/businessContextMap[0]"
    );
    assert_eq!(
        document.child_element_names("/idm").unwrap(),
        ["specId", "authoring", "uc", "businessContextMap", "er"]
    );
}

#[test]
fn choice_groups_limit_removal() {
    let mut catalog = catalog();
    catalog.elements.push(rule("pick.a", "a", Vec::new(), Vec::new()));
    catalog.elements.push(rule("pick.b", "b", Vec::new(), Vec::new()));
    let holder = catalog.elements.iter_mut().find(|rule| rule.handle == "description").unwrap();
    holder.children = vec![
        child("a", "pick.a", 0, None, Some("pick"), false),
        child("b", "pick.b", 0, None, Some("pick"), false),
    ];
    holder.choice_groups = vec![ChoiceGroup {
        handle: "pick".to_owned(),
        min_occurs: 1,
        max_occurs: Some(2),
        children: vec!["a".to_owned(), "b".to_owned()],
    }];
    let mut document = Document::new_idm(&catalog, "T", "C").unwrap();
    let description = document.append_schema_child(&catalog, "/idm/uc[0]", "description").unwrap();
    assert_eq!(document.child_element_names(&description).unwrap(), ["a"]);
    match document.remove_schema_node(&catalog, &format!("{description}/a[0]")) {
        Err(Error::Cardinality(message)) => assert_eq!(
            message,
            "cannot remove `a`: choice group minimum cardinality 1 below `/idm/uc/description`"
        ),
        other => panic!("unexpected {other:?}"),
    }
    document.append_schema_child(&catalog, &description, "b").unwrap();
    document.remove_schema_node(&catalog, &format!("{description}/a[0]")).unwrap();
    assert_eq!(document.child_element_names(&description).unwrap(), ["b"]);
}

#[test]
fn validation_reports_attribute_cardinality_order_and_extension_issues() {
    let catalog = catalog();
    let source = "<idm>\
    <uc><specId guid=\"x\" fullTitle=\"u\"/></uc>\
    <specId guid=\"0F0E0D0C-0B0A-4908-8706-050403020100\" fullTitle=\"t\" documentStatus=\"lost\"/>\
    <authoring><changeLog/><author/></authoring>\
    <vendor/>\
    </idm>";
    let document = Document::parse(source).unwrap();
    let issues = document.validate(&catalog);
    let found: Vec<(&str, &str)> = issues.iter().map(|i| (i.code.as_str(), i.path.as_str())).collect();
    assert_eq!(
        found,
        [
            ("attribute_pattern", "/idm/uc[0]/specId[0]"),
            ("schema_order", "/idm/specId[0]"),
            ("attribute_pattern", "/idm/specId[0]"),
            ("attribute_enumeration", "/idm/specId[0]"),
            ("required_attribute", "/idm/authoring[0]/author[0]"),
            ("extension_element", "/idm/vendor[0]"),
            ("root_exchange_requirement", "/idm"),
        ]
    );
    assert_eq!(issues[1].message, "Element is not in XSD declaration order");
    assert_eq!(issues[2].message, "guid must match the lowercase UUID pattern declared by specId.xsd");
    assert_eq!(issues[3].message, "lost is not an allowed value for documentStatus");
    assert_eq!(issues[4].message, "author requires attribute id");
    assert_eq!(issues[5].severity, ValidationSeverity::Warning);
    assert_eq!(issues[6].message, "An IDM has one exchange requirement");
}

#[test]
fn validation_reports_cardinality_and_missing_declarations() {
    let mut catalog = catalog();
    let document = Document::parse("<idm><specId guid=\"a\" fullTitle=\"t\"/><specId/></idm>").unwrap();
    let issues = document.validate(&catalog);
    let messages: Vec<&str> = issues.iter().map(|i| i.message.as_str()).collect();
    assert!(messages.contains(&"idm requires at least 1 authoring child element(s)"));
    assert!(messages.contains(&"idm permits at most 1 specId child element(s)"));
    catalog.elements.retain(|rule| rule.handle != "idm");
    let issues = document.validate(&catalog);
    assert_eq!(issues.len(), 2);
    assert_eq!(issues[1].code, "root_exchange_requirement");
    assert_eq!(issues[0].code, "schema_definition");
    assert_eq!(issues[0].message, "No schema declaration for `idm`");
}

#[test]
fn validation_reports_duplicate_guids_and_foreign_roots() {
    let catalog = catalog();
    let guid = "0f0e0d0c-0b0a-4908-8706-050403020100";
    let source = format!(
        "<idm><specId guid=\"{guid}\" fullTitle=\"t\"/><uc><specId guid=\"{guid}\" fullTitle=\"u\"/></uc></idm>"
    );
    let document = Document::parse(&source).unwrap();
    let duplicates: Vec<String> = document
        .validate(&catalog)
        .into_iter()
        .filter(|i| i.code == "duplicate_guid")
        .map(|i| i.path)
        .collect();
    assert_eq!(duplicates, ["/idm/uc[0]/specId[0]"]);
    let foreign = Document::parse("<x:idm xmlns:x=\"urn:x\"/>").unwrap();
    let issues = foreign.validate(&catalog);
    assert_eq!(issues.len(), 1);
    assert_eq!(issues[0].code, "invalid_root");
    assert_eq!(issues[0].path, "/");
}

#[test]
fn choice_groups_are_validated_together() {
    let mut catalog = catalog();
    catalog.elements.push(rule("pick.a", "a", Vec::new(), Vec::new()));
    catalog.elements.push(rule("pick.b", "b", Vec::new(), Vec::new()));
    let holder = catalog.elements.iter_mut().find(|rule| rule.handle == "description").unwrap();
    holder.children = vec![
        child("a", "pick.a", 0, None, Some("pick"), false),
        child("b", "pick.b", 0, None, Some("pick"), false),
    ];
    holder.choice_groups = vec![ChoiceGroup {
        handle: "pick".to_owned(),
        min_occurs: 1,
        max_occurs: Some(2),
        children: vec!["a".to_owned(), "b".to_owned()],
    }];
    let source = "<idm><uc><description><a/><b/><a/></description></uc></idm>";
    let document = Document::parse(source).unwrap();
    let issues = document.validate(&catalog);
    let choice: Vec<&str> = issues
        .iter()
        .filter(|i| i.code == "choice_cardinality")
        .map(|i| i.message.as_str())
        .collect();
    assert_eq!(choice, ["description violates choice group pick cardinality"]);
}

#[test]
fn catalog_lookups_find_rules_by_handle_and_name() {
    let catalog = catalog();
    let idm = catalog.element("idm").unwrap();
    assert_eq!(idm.child("uc").unwrap().min_occurs, 1);
    assert_eq!(idm.child("uc").unwrap().max_occurs, Some(1));
    assert_eq!(idm.child("businessContextMap").unwrap().max_occurs, None);
    assert!(idm.child("subIdm").unwrap().recursive);
    assert!(idm.child("nothing").is_none());
    assert!(catalog.element("nothing").is_none());
    let spec_id = catalog.element("specId").unwrap();
    assert!(spec_id.attribute("guid").unwrap().required);
    assert!(!spec_id.attribute("idmCode").unwrap().required);
    assert!(spec_id.attribute("nothing").is_none());
}

#[test]
fn severity_counts_split_errors_and_warnings() {
    let catalog = catalog();
    let document = Document::parse("<idm><vendor/><other/></idm>").unwrap();
    let issues = document.validate(&catalog);
    let (errors, warnings) = openbim_idm::severity_counts(&issues);
    assert_eq!(warnings, 2);
    assert_eq!(errors, issues.len() - 2);
    assert!(errors > 0);
    assert_eq!(openbim_idm::severity_counts(&Vec::new()), (0, 0));
}

#[test]
fn removal_reports_whether_its_choice_group_is_declared() {
    let mut catalog = catalog();
    catalog.elements.push(rule("pick.a", "a", Vec::new(), Vec::new()));
    let holder = catalog.elements.iter_mut().find(|rule| rule.handle == "description").unwrap();
    holder.children = vec![child("a", "pick.a", 0, None, Some("missing"), false)];
    let mut document = Document::new_idm(&catalog, "T", "C").unwrap();
    let description = document.append_schema_child(&catalog, "/idm/uc[0]", "description").unwrap();
    document.append_element(&description, "a", None).unwrap();
    assert!(!document.removal_choice_declared(&catalog, &format!("{description}/a[0]")));
    assert!(document.removal_choice_declared(&catalog, "/idm/uc[0]"));
    assert!(document.removal_choice_declared(&catalog, "not a path"));
}

#[test]
fn appending_a_schema_child_adds_exactly_one() {
    let catalog = catalog();
    let mut document = Document::new_idm(&catalog, "T", "C").unwrap();
    for expected in 1..=3 {
        document.append_schema_child(&catalog, "/idm/authoring[0]", "author").unwrap();
        let count = document
            .child_element_names("/idm/authoring[0]")
            .unwrap()
            .iter()
            .filter(|name| *name == "author")
            .count();
        assert_eq!(count, expected + 1);
    }
    assert_eq!(
        document.child_element_names("/idm/authoring[0]").unwrap(),
        ["changeLog", "author", "author", "author", "author"]
    );
}

#[test]
fn guid_spellings_other_than_the_lowercase_pattern_are_reported() {
    let catalog = catalog();
    for guid in [
        "0f0e0d0c0b0a49088706050403020100",
        "{0f0e0d0c-0b0a-4908-8706-050403020100}",
        "urn:uuid:0f0e0d0c-0b0a-4908-8706-050403020100",
        "0F0E0D0C-0B0A-4908-8706-050403020100",
    ] {
        let document = Document::parse(&format!("<idm><specId guid=\"{guid}\" fullTitle=\"t\"/></idm>")).unwrap();
        assert!(document.validate(&catalog).iter().any(|i| i.code == "attribute_pattern"), "{guid}");
    }
    let document =
        Document::parse("<idm><specId guid=\"0f0e0d0c-0b0a-4908-8706-050403020100\" fullTitle=\"t\"/></idm>").unwrap();
    assert!(document.validate(&catalog).iter().all(|i| i.code != "attribute_pattern"));
}
