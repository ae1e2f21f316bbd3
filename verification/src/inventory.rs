//! The inventory of a local schema set: which declarations its schema files
//! hold, beside the names that the catalog records.
use vstd::prelude::*;
use crate::catalog::SchemaCatalog;
use crate::document::{strings_view, Document, DocumentView, DEFAULT_MAX_XML_BYTES};
use crate::model::{attribute_by_local, lemma_children_view, message_of, nodes_view, value_by_local, Element, ElementView, Error, ErrorView, Node, NodeView};
use crate::parse::{document_result, lemma_parse_error_kind, parse_limited};
use crate::text::{concat, lemma_text_less_total, lemma_text_less_transitive, owned, sorted_names, str_eq, text_less, text_lt};

verus! {

/// The file names of the schema set, in the order they are read.
pub open spec fn schema_file_names() -> Seq<Seq<char>> {
    seq![
        "specId.xsd"@,
        "authoring.xsd"@,
        "uc.xsd"@,
        "businessContextMap.xsd"@,
        "er.xsd"@,
        "idm.xsd"@,
    ]
}

/// The file names of the schema set, in the order they are read.
pub fn schema_files() -> (r: Vec<String>)
    ensures
        strings_view(r@) == schema_file_names(),
{
    let mut r: Vec<String> = Vec::new();
    r.push(owned("specId.xsd"));
    r.push(owned("authoring.xsd"));
    r.push(owned("uc.xsd"));
    r.push(owned("businessContextMap.xsd"));
    r.push(owned("er.xsd"));
    r.push(owned("idm.xsd"));
    assert(strings_view(r@) =~= schema_file_names());
    r
}

/// Accepts only the file names of the schema set, so that a name cannot
/// reach outside the schema directory.
pub fn check_schema_name(name: &str) -> (r: Result<(), Error>)
    ensures
        r is Ok <==> schema_file_names().contains(name@),
        r matches Err(x) ==> x@ == ErrorView::Schema("unknown schema filename `"@ + name@ + "`"@),
{
    let files = schema_files();
    let mut i: usize = 0;
    while i < files.len()
        invariant
            i <= files@.len(),
            strings_view(files@) == schema_file_names(),
            forall|j: int| 0 <= j < i ==> schema_file_names()[j] != name@,
        decreases files@.len() - i,
    {
        assert(strings_view(files@)[i as int] == files@[i as int]@);
        if str_eq(files[i].as_str(), name) {
            assert(schema_file_names()[i as int] == name@);
            return Ok(());
        }
        i += 1;
    }
    let mut message = concat("unknown schema filename `", name);
    message.append("`");
    Err(Error::Schema(message))
}

/// The declarations found in a schema set, each name once.
#[derive(Debug, Clone, PartialEq, Eq)]
pub struct SchemaInventory {
    pub elements: Vec<String>,
    pub complex_types: Vec<String>,
    pub simple_types: Vec<String>,
    pub attributes: Vec<String>,
    pub enum_values: Vec<String>,
}

/// The sets of names an inventory holds.
pub struct InventoryView {
    pub elements: Set<Seq<char>>,
    pub complex_types: Set<Seq<char>>,
    pub simple_types: Set<Seq<char>>,
    pub attributes: Set<Seq<char>>,
    pub enum_values: Set<Seq<char>>,
}

/// The set of the names in a list.
pub open spec fn name_set(v: Seq<String>) -> Set<Seq<char>> {
    strings_view(v).to_set()
}

impl View for SchemaInventory {
    type V = InventoryView;

    open spec fn view(&self) -> InventoryView {
        InventoryView {
            elements: name_set(self.elements@),
            complex_types: name_set(self.complex_types@),
            simple_types: name_set(self.simple_types@),
            attributes: name_set(self.attributes@),
            enum_values: name_set(self.enum_values@),
        }
    }
}

impl SchemaInventory {
    /// Each list holds its names in ascending order, each once.
    pub open spec fn wf(&self) -> bool {
        &&& sorted_names(self.elements@)
        &&& sorted_names(self.complex_types@)
        &&& sorted_names(self.simple_types@)
        &&& sorted_names(self.attributes@)
        &&& sorted_names(self.enum_values@)
    }
}

/// The values of attribute `attr` on the elements named `kind` in the tree
/// rooted at `e`.
pub open spec fn declared_values(e: ElementView, kind: Seq<char>, attr: Seq<char>) -> Set<Seq<char>>
    decreases e, 0int,
{
    own_value(e, kind, attr).union(children_values(e.children, kind, attr, e.children.len() as int))
}

/// The value of attribute `attr` of `e` itself, where `e` is named `kind`.
pub open spec fn own_value(e: ElementView, kind: Seq<char>, attr: Seq<char>) -> Set<Seq<char>> {
    match value_by_local(e, attr) {
        Some(v) => if e.local_name == kind { set![v] } else { Set::empty() },
        None => Set::empty(),
    }
}

/// `declared_values` over the first `upto` children.
pub open spec fn children_values(s: Seq<NodeView>, kind: Seq<char>, attr: Seq<char>, upto: int) -> Set<Seq<char>>
    decreases s, upto,
{
    if upto <= 0 || upto > s.len() {
        Set::empty()
    } else {
        children_values(s, kind, attr, upto - 1).union(match s[upto - 1] {
            NodeView::Element(c) => declared_values(c, kind, attr),
            _ => Set::empty(),
        })
    }
}

/// Adds `name` to `v` in its place unless it is there.
fn insert_name(v: &mut Vec<String>, name: &str)
    requires
        sorted_names(old(v)@),
    ensures
        sorted_names(final(v)@),
        name_set(final(v)@) == name_set(old(v)@).insert(name@),
{
    let ghost before = v@;
    let mut i: usize = 0;
    while i < v.len() && text_lt(v[i].as_str(), name)
        invariant
            i <= v@.len(),
            v@ == before,
            sorted_names(before),
            forall|j: int| 0 <= j < i ==> text_less(#[trigger] before[j]@, name@),
        decreases v@.len() - i,
    {
        i += 1;
    }
    if i < v.len() && str_eq(v[i].as_str(), name) {
        assert(strings_view(before)[i as int] == name@);
        assert(name_set(before).contains(name@));
        assert(name_set(before).insert(name@) =~= name_set(before));
        return;
    }
    if i < v.len() {
        proof { lemma_text_less_total(before[i as int]@, name@); }
        assert forall|j: int| i <= j < before.len() implies text_less(name@, #[trigger] before[j]@) by {
            if j > i {
                lemma_text_less_transitive(name@, before[i as int]@, before[j]@);
            }
        }
    }
    v.insert(i, owned(name));
    assert(v@ =~= before.insert(i as int, v@[i as int]));
    assert forall|a: int, b: int| 0 <= a < b < v@.len() implies text_less(#[trigger] v@[a]@, #[trigger] v@[b]@) by {
        if a < i && b == i {
        } else if a < i && b > i {
            assert(v@[b] == before[b - 1]);
        } else if a == i {
            assert(v@[b] == before[b - 1]);
        } else if a > i {
            assert(v@[a] == before[a - 1] && v@[b] == before[b - 1]);
        }
    }
    let ghost s0 = strings_view(before);
    let ghost s1 = strings_view(v@);
    assert(s1 =~= s0.insert(i as int, name@));
    assert forall|x: Seq<char>| s1.to_set().contains(x) <==> s0.to_set().insert(name@).contains(x) by {
        if s1.contains(x) {
            let k = choose|k: int| 0 <= k < s1.len() && s1[k] == x;
            if k < i {
                assert(s0[k] == x);
            } else if k > i {
                assert(s0[k - 1] == x);
            }
        }
        if s0.contains(x) {
            let k = choose|k: int| 0 <= k < s0.len() && s0[k] == x;
            if k < i {
                assert(s1[k] == x);
            } else {
                assert(s1[k + 1] == x);
            }
        }
        if x == name@ {
            assert(s1[i as int] == x);
        }
    }
    assert(name_set(v@) =~= name_set(before).insert(name@));
}

/// Adds every name of the tree rooted at `e` that a schema declares.
fn collect_schema(e: &Element, inventory: &mut SchemaInventory)
    requires
        old(inventory).wf(),
    ensures
        final(inventory).wf(),
        final(inventory)@ == (InventoryView {
            elements: old(inventory)@.elements.union(declared_values(e@, "element"@, "name"@)),
            complex_types: old(inventory)@.complex_types.union(declared_values(e@, "complexType"@, "name"@)),
            simple_types: old(inventory)@.simple_types.union(declared_values(e@, "simpleType"@, "name"@)),
            attributes: old(inventory)@.attributes.union(declared_values(e@, "attribute"@, "name"@)),
            enum_values: old(inventory)@.enum_values.union(declared_values(e@, "enumeration"@, "value"@)),
        }),
    decreases e,
{
    let ghost start = inventory@;
    proof {
        reveal_strlit("element");
        reveal_strlit("complexType");
        reveal_strlit("simpleType");
        reveal_strlit("attribute");
        reveal_strlit("enumeration");
        assert("element"@[0] != "complexType"@[0] && "element"@[0] != "simpleType"@[0]);
        assert("element"@[0] != "attribute"@[0] && "element"@[1] != "enumeration"@[1]);
        assert("complexType"@[0] != "simpleType"@[0] && "complexType"@[0] != "attribute"@[0]);
        assert("complexType"@[0] != "enumeration"@[0] && "simpleType"@[0] != "attribute"@[0]);
        assert("simpleType"@[0] != "enumeration"@[0] && "attribute"@[0] != "enumeration"@[0]);
    }
    match attribute_by_local(e, "name") {
        Some(name) => {
            if str_eq(e.local_name.as_str(), "element") {
                insert_name(&mut inventory.elements, name);
            } else if str_eq(e.local_name.as_str(), "complexType") {
                insert_name(&mut inventory.complex_types, name);
            } else if str_eq(e.local_name.as_str(), "simpleType") {
                insert_name(&mut inventory.simple_types, name);
            } else if str_eq(e.local_name.as_str(), "attribute") {
                insert_name(&mut inventory.attributes, name);
            }
        },
        None => {},
    }
    if str_eq(e.local_name.as_str(), "enumeration") {
        match attribute_by_local(e, "value") {
            Some(value) => insert_name(&mut inventory.enum_values, value),
            None => {},
        }
    }
    proof { lemma_children_view(*e); }
    let ghost s = e@.children;
    let ghost here = inventory@;
    assert(here.elements =~= start.elements.union(own_value(e@, "element"@, "name"@)));
    assert(here.complex_types =~= start.complex_types.union(own_value(e@, "complexType"@, "name"@)));
    assert(here.simple_types =~= start.simple_types.union(own_value(e@, "simpleType"@, "name"@)));
    assert(here.attributes =~= start.attributes.union(own_value(e@, "attribute"@, "name"@)));
    assert(here.enum_values =~= start.enum_values.union(own_value(e@, "enumeration"@, "value"@)));
    let mut i: usize = 0;
    assert(here.elements =~= here.elements.union(children_values(s, "element"@, "name"@, 0)));
    assert(here.complex_types =~= here.complex_types.union(children_values(s, "complexType"@, "name"@, 0)));
    assert(here.simple_types =~= here.simple_types.union(children_values(s, "simpleType"@, "name"@, 0)));
    assert(here.attributes =~= here.attributes.union(children_values(s, "attribute"@, "name"@, 0)));
    assert(here.enum_values =~= here.enum_values.union(children_values(s, "enumeration"@, "value"@, 0)));
    while i < e.children.len()
        invariant
            i <= e.children@.len(),
            s == e@.children,
            s == nodes_view(e.children@),
            inventory.wf(),
            inventory@.elements == here.elements.union(children_values(s, "element"@, "name"@, i as int)),
            inventory@.complex_types == here.complex_types.union(children_values(s, "complexType"@, "name"@, i as int)),
            inventory@.simple_types == here.simple_types.union(children_values(s, "simpleType"@, "name"@, i as int)),
            inventory@.attributes == here.attributes.union(children_values(s, "attribute"@, "name"@, i as int)),
            inventory@.enum_values == here.enum_values.union(children_values(s, "enumeration"@, "value"@, i as int)),
        decreases e.children@.len() - i,
    {
        match &e.children[i] {
            Node::Element(c) => {
                assert(s[i as int] == NodeView::Element(c@));
                collect_schema(c, inventory);
            },
            _ => {},
        }
        assert(inventory@.elements =~= here.elements.union(children_values(s, "element"@, "name"@, i + 1)));
        assert(inventory@.complex_types =~= here.complex_types.union(children_values(s, "complexType"@, "name"@, i + 1)));
        assert(inventory@.simple_types =~= here.simple_types.union(children_values(s, "simpleType"@, "name"@, i + 1)));
        assert(inventory@.attributes =~= here.attributes.union(children_values(s, "attribute"@, "name"@, i + 1)));
        assert(inventory@.enum_values =~= here.enum_values.union(children_values(s, "enumeration"@, "value"@, i + 1)));
        i += 1;
    }
    assert(inventory@.elements =~= start.elements.union(declared_values(e@, "element"@, "name"@)));
    assert(inventory@.complex_types =~= start.complex_types.union(declared_values(e@, "complexType"@, "name"@)));
    assert(inventory@.simple_types =~= start.simple_types.union(declared_values(e@, "simpleType"@, "name"@)));
    assert(inventory@.attributes =~= start.attributes.union(declared_values(e@, "attribute"@, "name"@)));
    assert(inventory@.enum_values =~= start.enum_values.union(declared_values(e@, "enumeration"@, "value"@)));
}


/// The names of kind `kind` that the schema documents `roots` declare.
pub open spec fn schema_set(roots: Seq<ElementView>, kind: Seq<char>) -> Set<Seq<char>>
    decreases roots.len(),
{
    if roots.len() == 0 {
        Set::empty()
    } else {
        schema_set(roots.drop_last(), kind).union(declared_values(roots.last(), kind, "name"@))
    }
}

/// The inventory of a schema set whose documents have the roots `roots`:
/// element, attribute and enumeration names from the catalog, complex and
/// simple types from the schema documents.
pub open spec fn inventory_of(catalog: SchemaCatalog, roots: Seq<ElementView>) -> InventoryView {
    InventoryView {
        elements: name_set(catalog.element_names@),
        complex_types: schema_set(roots, "complexType"@),
        simple_types: schema_set(roots, "simpleType"@),
        attributes: name_set(catalog.attribute_names@),
        enum_values: name_set(catalog.enum_values@),
    }
}

/// The roots of parsed documents.
pub open spec fn roots_of(schemas: Seq<Document>) -> Seq<ElementView> {
    schemas.map_values(|d: Document| d@.root)
}

fn copy_names(names: &Vec<String>) -> (r: Vec<String>)
    ensures
        sorted_names(r@),
        name_set(r@) == name_set(names@),
{
    let mut r: Vec<String> = Vec::new();
    let mut i: usize = 0;
    assert(name_set(r@) =~= name_set(names@.take(0)));
    while i < names.len()
        invariant
            i <= names@.len(),
            sorted_names(r@),
            name_set(r@) == name_set(names@.take(i as int)),
        decreases names@.len() - i,
    {
        insert_name(&mut r, names[i].as_str());
        assert(strings_view(names@.take(i + 1)) =~= strings_view(names@.take(i as int)).push(names@[i as int]@));
        proof { strings_view(names@.take(i as int)).lemma_push_to_set_commute(names@[i as int]@); }
        i += 1;
    }
    assert(names@.take(i as int) =~= names@);
    r
}

/// The inventory of the parsed schema documents `schemas`.
pub fn schema_inventory(catalog: &SchemaCatalog, schemas: &Vec<Document>) -> (r: SchemaInventory)
    ensures
        r.wf(),
        r@ == inventory_of(*catalog, roots_of(schemas@)),
{
    let mut partial = SchemaInventory {
        elements: Vec::new(),
        complex_types: Vec::new(),
        simple_types: Vec::new(),
        attributes: Vec::new(),
        enum_values: Vec::new(),
    };
    let ghost roots = roots_of(schemas@);
    let mut i: usize = 0;
    assert(name_set(partial.complex_types@) =~= schema_set(roots.take(0), "complexType"@));
    assert(name_set(partial.simple_types@) =~= schema_set(roots.take(0), "simpleType"@));
    while i < schemas.len()
        invariant
            i <= schemas@.len(),
            roots == roots_of(schemas@),
            partial.wf(),
            partial@.complex_types == schema_set(roots.take(i as int), "complexType"@),
            partial@.simple_types == schema_set(roots.take(i as int), "simpleType"@),
        decreases schemas@.len() - i,
    {
        assert(roots.take(i + 1).drop_last() =~= roots.take(i as int));
        assert(roots.take(i + 1).last() == schemas@[i as int]@.root);
        collect_schema(schemas[i].root(), &mut partial);
        i += 1;
    }
    assert(roots.take(i as int) =~= roots);
    SchemaInventory {
        elements: copy_names(&catalog.element_names),
        complex_types: partial.complex_types,
        simple_types: partial.simple_types,
        attributes: copy_names(&catalog.attribute_names),
        enum_values: copy_names(&catalog.enum_values),
    }
}

/// What parsing one schema text gives: the document, or a schema error that
/// carries the parse error's message.
pub open spec fn schema_parse(source: Seq<char>) -> Result<DocumentView, ErrorView> {
    match parse_limited(source, DEFAULT_MAX_XML_BYTES) {
        Ok(d) => Ok(d),
        Err(e) => Err(ErrorView::Schema(message_of(e))),
    }
}

/// The roots of the parsed schema texts.
pub open spec fn parsed_roots(sources: Seq<String>) -> Seq<ElementView> {
    sources.map_values(|s: String| schema_parse(s@)->Ok_0.root)
}

/// Parses one schema text; a failure is reported as a schema error carrying
/// the parse error's message.
pub fn parse_schema(source: &str) -> (r: Result<Document, Error>)
    ensures
        document_result(r) == schema_parse(source@),
{
    proof { lemma_parse_error_kind(source@, DEFAULT_MAX_XML_BYTES); }
    match Document::parse(source) {
        Ok(d) => Ok(d),
        Err(e) => Err(Error::Schema(e.message())),
    }
}

/// Parses the texts of a schema set and takes its inventory. The first text
/// that does not parse fails the whole inventory with its schema error.
pub fn local_schema_inventory(catalog: &SchemaCatalog, sources: &Vec<String>) -> (r: Result<SchemaInventory, Error>)
    ensures
        (forall|i: int| 0 <= i < sources@.len() ==> #[trigger] schema_parse(sources@[i]@) is Ok)
            ==> (r matches Ok(inventory) && inventory.wf() && inventory@ == inventory_of(*catalog, parsed_roots(sources@))),
        r matches Err(x) ==> exists|i: int| {
            &&& 0 <= i < sources@.len()
            &&& schema_parse(sources@[i]@) == Err::<DocumentView, ErrorView>(x@)
            &&& forall|j: int| 0 <= j < i ==> #[trigger] schema_parse(sources@[j]@) is Ok
        },
{
    let mut schemas: Vec<Document> = Vec::new();
    let mut i: usize = 0;
    while i < sources.len()
        invariant
            i <= sources@.len(),
            schemas@.len() == i,
            forall|k: int| 0 <= k < i ==> schema_parse(sources@[k]@) == Ok::<DocumentView, ErrorView>(#[trigger] schemas@[k]@),
        decreases sources@.len() - i,
    {
        match parse_schema(sources[i].as_str()) {
            Ok(d) => {
                let ghost before = schemas@;
                schemas.push(d);
                assert forall|k: int| 0 <= k < i + 1 implies schema_parse(sources@[k]@)
                    == Ok::<DocumentView, ErrorView>(#[trigger] schemas@[k]@) by {
                    if k < i {
                        assert(schemas@[k] == before[k]);
                    }
                }
            },
            Err(e) => {
                assert forall|j: int| 0 <= j < i implies #[trigger] schema_parse(sources@[j]@) is Ok by {
                    assert(schema_parse(sources@[j]@) == Ok::<DocumentView, ErrorView>(schemas@[j]@));
                }
                return Err(e);
            },
        }
        i += 1;
    }
    assert(roots_of(schemas@) =~= parsed_roots(sources@));
    Ok(schema_inventory(catalog, &schemas))
}

} // verus!
