//! The generated declaration catalog: element rules with their attributes,
//! children, choice groups and cardinalities, and the semantic overlays.
use vstd::prelude::*;
use crate::text::{lemma_text_less_transitive, names_sorted, sorted_names, str_eq, text_less, text_lt};

verus! {

/// A schema file the catalog was generated from, with its hash.
#[derive(Debug, Clone, PartialEq, Eq)]
pub struct SchemaSource {
    pub file: String,
    pub sha256: String,
}

/// A recursive wrapper such as `uc` → `subUc` → `uc`.
#[derive(Debug, Clone, PartialEq, Eq)]
pub struct RecursiveEdge {
    pub from: String,
    pub wrapper: String,
    pub to: String,
}

/// The declaration of one element in one context.
#[derive(Debug, Clone, PartialEq, Eq)]
pub struct ElementRule {
    pub handle: String,
    pub name: String,
    pub global: bool,
    pub source_file: String,
    pub source_line: usize,
    pub label_key: String,
    pub data_type: Option<String>,
    pub pattern: Option<String>,
    pub enum_values: Vec<String>,
    pub attributes: Vec<AttributeRule>,
    pub children: Vec<ChildRule>,
    pub choice_groups: Vec<ChoiceGroup>,
}

/// The declaration of an attribute of an element.
#[derive(Debug, Clone, PartialEq, Eq)]
pub struct AttributeRule {
    pub name: String,
    pub required: bool,
    pub default: Option<String>,
    pub data_type: Option<String>,
    pub pattern: Option<String>,
    pub enum_values: Vec<String>,
    pub label_key: String,
    pub source_file: String,
    pub source_line: usize,
}

/// A child element that a content model admits, with its cardinality and the
/// handle of its own declaration.
#[derive(Debug, Clone, PartialEq, Eq)]
pub struct ChildRule {
    pub name: String,
    pub definition: String,
    pub min_occurs: usize,
    pub max_occurs: Option<usize>,
    pub choice_group: Option<String>,
    pub recursive: bool,
    pub label_key: String,
    pub source_file: String,
    pub source_line: usize,
}

/// A choice between children, with the cardinality of the choice as a whole.
#[derive(Debug, Clone, PartialEq, Eq)]
pub struct ChoiceGroup {
    pub handle: String,
    pub min_occurs: usize,
    pub max_occurs: Option<usize>,
    pub children: Vec<String>,
}

/// A rule of the standard that the schema does not express: `child` must
/// occur at least `min_occurs` times below `path`.
#[derive(Debug, Clone, PartialEq, Eq)]
pub struct SemanticOverlay {
    pub code: String,
    pub path: String,
    pub child: String,
    pub min_occurs: usize,
    pub source: String,
    pub reason: String,
}

/// The catalog. `elements` holds one rule per handle; the name lists hold
/// each name once.
#[derive(Debug, Clone, PartialEq, Eq)]
pub struct SchemaCatalog {
    pub profile: String,
    pub root: String,
    pub namespace: Option<String>,
    pub schemas: Vec<SchemaSource>,
    pub element_names: Vec<String>,
    pub global_elements: Vec<String>,
    pub attribute_names: Vec<String>,
    pub enum_values: Vec<String>,
    pub recursive_edges: Vec<RecursiveEdge>,
    pub elements: Vec<ElementRule>,
    pub semantic_overlays: Vec<SemanticOverlay>,
}

/// What may be added below an element, as offered to an editor.
#[derive(Debug, Clone, PartialEq, Eq)]
pub struct ChildAction {
    pub name: String,
    pub definition: String,
    pub label_key: String,
    pub min_occurs: usize,
    pub max_occurs: Option<usize>,
    pub current: usize,
    pub can_add: bool,
    pub recursive: bool,
}

/// Position of the first rule whose handle is `handle`.
pub open spec fn rule_index(rules: Seq<ElementRule>, handle: Seq<char>) -> Option<int>
    decreases rules.len(),
{
    if rules.len() == 0 {
        None
    } else {
        match rule_index(rules.drop_last(), handle) {
            Some(i) => Some(i),
            None => if rules.last().handle@ == handle { Some(rules.len() - 1) } else { None },
        }
    }
}

/// Position of the first child rule named `name`.
pub open spec fn child_rule_index(rules: Seq<ChildRule>, name: Seq<char>) -> Option<int>
    decreases rules.len(),
{
    if rules.len() == 0 {
        None
    } else {
        match child_rule_index(rules.drop_last(), name) {
            Some(i) => Some(i),
            None => if rules.last().name@ == name { Some(rules.len() - 1) } else { None },
        }
    }
}

/// Position of the first attribute rule named `name`.
pub open spec fn attribute_rule_index(rules: Seq<AttributeRule>, name: Seq<char>) -> Option<int>
    decreases rules.len(),
{
    if rules.len() == 0 {
        None
    } else {
        match attribute_rule_index(rules.drop_last(), name) {
            Some(i) => Some(i),
            None => if rules.last().name@ == name { Some(rules.len() - 1) } else { None },
        }
    }
}

/// The rule of `handle` in `catalog`.
pub open spec fn rule_of(catalog: SchemaCatalog, handle: Seq<char>) -> Option<ElementRule> {
    match rule_index(catalog.elements@, handle) {
        Some(i) => Some(catalog.elements@[i]),
        None => None,
    }
}

/// The child rule named `name` of `rule`.
pub open spec fn child_of_rule(rule: ElementRule, name: Seq<char>) -> Option<ChildRule> {
    match child_rule_index(rule.children@, name) {
        Some(i) => Some(rule.children@[i]),
        None => None,
    }
}

pub proof fn lemma_rule_index(rules: Seq<ElementRule>, handle: Seq<char>)
    ensures
        rule_index(rules, handle) matches Some(i) ==> 0 <= i < rules.len() && rules[i].handle@ == handle
            && forall|j: int| 0 <= j < i ==> rules[j].handle@ != handle,
        rule_index(rules, handle) is None ==> forall|j: int| 0 <= j < rules.len() ==> rules[j].handle@ != handle,
    decreases rules.len(),
{
    if rules.len() > 0 {
        let t = rules.drop_last();
        lemma_rule_index(t, handle);
        assert(forall|j: int| 0 <= j < t.len() ==> t[j] == rules[j]);
    }
}

pub proof fn lemma_child_rule_index(rules: Seq<ChildRule>, name: Seq<char>)
    ensures
        child_rule_index(rules, name) matches Some(i) ==> 0 <= i < rules.len() && rules[i].name@ == name
            && forall|j: int| 0 <= j < i ==> rules[j].name@ != name,
        child_rule_index(rules, name) is None ==> forall|j: int| 0 <= j < rules.len() ==> rules[j].name@ != name,
    decreases rules.len(),
{
    if rules.len() > 0 {
        let t = rules.drop_last();
        lemma_child_rule_index(t, name);
        assert(forall|j: int| 0 <= j < t.len() ==> t[j] == rules[j]);
    }
}

pub proof fn lemma_attribute_rule_index(rules: Seq<AttributeRule>, name: Seq<char>)
    ensures
        attribute_rule_index(rules, name) matches Some(i) ==> 0 <= i < rules.len() && rules[i].name@ == name
            && forall|j: int| 0 <= j < i ==> rules[j].name@ != name,
        attribute_rule_index(rules, name) is None ==> forall|j: int| 0 <= j < rules.len() ==> rules[j].name@ != name,
    decreases rules.len(),
{
    if rules.len() > 0 {
        let t = rules.drop_last();
        lemma_attribute_rule_index(t, name);
        assert(forall|j: int| 0 <= j < t.len() ==> t[j] == rules[j]);
    }
}

/// Whether the rules come in ascending order of their handles, each handle
/// once, as a `BTreeMap` keyed by handle holds them.
pub open spec fn handles_sorted(rules: Seq<ElementRule>) -> bool {
    forall|a: int, b: int| 0 <= a < b < rules.len() ==> text_less(#[trigger] rules[a].handle@, #[trigger] rules[b].handle@)
}

impl SchemaCatalog {
    /// The catalog's invariant: one rule per handle, and each name list
    /// ascending with each name once.
    pub open spec fn wf(&self) -> bool {
        &&& handles_sorted(self.elements@)
        &&& sorted_names(self.element_names@)
        &&& sorted_names(self.global_elements@)
        &&& sorted_names(self.attribute_names@)
        &&& sorted_names(self.enum_values@)
    }

    /// Whether the catalog keeps its invariant; a catalog read from outside
    /// is checked with this before use.
    pub fn is_well_formed(&self) -> (r: bool)
        ensures
            r == self.wf(),
    {
        let mut i: usize = 1;
        while i < self.elements.len()
            invariant
                1 <= i,
                forall|a: int, b: int| 0 <= a < b < i && b < self.elements@.len()
                    ==> text_less(#[trigger] self.elements@[a].handle@, #[trigger] self.elements@[b].handle@),
            decreases self.elements@.len() - i,
        {
            if !text_lt(self.elements[i - 1].handle.as_str(), self.elements[i].handle.as_str()) {
                return false;
            }
            assert forall|a: int, b: int| 0 <= a < b < i + 1 && b < self.elements@.len()
                implies text_less(#[trigger] self.elements@[a].handle@, #[trigger] self.elements@[b].handle@) by {
                if b == i && a < i - 1 {
                    lemma_text_less_transitive(self.elements@[a].handle@, self.elements@[i - 1].handle@, self.elements@[b].handle@);
                }
            }
            i += 1;
        }
        names_sorted(&self.element_names) && names_sorted(&self.global_elements) && names_sorted(&self.attribute_names)
            && names_sorted(&self.enum_values)
    }

    /// The rule declared under `handle`.
    pub fn element(&self, handle: &str) -> (r: Option<&ElementRule>)
        ensures
            r matches Some(x) ==> rule_of(*self, handle@) == Some(*x),
            r is None ==> rule_of(*self, handle@) is None,
    {
        proof { lemma_rule_index(self.elements@, handle@); }
        let mut i: usize = 0;
        while i < self.elements.len()
            invariant
                i <= self.elements@.len(),
                forall|j: int| 0 <= j < i ==> self.elements@[j].handle@ != handle@,
            decreases self.elements@.len() - i,
        {
            if str_eq(self.elements[i].handle.as_str(), handle) {
                proof { lemma_rule_index(self.elements@, handle@); }
                return Some(&self.elements[i]);
            }
            i += 1;
        }
        None
    }
}

impl ElementRule {
    /// The child rule named `name`.
    pub fn child(&self, name: &str) -> (r: Option<&ChildRule>)
        ensures
            r matches Some(x) ==> child_of_rule(*self, name@) == Some(*x),
            r is None ==> child_of_rule(*self, name@) is None,
    {
        proof { lemma_child_rule_index(self.children@, name@); }
        let mut i: usize = 0;
        while i < self.children.len()
            invariant
                i <= self.children@.len(),
                forall|j: int| 0 <= j < i ==> self.children@[j].name@ != name@,
            decreases self.children@.len() - i,
        {
            if str_eq(self.children[i].name.as_str(), name) {
                proof { lemma_child_rule_index(self.children@, name@); }
                return Some(&self.children[i]);
            }
            i += 1;
        }
        None
    }

    /// The attribute rule named `name`.
    pub fn attribute(&self, name: &str) -> (r: Option<&AttributeRule>)
        ensures
            r matches Some(x) ==> attribute_rule_index(self.attributes@, name@) matches Some(i)
                && self.attributes@[i] == *x,
            r is None ==> attribute_rule_index(self.attributes@, name@) is None,
    {
        proof { lemma_attribute_rule_index(self.attributes@, name@); }
        let mut i: usize = 0;
        while i < self.attributes.len()
            invariant
                i <= self.attributes@.len(),
                forall|j: int| 0 <= j < i ==> self.attributes@[j].name@ != name@,
            decreases self.attributes@.len() - i,
        {
            if str_eq(self.attributes[i].name.as_str(), name) {
                proof { lemma_attribute_rule_index(self.attributes@, name@); }
                return Some(&self.attributes[i]);
            }
            i += 1;
        }
        None
    }
}

} // verus!
