//! Validation of a document against the declaration catalog: attributes,
//! cardinalities, choice groups, declaration order, unique `guid` values and
//! the standard's semantic overlays.
use vstd::prelude::*;
use crate::catalog::{child_rule_index, rule_of, AttributeRule, ChildRule, ChoiceGroup, ElementRule, SchemaCatalog, SemanticOverlay};
use crate::document::{count_named_before, opt_chars, Document};
use crate::editing::{group_count, group_total};
use crate::model::{attribute_by_local, lemma_children_view, nodes_view, value_by_local, Element, ElementView, Node, NodeView};
use crate::path::{child_path, spec_child_path};
use crate::schema::{is_hyphenated_uuid, is_lowercase_uuid, order_position};
use crate::text::{concat, owned, push_decimal, spec_decimal, str_eq};
use crate::tree::{count_children_named, named_positions};

verus! {

/// How serious an issue is.
#[derive(Debug, Clone, Copy, PartialEq, Eq, Structural)]
pub enum ValidationSeverity {
    Error,
    Warning,
}

/// One finding of validation, at a path of the document.
#[derive(Debug, Clone, PartialEq, Eq)]
pub struct ValidationIssue {
    pub severity: ValidationSeverity,
    pub code: String,
    pub path: String,
    pub message: String,
}

/// An issue with its texts as character sequences.
pub struct IssueView {
    pub severity: ValidationSeverity,
    pub code: Seq<char>,
    pub path: Seq<char>,
    pub message: Seq<char>,
}

impl View for ValidationIssue {
    type V = IssueView;

    open spec fn view(&self) -> IssueView {
        IssueView { severity: self.severity, code: self.code@, path: self.path@, message: self.message@ }
    }
}

/// The views of a list of issues.
pub open spec fn issues_view(v: Seq<ValidationIssue>) -> Seq<IssueView> {
    v.map_values(|i: ValidationIssue| i@)
}

/// An error finding.
pub open spec fn error_issue(code: Seq<char>, path: Seq<char>, message: Seq<char>) -> IssueView {
    IssueView { severity: ValidationSeverity::Error, code, path, message }
}

/// A warning finding.
pub open spec fn warning_issue(code: Seq<char>, path: Seq<char>, message: Seq<char>) -> IssueView {
    IssueView { severity: ValidationSeverity::Warning, code, path, message }
}

/// Whether `v` is one of `values`.
pub open spec fn listed(values: Seq<String>, v: Seq<char>) -> bool {
    exists|k: int| 0 <= k < values.len() && #[trigger] values[k]@ == v
}

/// The findings on `e` for one attribute declaration: a required attribute
/// that is missing, a `guid` that is no lowercase UUID, a value outside the
/// declared enumeration.
pub open spec fn one_attribute_issues(a: AttributeRule, e: ElementView, def_name: Seq<char>, path: Seq<char>) -> Seq<IssueView> {
    let value = value_by_local(e, a.name@);
    let required = if a.required && value is None {
        seq![error_issue("required_attribute"@, path, def_name + " requires attribute "@ + a.name@)]
    } else {
        Seq::empty()
    };
    let pattern = if a.name@ == "guid"@ {
        match value_by_local(e, "guid"@) {
            Some(v) => if !is_hyphenated_uuid(v) {
                seq![error_issue(
                    "attribute_pattern"@,
                    path,
                    "guid must match the lowercase UUID pattern declared by specId.xsd"@,
                )]
            } else {
                Seq::empty()
            },
            None => Seq::empty(),
        }
    } else {
        Seq::empty()
    };
    let enumeration = if a.enum_values@.len() > 0 {
        match value {
            Some(v) => if !listed(a.enum_values@, v) {
                seq![error_issue("attribute_enumeration"@, path, v + " is not an allowed value for "@ + a.name@)]
            } else {
                Seq::empty()
            },
            None => Seq::empty(),
        }
    } else {
        Seq::empty()
    };
    required + pattern + enumeration
}

/// The attribute findings on `e`, declaration by declaration.
pub open spec fn attribute_issues(rules: Seq<AttributeRule>, e: ElementView, def_name: Seq<char>, path: Seq<char>) -> Seq<IssueView>
    decreases rules.len(),
{
    if rules.len() == 0 {
        Seq::empty()
    } else {
        attribute_issues(rules.drop_last(), e, def_name, path) + one_attribute_issues(rules.last(), e, def_name, path)
    }
}

/// The findings on `e` for one child declaration: too few or too many.
pub open spec fn one_cardinality_issues(c: ChildRule, e: ElementView, def_name: Seq<char>, path: Seq<char>) -> Seq<IssueView> {
    let count = named_positions(e.children, c.name@).len();
    (if count < c.min_occurs {
        seq![error_issue(
            "minimum_cardinality"@,
            path,
            def_name + " requires at least "@ + spec_decimal(c.min_occurs as nat) + " "@ + c.name@ + " child element(s)"@,
        )]
    } else {
        Seq::empty()
    }) + match c.max_occurs {
        Some(m) => if count > m {
            seq![error_issue(
                "maximum_cardinality"@,
                path,
                def_name + " permits at most "@ + spec_decimal(m as nat) + " "@ + c.name@ + " child element(s)"@,
            )]
        } else {
            Seq::empty()
        },
        None => Seq::empty(),
    }
}

/// The cardinality findings on `e`, child declaration by child declaration.
pub open spec fn cardinality_issues(rules: Seq<ChildRule>, e: ElementView, def_name: Seq<char>, path: Seq<char>) -> Seq<IssueView>
    decreases rules.len(),
{
    if rules.len() == 0 {
        Seq::empty()
    } else {
        cardinality_issues(rules.drop_last(), e, def_name, path) + one_cardinality_issues(rules.last(), e, def_name, path)
    }
}

/// The findings on `e` for the choice groups: members counted together fall
/// outside the group's cardinality.
pub open spec fn choice_issues(groups: Seq<ChoiceGroup>, children: Seq<ChildRule>, e: ElementView, def_name: Seq<char>, path: Seq<char>) -> Seq<IssueView>
    decreases groups.len(),
{
    if groups.len() == 0 {
        Seq::empty()
    } else {
        let g = groups.last();
        let count = group_total(children, g.handle@, e);
        choice_issues(groups.drop_last(), children, e, def_name, path) + if count < g.min_occurs || (g.max_occurs matches Some(m) && count > m) {
            seq![error_issue("choice_cardinality"@, path, def_name + " violates choice group "@ + g.handle@ + " cardinality"@)]
        } else {
            Seq::empty()
        }
    }
}

/// Whether `issues` hold a `choice_cardinality` error at `path`.
pub open spec fn reports_choice_error(issues: Seq<IssueView>, path: Seq<char>) -> bool {
    exists|k: int| 0 <= k < issues.len() && #[trigger] issues[k].code == "choice_cardinality"@ && issues[k].path == path
        && issues[k].severity == ValidationSeverity::Error
}

/// Whether the members of choice group `g`, counted together among the
/// children of `e`, are fewer than its minimum or more than its maximum.
pub open spec fn group_out_of_bounds(g: ChoiceGroup, children: Seq<ChildRule>, e: ElementView) -> bool {
    let count = group_total(children, g.handle@, e);
    count < g.min_occurs || (g.max_occurs matches Some(m) && count > m)
}

proof fn lemma_report_kept(a: Seq<IssueView>, b: Seq<IssueView>, path: Seq<char>)
    ensures
        reports_choice_error(a, path) ==> reports_choice_error(a + b, path),
        reports_choice_error(b, path) ==> reports_choice_error(a + b, path),
{
    if reports_choice_error(a, path) {
        let k = choose|k: int| 0 <= k < a.len() && #[trigger] a[k].code == "choice_cardinality"@ && a[k].path == path
            && a[k].severity == ValidationSeverity::Error;
        assert((a + b)[k] == a[k]);
    }
    if reports_choice_error(b, path) {
        let k = choose|k: int| 0 <= k < b.len() && #[trigger] b[k].code == "choice_cardinality"@ && b[k].path == path
            && b[k].severity == ValidationSeverity::Error;
        assert((a + b)[a.len() + k] == b[k]);
    }
}

proof fn lemma_choice_group_reported(groups: Seq<ChoiceGroup>, children: Seq<ChildRule>, e: ElementView, def_name: Seq<char>, path: Seq<char>, i: int)
    requires
        0 <= i < groups.len(),
        group_out_of_bounds(groups[i], children, e),
    ensures
        reports_choice_error(choice_issues(groups, children, e, def_name, path), path),
    decreases groups.len(),
{
    let prev = choice_issues(groups.drop_last(), children, e, def_name, path);
    let g = groups.last();
    let tail = if group_total(children, g.handle@, e) < g.min_occurs
        || (g.max_occurs matches Some(m) && group_total(children, g.handle@, e) > m) {
        seq![error_issue("choice_cardinality"@, path, def_name + " violates choice group "@ + g.handle@ + " cardinality"@)]
    } else {
        Seq::empty()
    };
    assert(choice_issues(groups, children, e, def_name, path) == prev + tail);
    if i == groups.len() - 1 {
        assert(tail[0].code == "choice_cardinality"@);
        assert(reports_choice_error(tail, path));
    } else {
        assert(groups.drop_last()[i] == groups[i]);
        lemma_choice_group_reported(groups.drop_last(), children, e, def_name, path, i);
    }
    lemma_report_kept(prev, tail, path);
}

/// The choice groups among `groups` whose members fall outside their bounds.
pub open spec fn groups_out_of_bounds(groups: Seq<ChoiceGroup>, children: Seq<ChildRule>, e: ElementView) -> Seq<ChoiceGroup> {
    groups.filter(|g: ChoiceGroup| group_out_of_bounds(g, children, e))
}

/// The choice-group findings on an element are one `choice_cardinality`
/// error at its path for each choice group whose members fall outside the
/// group's bounds, and nothing else.
pub proof fn law_choice_findings_are_the_groups_out_of_bounds(
    groups: Seq<ChoiceGroup>,
    children: Seq<ChildRule>,
    e: ElementView,
    def_name: Seq<char>,
    path: Seq<char>,
)
    ensures
        choice_issues(groups, children, e, def_name, path).len() == groups_out_of_bounds(groups, children, e).len(),
        forall|k: int| 0 <= k < choice_issues(groups, children, e, def_name, path).len() ==> {
            let x = #[trigger] choice_issues(groups, children, e, def_name, path)[k];
            &&& x.code == "choice_cardinality"@
            &&& x.path == path
            &&& x.severity == ValidationSeverity::Error
        },
    decreases groups.len(),
{
    reveal_with_fuel(Seq::filter, 1);
    if groups.len() > 0 {
        law_choice_findings_are_the_groups_out_of_bounds(groups.drop_last(), children, e, def_name, path);
        let prev = choice_issues(groups.drop_last(), children, e, def_name, path);
        let g = groups.last();
        let tail = if group_total(children, g.handle@, e) < g.min_occurs
            || (g.max_occurs matches Some(m) && group_total(children, g.handle@, e) > m) {
            seq![error_issue("choice_cardinality"@, path, def_name + " violates choice group "@ + g.handle@ + " cardinality"@)]
        } else {
            Seq::empty()
        };
        let all = choice_issues(groups, children, e, def_name, path);
        assert(all == prev + tail);
        assert forall|k: int| 0 <= k < all.len() implies {
            let x = #[trigger] all[k];
            &&& x.code == "choice_cardinality"@
            &&& x.path == path
            &&& x.severity == ValidationSeverity::Error
        } by {
            if k < prev.len() {
                assert(all[k] == prev[k]);
            } else {
                assert(all[k] == tail[k - prev.len()]);
            }
        }
    }
}

/// Validating an element against its declaration reports a
/// `choice_cardinality` error at the element's path for every choice group
/// whose members, counted together among its children, are fewer than the
/// group's minimum or more than its maximum.
pub proof fn law_choice_group_violations_are_reported(
    e: ElementView,
    path: Seq<char>,
    handle: Seq<char>,
    catalog: SchemaCatalog,
    i: int,
)
    requires
        rule_of(catalog, handle) is Some,
        0 <= i < rule_of(catalog, handle)->Some_0.choice_groups@.len(),
        group_out_of_bounds(rule_of(catalog, handle)->Some_0.choice_groups@[i], rule_of(catalog, handle)->Some_0.children@, e),
    ensures
        reports_choice_error(schema_issues(e, path, handle, catalog), path),
{
    let rule = rule_of(catalog, handle)->Some_0;
    let a = attribute_issues(rule.attributes@, e, rule.name@, path);
    let b = cardinality_issues(rule.children@, e, rule.name@, path);
    let c = choice_issues(rule.choice_groups@, rule.children@, e, rule.name@, path);
    let d = child_issues(e.children, path, rule, catalog, e.children.len() as int).0;
    lemma_choice_group_reported(rule.choice_groups@, rule.children@, e, rule.name@, path, i);
    lemma_report_kept(a + b, c, path);
    lemma_report_kept(a + b + c, d, path);
}

/// The message for an element without declaration.
pub open spec fn no_declaration_message(handle: Seq<char>) -> Seq<char> {
    "No schema declaration for `"@ + handle + "`"@
}

/// All findings on the tree rooted at `e`, which sits at `path` and is
/// declared by `handle`.
pub open spec fn schema_issues(e: ElementView, path: Seq<char>, handle: Seq<char>, catalog: SchemaCatalog) -> Seq<IssueView>
    decreases e, 0int,
{
    match rule_of(catalog, handle) {
        None => seq![error_issue("schema_definition"@, path, no_declaration_message(handle))],
        Some(rule) => attribute_issues(rule.attributes@, e, rule.name@, path)
            + cardinality_issues(rule.children@, e, rule.name@, path)
            + choice_issues(rule.choice_groups@, rule.children@, e, rule.name@, path)
            + child_issues(e.children, path, rule, catalog, e.children.len() as int).0,
    }
}

/// The findings on the first `upto` children of an element at `path` that
/// `rule` declares, and the declaration position of the last declared child
/// met among them: a child declared before an earlier one is out of order, a
/// child not declared is kept as an extension.
pub open spec fn child_issues(s: Seq<NodeView>, path: Seq<char>, rule: ElementRule, catalog: SchemaCatalog, upto: int) -> (Seq<IssueView>, int)
    decreases s, upto,
{
    if upto <= 0 || upto > s.len() {
        (Seq::empty(), 0)
    } else {
        let prev = child_issues(s, path, rule, catalog, upto - 1);
        match s[upto - 1] {
            NodeView::Element(c) => {
                let child_path = spec_child_path(path, c.local_name, named_positions(s.take(upto - 1), c.local_name).len());
                match child_rule_index(rule.children@, c.local_name) {
                    Some(order) => {
                        let misplaced = if order < prev.1 {
                            seq![error_issue("schema_order"@, child_path, "Element is not in XSD declaration order"@)]
                        } else {
                            Seq::empty()
                        };
                        (prev.0 + misplaced + schema_issues(c, child_path, rule.children@[order].definition@, catalog), order)
                    },
                    None => (
                        prev.0 + seq![warning_issue(
                            "extension_element"@,
                            child_path,
                            "Element is not declared at this position; it is preserved as extension content"@,
                        )],
                        prev.1,
                    ),
                }
            },
            _ => prev,
        }
    }
}

fn push_issue(issues: &mut Vec<ValidationIssue>, severity: ValidationSeverity, code: &str, path: &str, message: String)
    ensures
        issues_view(final(issues)@) == issues_view(old(issues)@).push(
            IssueView { severity, code: code@, path: path@, message: message@ },
        ),
{
    let ghost before = issues@;
    issues.push(ValidationIssue { severity, code: owned(code), path: owned(path), message });
    assert(issues_view(issues@) =~= issues_view(before).push(
        IssueView { severity, code: code@, path: path@, message: message@ },
    ));
}

fn is_listed(values: &Vec<String>, v: &str) -> (r: bool)
    ensures
        r == listed(values@, v@),
{
    let mut k: usize = 0;
    while k < values.len()
        invariant
            k <= values@.len(),
            forall|j: int| 0 <= j < k ==> values@[j]@ != v@,
        decreases values@.len() - k,
    {
        if str_eq(values[k].as_str(), v) {
            return true;
        }
        k += 1;
    }
    false
}

fn one_attribute_checks(e: &Element, a: &AttributeRule, def_name: &str, path: &str, issues: &mut Vec<ValidationIssue>)
    ensures
        issues_view(final(issues)@) == issues_view(old(issues)@) + one_attribute_issues(*a, e@, def_name@, path@),
{
    let ghost start = issues_view(issues@);
    let value = attribute_by_local(e, a.name.as_str());
    if a.required && value.is_none() {
        let mut message = concat(def_name, " requires attribute ");
        message.append(a.name.as_str());
        push_issue(issues, ValidationSeverity::Error, "required_attribute", path, message);
    }
    let ghost after_required = issues_view(issues@);
    if str_eq(a.name.as_str(), "guid") {
        match attribute_by_local(e, "guid") {
            Some(v) => {
                if !is_lowercase_uuid(v) {
                    push_issue(
                        issues,
                        ValidationSeverity::Error,
                        "attribute_pattern",
                        path,
                        owned("guid must match the lowercase UUID pattern declared by specId.xsd"),
                    );
                }
            },
            None => {},
        }
    }
    let ghost after_pattern = issues_view(issues@);
    if a.enum_values.len() > 0 {
        match value {
            Some(v) => {
                if !is_listed(&a.enum_values, v) {
                    let mut message = concat(v, " is not an allowed value for ");
                    message.append(a.name.as_str());
                    push_issue(issues, ValidationSeverity::Error, "attribute_enumeration", path, message);
                }
            },
            None => {},
        }
    }
    assert(issues_view(issues@) =~= start + one_attribute_issues(*a, e@, def_name@, path@));
}

fn attribute_checks(e: &Element, rule: &ElementRule, path: &str, issues: &mut Vec<ValidationIssue>)
    ensures
        issues_view(final(issues)@) == issues_view(old(issues)@) + attribute_issues(rule.attributes@, e@, rule.name@, path@),
{
    let ghost start = issues_view(issues@);
    let mut i: usize = 0;
    assert(start =~= start + attribute_issues(rule.attributes@.take(0), e@, rule.name@, path@));
    while i < rule.attributes.len()
        invariant
            i <= rule.attributes@.len(),
            issues_view(issues@) == start + attribute_issues(rule.attributes@.take(i as int), e@, rule.name@, path@),
        decreases rule.attributes@.len() - i,
    {
        assert(rule.attributes@.take(i + 1).drop_last() =~= rule.attributes@.take(i as int));
        assert(rule.attributes@.take(i + 1).last() == rule.attributes@[i as int]);
        let ghost before = issues_view(issues@);
        one_attribute_checks(e, &rule.attributes[i], rule.name.as_str(), path, issues);
        assert(issues_view(issues@) =~= start + attribute_issues(rule.attributes@.take(i + 1), e@, rule.name@, path@));
        i += 1;
    }
    assert(rule.attributes@.take(i as int) =~= rule.attributes@);
}

fn cardinality_checks(e: &Element, rule: &ElementRule, path: &str, issues: &mut Vec<ValidationIssue>)
    ensures
        issues_view(final(issues)@) == issues_view(old(issues)@) + cardinality_issues(rule.children@, e@, rule.name@, path@),
{
    let ghost start = issues_view(issues@);
    let mut i: usize = 0;
    assert(start =~= start + cardinality_issues(rule.children@.take(0), e@, rule.name@, path@));
    while i < rule.children.len()
        invariant
            i <= rule.children@.len(),
            issues_view(issues@) == start + cardinality_issues(rule.children@.take(i as int), e@, rule.name@, path@),
        decreases rule.children@.len() - i,
    {
        assert(rule.children@.take(i + 1).drop_last() =~= rule.children@.take(i as int));
        assert(rule.children@.take(i + 1).last() == rule.children@[i as int]);
        let ghost before = issues_view(issues@);
        let c = &rule.children[i];
        let count = count_children_named(e, c.name.as_str());
        if count < c.min_occurs {
            let mut message = concat(rule.name.as_str(), " requires at least ");
            push_decimal(&mut message, c.min_occurs);
            message.append(" ");
            message.append(c.name.as_str());
            message.append(" child element(s)");
            push_issue(issues, ValidationSeverity::Error, "minimum_cardinality", path, message);
        }
        match c.max_occurs {
            Some(m) => {
                if count > m {
                    let mut message = concat(rule.name.as_str(), " permits at most ");
                    push_decimal(&mut message, m);
                    message.append(" ");
                    message.append(c.name.as_str());
                    message.append(" child element(s)");
                    push_issue(issues, ValidationSeverity::Error, "maximum_cardinality", path, message);
                }
            },
            None => {},
        }
        assert(issues_view(issues@) =~= before + one_cardinality_issues(rule.children@[i as int], e@, rule.name@, path@));
        assert(issues_view(issues@) =~= start + cardinality_issues(rule.children@.take(i + 1), e@, rule.name@, path@));
        i += 1;
    }
    assert(rule.children@.take(i as int) =~= rule.children@);
}

fn choice_checks(e: &Element, rule: &ElementRule, path: &str, issues: &mut Vec<ValidationIssue>)
    ensures
        issues_view(final(issues)@) == issues_view(old(issues)@) + choice_issues(rule.choice_groups@, rule.children@, e@, rule.name@, path@),
{
    let ghost start = issues_view(issues@);
    let mut i: usize = 0;
    assert(start =~= start + choice_issues(rule.choice_groups@.take(0), rule.children@, e@, rule.name@, path@));
    while i < rule.choice_groups.len()
        invariant
            i <= rule.choice_groups@.len(),
            issues_view(issues@) == start + choice_issues(rule.choice_groups@.take(i as int), rule.children@, e@, rule.name@, path@),
        decreases rule.choice_groups@.len() - i,
    {
        assert(rule.choice_groups@.take(i + 1).drop_last() =~= rule.choice_groups@.take(i as int));
        assert(rule.choice_groups@.take(i + 1).last() == rule.choice_groups@[i as int]);
        let ghost before = issues_view(issues@);
        let g = &rule.choice_groups[i];
        let count = group_count(&rule.children, g.handle.as_str(), e);
        let above = match g.max_occurs {
            Some(m) => count > m as u128,
            None => false,
        };
        if count < g.min_occurs as u128 || above {
            let mut message = concat(rule.name.as_str(), " violates choice group ");
            message.append(g.handle.as_str());
            message.append(" cardinality");
            push_issue(issues, ValidationSeverity::Error, "choice_cardinality", path, message);
        }
        assert(issues_view(issues@) =~= start + choice_issues(rule.choice_groups@.take(i + 1), rule.children@, e@, rule.name@, path@));
        i += 1;
    }
    assert(rule.choice_groups@.take(i as int) =~= rule.choice_groups@);
}

fn validate_element(e: &Element, path: &str, handle: &str, catalog: &SchemaCatalog, issues: &mut Vec<ValidationIssue>)
    ensures
        issues_view(final(issues)@) == issues_view(old(issues)@) + schema_issues(e@, path@, handle@, *catalog),
    decreases e,
{
    let ghost start = issues_view(issues@);
    let rule = match catalog.element(handle) {
        Some(rule) => rule,
        None => {
            let mut message = concat("No schema declaration for `", handle);
            message.append("`");
            push_issue(issues, ValidationSeverity::Error, "schema_definition", path, message);
            assert(issues_view(issues@) =~= start + schema_issues(e@, path@, handle@, *catalog));
            return;
        },
    };
    attribute_checks(e, rule, path, issues);
    cardinality_checks(e, rule, path, issues);
    choice_checks(e, rule, path, issues);
    let ghost head = issues_view(issues@);
    proof { lemma_children_view(*e); }
    let ghost s = e@.children;
    let mut seen: usize = 0;
    let mut i: usize = 0;
    while i < e.children.len()
        invariant
            i <= e.children@.len(),
            s == e@.children,
            s == nodes_view(e.children@),
            issues_view(issues@) == head + child_issues(s, path@, *rule, *catalog, i as int).0,
            seen as int == child_issues(s, path@, *rule, *catalog, i as int).1,
        decreases e.children@.len() - i,
    {
        let ghost before = issues_view(issues@);
        match &e.children[i] {
            Node::Element(c) => {
                assert(s[i as int] == NodeView::Element(c@));
                let index = count_named_before(e, c.local_name.as_str(), i);
                let child = child_path(path, c.local_name.as_str(), index);
                match order_position(rule, c.local_name.as_str()) {
                    Some(order) => {
                        proof { crate::catalog::lemma_child_rule_index(rule.children@, c@.local_name); }
                        if order < seen {
                            push_issue(
                                issues,
                                ValidationSeverity::Error,
                                "schema_order",
                                child.as_str(),
                                owned("Element is not in XSD declaration order"),
                            );
                        }
                        seen = order;
                        validate_element(c, child.as_str(), rule.children[order].definition.as_str(), catalog, issues);
                    },
                    None => {
                        push_issue(
                            issues,
                            ValidationSeverity::Warning,
                            "extension_element",
                            child.as_str(),
                            owned("Element is not declared at this position; it is preserved as extension content"),
                        );
                    },
                }
            },
            _ => {},
        }
        assert(issues_view(issues@) =~= head + child_issues(s, path@, *rule, *catalog, i + 1).0);
        i += 1;
    }
    assert(issues_view(issues@) =~= start + schema_issues(e@, path@, handle@, *catalog));
}


/// The path and the first `guid` attribute value of every element of the
/// tree rooted at `e`, which sits at `path`, in pre-order.
pub open spec fn guid_entries(e: ElementView, path: Seq<char>) -> Seq<(Seq<char>, Option<Seq<char>>)>
    decreases e, 0int,
{
    seq![(path, value_by_local(e, "guid"@))] + guid_children(e.children, path, e.children.len() as int)
}

/// `guid_entries` over the first `upto` children of an element at `path`.
pub open spec fn guid_children(s: Seq<NodeView>, path: Seq<char>, upto: int) -> Seq<(Seq<char>, Option<Seq<char>>)>
    decreases s, upto,
{
    if upto <= 0 || upto > s.len() {
        Seq::empty()
    } else {
        guid_children(s, path, upto - 1) + match s[upto - 1] {
            NodeView::Element(c) => guid_entries(
                c,
                spec_child_path(path, c.local_name, named_positions(s.take(upto - 1), c.local_name).len()),
            ),
            _ => Seq::empty(),
        }
    }
}

/// Whether some entry carries the `guid` value `g`.
pub open spec fn guid_seen(entries: Seq<(Seq<char>, Option<Seq<char>>)>, g: Seq<char>) -> bool {
    exists|j: int| 0 <= j < entries.len() && #[trigger] entries[j].1 == Some(g)
}

/// A finding at each entry whose `guid` value an earlier entry carries.
pub open spec fn duplicate_issues(entries: Seq<(Seq<char>, Option<Seq<char>>)>) -> Seq<IssueView>
    decreases entries.len(),
{
    if entries.len() == 0 {
        Seq::empty()
    } else {
        duplicate_issues(entries.drop_last()) + match entries.last().1 {
            Some(g) => if guid_seen(entries.drop_last(), g) {
                seq![error_issue("duplicate_guid"@, entries.last().0, "guid values must be unique"@)]
            } else {
                Seq::empty()
            },
            None => Seq::empty(),
        }
    }
}

/// A finding for each overlay on `/idm` whose child occurs too rarely below
/// the root.
pub open spec fn overlay_issues(overlays: Seq<SemanticOverlay>, root: ElementView) -> Seq<IssueView>
    decreases overlays.len(),
{
    if overlays.len() == 0 {
        Seq::empty()
    } else {
        let o = overlays.last();
        overlay_issues(overlays.drop_last(), root) + if o.path@ == "/idm"@ && named_positions(root.children, o.child@).len() < o.min_occurs {
            seq![error_issue(o.code@, o.path@, o.reason@)]
        } else {
            Seq::empty()
        }
    }
}

/// Everything that validating a document with root `root` finds.
pub open spec fn validation_issues(root: ElementView, catalog: SchemaCatalog) -> Seq<IssueView> {
    if root.local_name != "idm"@ || root.namespace is Some {
        seq![error_issue("invalid_root"@, "/"@, "Root must be the unqualified idm element declared by ISO 29481-3"@)]
    } else {
        schema_issues(root, "/idm"@, "idm"@, catalog) + duplicate_issues(guid_entries(root, "/idm"@))
            + overlay_issues(catalog.semantic_overlays@, root)
    }
}

/// The views of collected `guid` entries.
pub open spec fn entries_view(v: Seq<(String, Option<String>)>) -> Seq<(Seq<char>, Option<Seq<char>>)> {
    v.map_values(|t: (String, Option<String>)| (t.0@, opt_chars(t.1)))
}

fn opt_copy(o: Option<&str>) -> (r: Option<String>)
    ensures
        opt_chars(r) == (match o {
            Some(t) => Some(t@),
            None => None::<Seq<char>>,
        }),
{
    match o {
        Some(t) => Some(owned(t)),
        None => None,
    }
}

fn collect_guids(e: &Element, path: &str, out: &mut Vec<(String, Option<String>)>)
    ensures
        entries_view(final(out)@) == entries_view(old(out)@) + guid_entries(e@, path@),
    decreases e,
{
    proof { lemma_children_view(*e); }
    let ghost s = e@.children;
    let ghost start = entries_view(out@);
    let guid = opt_copy(attribute_by_local(e, "guid"));
    out.push((owned(path), guid));
    let ghost head = entries_view(out@);
    assert(head =~= start + seq![(path@, value_by_local(e@, "guid"@))]);
    let mut i: usize = 0;
    while i < e.children.len()
        invariant
            i <= e.children@.len(),
            s == e@.children,
            s == nodes_view(e.children@),
            entries_view(out@) == head + guid_children(s, path@, i as int),
        decreases e.children@.len() - i,
    {
        match &e.children[i] {
            Node::Element(c) => {
                assert(s[i as int] == NodeView::Element(c@));
                let index = count_named_before(e, c.local_name.as_str(), i);
                let child = child_path(path, c.local_name.as_str(), index);
                collect_guids(c, child.as_str(), out);
            },
            _ => {},
        }
        assert(entries_view(out@) =~= head + guid_children(s, path@, i + 1));
        i += 1;
    }
    assert(entries_view(out@) =~= start + guid_entries(e@, path@));
}

/// Whether one of the first `k` entries carries the `guid` value `g`.
fn seen_before(entries: &Vec<(String, Option<String>)>, k: usize, g: &str) -> (r: bool)
    requires
        k <= entries@.len(),
    ensures
        r == guid_seen(entries_view(entries@).take(k as int), g@),
{
    let ghost ev = entries_view(entries@).take(k as int);
    let mut j: usize = 0;
    while j < k
        invariant
            j <= k <= entries@.len(),
            ev == entries_view(entries@).take(k as int),
            forall|q: int| 0 <= q < j ==> ev[q].1 != Some(g@),
        decreases k - j,
    {
        let hit = match &entries[j].1 {
            Some(h) => str_eq(h.as_str(), g),
            None => false,
        };
        assert(ev[j as int] == (entries@[j as int].0@, opt_chars(entries@[j as int].1)));
        if hit {
            assert(ev[j as int].1 == Some(g@));
            return true;
        }
        j += 1;
    }
    false
}

impl Document {
    /// Validates the whole tree against the declaration catalog and the
    /// standard's semantic overlays.
    pub fn validate(&self, catalog: &SchemaCatalog) -> (r: Vec<ValidationIssue>)
        ensures
            issues_view(r@) == validation_issues(self@.root, *catalog),
    {
        let root = self.root();
        let mut issues: Vec<ValidationIssue> = Vec::new();
        if !str_eq(root.local_name.as_str(), "idm") || root.namespace.is_some() {
            push_issue(
                &mut issues,
                ValidationSeverity::Error,
                "invalid_root",
                "/",
                owned("Root must be the unqualified idm element declared by ISO 29481-3"),
            );
            assert(issues_view(issues@) =~= validation_issues(self@.root, *catalog));
            return issues;
        }
        assert(issues_view(issues@) =~= Seq::<IssueView>::empty());
        validate_element(root, "/idm", "idm", catalog, &mut issues);
        let ghost structural = issues_view(issues@);
        let mut entries: Vec<(String, Option<String>)> = Vec::new();
        collect_guids(root, "/idm", &mut entries);
        let ghost ev = entries_view(entries@);
        assert(ev =~= guid_entries(root@, "/idm"@));
        let mut k: usize = 0;
        while k < entries.len()
            invariant
                k <= entries@.len(),
                ev == entries_view(entries@),
                issues_view(issues@) == structural + duplicate_issues(ev.take(k as int)),
            decreases entries@.len() - k,
        {
            assert(ev.take(k + 1).drop_last() =~= ev.take(k as int));
            assert(ev.take(k + 1).last() == ev[k as int]);
            assert(ev[k as int] == (entries@[k as int].0@, opt_chars(entries@[k as int].1)));
            let ghost before = issues_view(issues@);
            match &entries[k].1 {
                Some(g) => {
                    if seen_before(&entries, k, g.as_str()) {
                        push_issue(
                            &mut issues,
                            ValidationSeverity::Error,
                            "duplicate_guid",
                            entries[k].0.as_str(),
                            owned("guid values must be unique"),
                        );
                    }
                },
                None => {},
            }
            assert(issues_view(issues@) =~= structural + duplicate_issues(ev.take(k + 1)));
            k += 1;
        }
        assert(ev.take(k as int) =~= ev);
        let ghost checked = issues_view(issues@);
        let overlays = &catalog.semantic_overlays;
        let mut i: usize = 0;
        assert(checked =~= checked + overlay_issues(overlays@.take(0), root@));
        while i < overlays.len()
            invariant
                i <= overlays@.len(),
                *overlays == catalog.semantic_overlays,
                issues_view(issues@) == checked + overlay_issues(overlays@.take(i as int), root@),
            decreases overlays@.len() - i,
        {
            assert(overlays@.take(i + 1).drop_last() =~= overlays@.take(i as int));
            assert(overlays@.take(i + 1).last() == overlays@[i as int]);
            let o = &overlays[i];
            if str_eq(o.path.as_str(), "/idm") && count_children_named(root, o.child.as_str()) < o.min_occurs {
                push_issue(&mut issues, ValidationSeverity::Error, o.code.as_str(), o.path.as_str(), o.reason.clone());
            }
            assert(issues_view(issues@) =~= checked + overlay_issues(overlays@.take(i + 1), root@));
            i += 1;
        }
        assert(overlays@.take(i as int) =~= overlays@);
        issues
    }
}


/// How many of `issues` have severity `severity`.
pub open spec fn severity_count(issues: Seq<IssueView>, severity: ValidationSeverity) -> nat
    decreases issues.len(),
{
    if issues.len() == 0 {
        0
    } else {
        severity_count(issues.drop_last(), severity) + if issues.last().severity == severity { 1nat } else { 0nat }
    }
}

/// The numbers of errors and of warnings among `issues`.
pub fn severity_counts(issues: &Vec<ValidationIssue>) -> (r: (usize, usize))
    ensures
        r.0 == severity_count(issues_view(issues@), ValidationSeverity::Error),
        r.1 == severity_count(issues_view(issues@), ValidationSeverity::Warning),
{
    let ghost all = issues_view(issues@);
    let mut errors: usize = 0;
    let mut warnings: usize = 0;
    let mut i: usize = 0;
    while i < issues.len()
        invariant
            i <= issues@.len(),
            all == issues_view(issues@),
            errors == severity_count(all.take(i as int), ValidationSeverity::Error),
            warnings == severity_count(all.take(i as int), ValidationSeverity::Warning),
            errors + warnings <= i,
        decreases issues@.len() - i,
    {
        assert(all.take(i + 1).drop_last() =~= all.take(i as int));
        assert(all.take(i + 1).last() == issues@[i as int]@);
        match issues[i].severity {
            ValidationSeverity::Error => errors += 1,
            ValidationSeverity::Warning => warnings += 1,
        }
        i += 1;
    }
    assert(all.take(i as int) =~= all);
    (errors, warnings)
}

} // verus!
