//! Schema-driven skeletons: default attribute values, the children that a
//! declaration requires, and the schema-ordered insertion of new children.
use vstd::prelude::*;
use crate::catalog::{
    child_of_rule, child_rule_index, lemma_child_rule_index, rule_of, AttributeRule,
    ChildRule, ChoiceGroup, ElementRule, SchemaCatalog,
};
use crate::document::{lookup, strings_view, DEFAULT_MAX_XML_DEPTH};
use crate::model::{
    attr_by_qname, attrs_with_value, lemma_attr_by_qname, lemma_children_view, lemma_nodes_view_insert, lemma_nodes_view_push, new_element_view, nodes_view,
    AttributeView, Element, ElementView, Error, ErrorView, Node, NodeView,
};
use crate::path::{segments_view, spec_parse_path, PathSegment, SegmentView};
use crate::text::{concat, owned, str_eq};

verus! {

/// Whether `c` is a lowercase hexadecimal digit.
pub open spec fn is_lower_hex(c: char) -> bool {
    ('0' <= c && c <= '9') || ('a' <= c && c <= 'f')
}

/// The hyphenated lowercase spelling of a UUID, `8-4-4-4-12` hex digits.
pub open spec fn is_hyphenated_uuid(s: Seq<char>) -> bool {
    &&& s.len() == 36
    &&& forall|i: int| 0 <= i < 36 ==> if i == 8 || i == 13 || i == 18 || i == 23 {
        #[trigger] s[i] == '-'
    } else {
        is_lower_hex(s[i])
    }
}

/// The simple lowercase spelling of a UUID: 32 hex digits.
pub open spec fn is_simple_uuid(s: Seq<char>) -> bool {
    s.len() == 32 && forall|i: int| 0 <= i < 32 ==> is_lower_hex(#[trigger] s[i])
}

/// `Uuid::new_v4().to_string()`: a fresh random UUID, written hyphenated in
/// lowercase (its `Display`). Which UUID comes out is left open.
#[verifier::external_body]
fn new_hyphenated_uuid() -> (r: String)
    ensures
        is_hyphenated_uuid(r@),
{
    uuid::Uuid::new_v4().to_string()
}

/// `Uuid::new_v4().simple().to_string()`: a fresh random UUID as 32 lowercase
/// hex digits. Which UUID comes out is left open.
#[verifier::external_body]
fn new_simple_uuid() -> (r: String)
    ensures
        is_simple_uuid(r@),
{
    uuid::Uuid::new_v4().simple().to_string()
}

/// Whether `s` matches `[a-f0-9]{8}-[a-f0-9]{4}-[a-f0-9]{4}-[a-f0-9]{4}-[a-f0-9]{12}`,
/// the `guid` pattern of the specification's schema.
pub fn is_lowercase_uuid(s: &str) -> (r: bool)
    ensures
        r == is_hyphenated_uuid(s@),
{
    let v = crate::text::to_chars(s);
    if v.len() != 36 {
        return false;
    }
    let mut i: usize = 0;
    while i < 36
        invariant
            i <= 36,
            v@ == s@,
            v@.len() == 36,
            forall|j: int| 0 <= j < i ==> if j == 8 || j == 13 || j == 18 || j == 23 {
                #[trigger] v@[j] == '-'
            } else {
                is_lower_hex(v@[j])
            },
        decreases 36 - i,
    {
        let c = v[i];
        let ok = if i == 8 || i == 13 || i == 18 || i == 23 {
            c == '-'
        } else {
            ('0' <= c && c <= '9') || ('a' <= c && c <= 'f')
        };
        if !ok {
            assert(!(if i == 8 || i == 13 || i == 18 || i == 23 { v@[i as int] == '-' } else { is_lower_hex(v@[i as int]) }));
            return false;
        }
        i += 1;
    }
    true
}

/// The value that a fixed-name attribute gets by default.
pub open spec fn fixed_default(name: Seq<char>) -> Seq<char> {
    if name == "documentStatus"@ {
        "draft"@
    } else if name == "changeDateTime"@ {
        "1970-01-01T00:00:00Z"@
    } else if name == "changedBy"@ {
        "author-1"@
    } else if name == "isMandatory"@ {
        "false"@
    } else if name == "publicationDate"@ {
        "1970"@
    } else {
        Seq::empty()
    }
}

/// Whether `v` is a value that a new required attribute may get: its declared
/// default, else its first enumerated value, else a fresh UUID for `guid`,
/// `id-` and a simple UUID for `id`, else a fixed placeholder.
pub open spec fn default_value_ok(rule: AttributeRule, v: Seq<char>) -> bool {
    match rule.default {
        Some(d) => v == d@,
        None => if rule.enum_values@.len() > 0 {
            v == rule.enum_values@[0]@
        } else if rule.name@ == "guid"@ {
            is_hyphenated_uuid(v)
        } else if rule.name@ == "id"@ {
            v.len() == 35 && v.take(3) == "id-"@ && is_simple_uuid(v.skip(3))
        } else {
            v == fixed_default(rule.name@)
        },
    }
}

fn default_attribute_value(rule: &AttributeRule) -> (r: String)
    ensures
        default_value_ok(*rule, r@),
{
    match &rule.default {
        Some(d) => {
            return d.clone();
        },
        None => {},
    }
    if rule.enum_values.len() > 0 {
        return rule.enum_values[0].clone();
    }
    let name = rule.name.as_str();
    if str_eq(name, "guid") {
        new_hyphenated_uuid()
    } else if str_eq(name, "id") {
        let u = new_simple_uuid();
        let r = concat("id-", u.as_str());
        proof { reveal_strlit("id-"); }
        assert(r@.take(3) =~= "id-"@);
        assert(r@.skip(3) =~= u@);
        r
    } else if str_eq(name, "documentStatus") {
        owned("draft")
    } else if str_eq(name, "changeDateTime") {
        owned("1970-01-01T00:00:00Z")
    } else if str_eq(name, "changedBy") {
        owned("author-1")
    } else if str_eq(name, "isMandatory") {
        owned("false")
    } else if str_eq(name, "publicationDate") {
        owned("1970")
    } else {
        String::new()
    }
}

/// The required attribute rules, in order.
pub open spec fn required_rules(rules: Seq<AttributeRule>) -> Seq<AttributeRule>
    decreases rules.len(),
{
    if rules.len() == 0 {
        Seq::empty()
    } else {
        let r = required_rules(rules.drop_last());
        if rules.last().required { r.push(rules.last()) } else { r }
    }
}

/// The attributes after setting each rule's attribute to its value, in order.
pub open spec fn attrs_after(rules: Seq<AttributeRule>, values: Seq<Seq<char>>) -> Seq<AttributeView>
    decreases rules.len(),
{
    if rules.len() == 0 {
        Seq::empty()
    } else {
        attrs_with_value(attrs_after(rules.drop_last(), values.drop_last()), rules.last().name@, values.last())
    }
}

/// Whether each value suits its rule.
pub open spec fn values_ok(rules: Seq<AttributeRule>, values: Seq<Seq<char>>) -> bool {
    values.len() == rules.len() && forall|i: int| 0 <= i < rules.len() ==> default_value_ok(#[trigger] rules[i], values[i])
}

/// Whether `attrs` are what setting every required attribute to a suitable
/// default gives.
pub open spec fn default_attributes(rules: Seq<AttributeRule>, attrs: Seq<AttributeView>) -> bool {
    exists|values: Seq<Seq<char>>| values_ok(required_rules(rules), values) && attrs == attrs_after(required_rules(rules), values)
}

/// Whether `v` suits `rule` as the value of a new attribute; kept opaque so
/// that proofs about attribute lists do not unfold it.
#[verifier::opaque]
pub open spec fn suits(rule: AttributeRule, v: Seq<char>) -> bool {
    default_value_ok(rule, v)
}

/// Whether every attribute of `attrs` bears the name of one of `rules`, with
/// a value that suits that rule.
#[verifier::opaque]
spec fn attributes_from_rules(attrs: Seq<AttributeView>, rules: Seq<AttributeRule>) -> bool {
    forall|k: int| 0 <= k < attrs.len() ==> exists|j: int| 0 <= j < rules.len()
        && #[trigger] rules[j].name@ == #[trigger] attrs[k].qualified_name && suits(rules[j], attrs[k].value)
}

/// Whether every rule of `rules` names an attribute of `attrs`.
#[verifier::opaque]
spec fn rules_present(attrs: Seq<AttributeView>, rules: Seq<AttributeRule>) -> bool {
    forall|j: int| 0 <= j < rules.len() ==> exists|k: int| 0 <= k < attrs.len()
        && #[trigger] attrs[k].qualified_name == #[trigger] rules[j].name@
}

/// Where setting `name` to `v` puts it, and what it leaves alone.
proof fn lemma_set_value(prev: Seq<AttributeView>, name: Seq<char>, v: Seq<char>) -> (i: int)
    ensures
        0 <= i <= prev.len(),
        attrs_with_value(prev, name, v).len() == (if i == prev.len() { prev.len() + 1 } else { prev.len() }),
        attrs_with_value(prev, name, v)[i].qualified_name == name,
        attrs_with_value(prev, name, v)[i].value == v,
        forall|k: int| 0 <= k < prev.len() && k != i ==> #[trigger] attrs_with_value(prev, name, v)[k] == prev[k],
        forall|k: int| 0 <= k < prev.len() ==> #[trigger] attrs_with_value(prev, name, v)[k].qualified_name
            == prev[k].qualified_name,
{
    lemma_attr_by_qname(prev, name);
    match attr_by_qname(prev, name) {
        Some(i) => i,
        None => prev.len() as int,
    }
}

/// Each attribute that setting the rules' values gives comes from a rule,
/// with a value that suits it.
proof fn lemma_attrs_after_from_rules(rs: Seq<AttributeRule>, vs: Seq<Seq<char>>)
    requires
        vs.len() == rs.len(),
        forall|i: int| 0 <= i < rs.len() ==> suits(#[trigger] rs[i], vs[i]),
    ensures
        attributes_from_rules(attrs_after(rs, vs), rs),
    decreases rs.len(),
{
    reveal(attributes_from_rules);
    if rs.len() > 0 {
        let rp = rs.drop_last();
        let vp = vs.drop_last();
        assert forall|i: int| 0 <= i < rp.len() implies suits(#[trigger] rp[i], vp[i]) by {
            assert(rs[i] == rp[i]);
        }
        lemma_attrs_after_from_rules(rp, vp);
        let prev = attrs_after(rp, vp);
        let last = rs.len() - 1;
        let name = rs[last].name@;
        let v = vs[last];
        let now = attrs_after(rs, vs);
        assert(now == attrs_with_value(prev, name, v));
        let i = lemma_set_value(prev, name, v);
        assert(suits(rs[last], v));
        assert forall|k: int| 0 <= k < now.len() implies exists|j: int| 0 <= j < rs.len()
            && #[trigger] rs[j].name@ == #[trigger] now[k].qualified_name && suits(rs[j], now[k].value) by {
            if k == i {
                assert(rs[last].name@ == now[k].qualified_name);
            } else {
                assert(now[k] == prev[k]);
                let j = choose|j: int| 0 <= j < rp.len() && #[trigger] rp[j].name@ == #[trigger] prev[k].qualified_name
                    && suits(rp[j], prev[k].value);
                assert(rs[j] == rp[j]);
            }
        }
    }
}

/// Each rule names an attribute that setting the rules' values gives.
proof fn lemma_attrs_after_present(rs: Seq<AttributeRule>, vs: Seq<Seq<char>>)
    requires
        vs.len() == rs.len(),
    ensures
        rules_present(attrs_after(rs, vs), rs),
    decreases rs.len(),
{
    reveal(rules_present);
    if rs.len() > 0 {
        let rp = rs.drop_last();
        let vp = vs.drop_last();
        lemma_attrs_after_present(rp, vp);
        let prev = attrs_after(rp, vp);
        let last = rs.len() - 1;
        let name = rs[last].name@;
        let v = vs[last];
        let now = attrs_after(rs, vs);
        assert(now == attrs_with_value(prev, name, v));
        let i = lemma_set_value(prev, name, v);
        assert forall|j: int| 0 <= j < rs.len() implies exists|k: int| 0 <= k < now.len()
            && #[trigger] now[k].qualified_name == #[trigger] rs[j].name@ by {
            if j == last {
                assert(now[i].qualified_name == rs[j].name@);
            } else {
                assert(rp[j] == rs[j]);
                let k = choose|k: int| 0 <= k < prev.len() && #[trigger] prev[k].qualified_name == #[trigger] rp[j].name@;
                assert(now[k].qualified_name == prev[k].qualified_name);
            }
        }
    }
}

proof fn lemma_required_rules(rules: Seq<AttributeRule>)
    ensures
        forall|j: int| 0 <= j < required_rules(rules).len() ==> (#[trigger] required_rules(rules)[j]).required
            && exists|m: int| 0 <= m < rules.len() && #[trigger] rules[m] == required_rules(rules)[j],
        forall|m: int| 0 <= m < rules.len() && (#[trigger] rules[m]).required
            ==> exists|j: int| 0 <= j < required_rules(rules).len() && #[trigger] required_rules(rules)[j] == rules[m],
    decreases rules.len(),
{
    if rules.len() > 0 {
        let rp = rules.drop_last();
        lemma_required_rules(rp);
        let r = required_rules(rules);
        let q = required_rules(rp);
        assert forall|j: int| 0 <= j < r.len() implies (#[trigger] r[j]).required
            && exists|m: int| 0 <= m < rules.len() && #[trigger] rules[m] == r[j] by {
            if j < q.len() {
                assert(r[j] == q[j]);
                let m = choose|m: int| 0 <= m < rp.len() && #[trigger] rp[m] == q[j];
                assert(rules[m] == rp[m]);
            } else {
                assert(rules[rules.len() - 1] == r[j]);
            }
        }
        assert forall|m: int| 0 <= m < rules.len() && (#[trigger] rules[m]).required
            implies exists|j: int| 0 <= j < r.len() && #[trigger] r[j] == rules[m] by {
            if m < rp.len() {
                assert(rp[m] == rules[m]);
                let j = choose|j: int| 0 <= j < q.len() && #[trigger] q[j] == rp[m];
                assert(r[j] == q[j]);
            } else {
                assert(r[r.len() - 1] == rules[m]);
            }
        }
    }
}

/// Each attribute set to a default for the required rules of `rules` comes
/// from a required rule, with a value that suits it.
#[verifier::rlimit(50)]
proof fn lemma_default_attributes_required(rules: Seq<AttributeRule>, attrs: Seq<AttributeView>)
    requires
        default_attributes(rules, attrs),
    ensures
        forall|k: int| 0 <= k < attrs.len() ==> exists|m: int| {
            &&& 0 <= m < rules.len()
            &&& (#[trigger] rules[m]).required
            &&& rules[m].name@ == (#[trigger] attrs[k]).qualified_name
            &&& default_value_ok(rules[m], attrs[k].value)
        },
{
    let req = required_rules(rules);
    let vs = choose|vs: Seq<Seq<char>>| values_ok(req, vs) && attrs == attrs_after(req, vs);
    assert forall|i: int| 0 <= i < req.len() implies suits(#[trigger] req[i], vs[i]) by {
        reveal(suits);
    }
    lemma_attrs_after_from_rules(req, vs);
    lemma_required_rules(rules);
    reveal(attributes_from_rules);
    assert forall|k: int| 0 <= k < attrs.len() implies exists|m: int| {
        &&& 0 <= m < rules.len()
        &&& (#[trigger] rules[m]).required
        &&& rules[m].name@ == (#[trigger] attrs[k]).qualified_name
        &&& default_value_ok(rules[m], attrs[k].value)
    } by {
        let j = choose|j: int| 0 <= j < req.len() && #[trigger] req[j].name@ == #[trigger] attrs[k].qualified_name
            && suits(req[j], attrs[k].value);
        assert(req[j].required);
        let m = choose|m: int| 0 <= m < rules.len() && #[trigger] rules[m] == req[j];
        assert(rules[m].required);
        assert(default_value_ok(rules[m], attrs[k].value)) by {
            reveal(suits);
        }
    }
}

/// Each required rule of `rules` names an attribute set to a default for them.
#[verifier::rlimit(50)]
proof fn lemma_default_attributes_present(rules: Seq<AttributeRule>, attrs: Seq<AttributeView>)
    requires
        default_attributes(rules, attrs),
    ensures
        forall|m: int| 0 <= m < rules.len() && (#[trigger] rules[m]).required ==> exists|k: int| {
            &&& 0 <= k < attrs.len()
            &&& (#[trigger] attrs[k]).qualified_name == rules[m].name@
        },
{
    let req = required_rules(rules);
    let vs = choose|vs: Seq<Seq<char>>| values_ok(req, vs) && attrs == attrs_after(req, vs);
    lemma_attrs_after_present(req, vs);
    lemma_required_rules(rules);
    reveal(rules_present);
    assert forall|m: int| 0 <= m < rules.len() && (#[trigger] rules[m]).required implies exists|k: int| {
        &&& 0 <= k < attrs.len()
        &&& (#[trigger] attrs[k]).qualified_name == rules[m].name@
    } by {
        let j = choose|j: int| 0 <= j < req.len() && #[trigger] req[j] == rules[m];
        let k = choose|k: int| 0 <= k < attrs.len() && #[trigger] attrs[k].qualified_name == #[trigger] req[j].name@;
        assert(attrs[k].qualified_name == rules[m].name@);
    }
}

proof fn lemma_skeleton_attributes(catalog: SchemaCatalog, handle: Seq<char>, depth: nat, e: ElementView)
    requires
        skeleton(catalog, handle, depth, e),
    ensures
        rule_of(catalog, handle) is Some,
        default_attributes(rule_of(catalog, handle)->Some_0.attributes@, e.attributes),
{
}

/// A built skeleton element carries exactly the attributes that its
/// declaration requires: each attribute it has is declared as required, with
/// a value that suits that declaration, and every attribute declared as
/// required is there; an optional attribute never appears.
pub proof fn law_skeleton_has_exactly_the_required_attributes(
    catalog: SchemaCatalog,
    handle: Seq<char>,
    depth: nat,
    e: ElementView,
)
    requires
        skeleton(catalog, handle, depth, e),
    ensures
        rule_of(catalog, handle) is Some,
        forall|k: int| 0 <= k < e.attributes.len() ==> exists|m: int| {
            &&& 0 <= m < rule_of(catalog, handle)->Some_0.attributes@.len()
            &&& (#[trigger] rule_of(catalog, handle)->Some_0.attributes@[m]).required
            &&& rule_of(catalog, handle)->Some_0.attributes@[m].name@ == (#[trigger] e.attributes[k]).qualified_name
            &&& default_value_ok(rule_of(catalog, handle)->Some_0.attributes@[m], e.attributes[k].value)
        },
        forall|m: int| 0 <= m < rule_of(catalog, handle)->Some_0.attributes@.len()
            && (#[trigger] rule_of(catalog, handle)->Some_0.attributes@[m]).required ==> exists|k: int| {
            &&& 0 <= k < e.attributes.len()
            &&& (#[trigger] e.attributes[k]).qualified_name == rule_of(catalog, handle)->Some_0.attributes@[m].name@
        },
{
    lemma_skeleton_attributes(catalog, handle, depth, e);
    lemma_default_attributes_required(rule_of(catalog, handle)->Some_0.attributes@, e.attributes);
    lemma_default_attributes_present(rule_of(catalog, handle)->Some_0.attributes@, e.attributes);
}

/// `n` copies of `h`.
pub open spec fn repeat(h: Seq<char>, n: nat) -> Seq<Seq<char>> {
    Seq::new(n, |i: int| h)
}

/// The definitions to build for the children outside choice groups: each
/// `min_occurs` times, in declaration order.
pub open spec fn plain_plan(children: Seq<ChildRule>) -> Seq<Seq<char>>
    decreases children.len(),
{
    if children.len() == 0 {
        Seq::empty()
    } else {
        plain_plan(children.drop_last()) + if children.last().choice_group is None {
            repeat(children.last().definition@, children.last().min_occurs as nat)
        } else {
            Seq::empty()
        }
    }
}

/// Position of the first child rule belonging to the choice group `group`.
pub open spec fn first_in_group(children: Seq<ChildRule>, group: Seq<char>) -> Option<int>
    decreases children.len(),
{
    if children.len() == 0 {
        None
    } else {
        match first_in_group(children.drop_last(), group) {
            Some(i) => Some(i),
            None => if children.last().choice_group matches Some(g) && g@ == group {
                Some(children.len() - 1)
            } else {
                None
            },
        }
    }
}

/// For each choice group, its first alternative, `min_occurs` times.
pub open spec fn groups_plan(children: Seq<ChildRule>, groups: Seq<ChoiceGroup>) -> Seq<Seq<char>>
    decreases groups.len(),
{
    if groups.len() == 0 {
        Seq::empty()
    } else {
        groups_plan(children, groups.drop_last()) + match first_in_group(children, groups.last().handle@) {
            Some(i) => repeat(children[i].definition@, groups.last().min_occurs as nat),
            None => Seq::empty(),
        }
    }
}

/// The recursive wrappers whose one target component is created with them.
pub open spec fn is_recursive_wrapper(name: Seq<char>) -> bool {
    name == "subIdm"@ || name == "subUc"@ || name == "subEr"@ || name == "subInformationUnit"@
        || name == "subBusinessContextMap"@ || name == "subPm"@
}

/// The definitions whose skeletons become the children of a new element of
/// `rule`, in order. A recursive wrapper that would stay empty gets its first
/// declared child.
pub open spec fn build_plan(rule: ElementRule) -> Seq<Seq<char>> {
    let base = plain_plan(rule.children@) + groups_plan(rule.children@, rule.choice_groups@);
    if is_recursive_wrapper(rule.name@) && rule.children@.len() > 0 && base.len() == 0 {
        seq![rule.children@[0].definition@]
    } else {
        base
    }
}

/// The message for a skeleton nested too deeply.
pub open spec fn too_deep_message(handle: Seq<char>) -> Seq<char> {
    "schema skeleton exceeds maximum depth of 1024 at `"@ + handle + "`"@
}

/// The message for a handle without declaration.
pub open spec fn missing_definition_message(handle: Seq<char>) -> Seq<char> {
    "missing schema definition `"@ + handle + "`"@
}

/// The first error met while building the skeleton of `handle` at nesting
/// depth `depth`, if any.
pub open spec fn build_error(catalog: SchemaCatalog, handle: Seq<char>, depth: nat) -> Option<Seq<char>>
    decreases DEFAULT_MAX_XML_DEPTH - depth, 1nat, 0nat,
{
    if depth >= DEFAULT_MAX_XML_DEPTH {
        Some(too_deep_message(handle))
    } else {
        match rule_of(catalog, handle) {
            None => Some(missing_definition_message(handle)),
            Some(rule) => plan_error(catalog, build_plan(rule), depth + 1),
        }
    }
}

/// The first error among the skeletons of `plan`, built in order at `depth`.
pub open spec fn plan_error(catalog: SchemaCatalog, plan: Seq<Seq<char>>, depth: nat) -> Option<Seq<char>>
    decreases DEFAULT_MAX_XML_DEPTH + 1 - depth, 0nat, plan.len(),
{
    if plan.len() == 0 || depth > DEFAULT_MAX_XML_DEPTH {
        None
    } else {
        match plan_error(catalog, plan.drop_last(), depth) {
            Some(m) => Some(m),
            None => build_error(catalog, plan.last(), depth),
        }
    }
}

/// Whether `e` is a skeleton of `handle` built at `depth`: the declared name
/// without namespace, the required attributes with default values, the first
/// enumerated value as text, then a skeleton for each planned child.
pub open spec fn skeleton(catalog: SchemaCatalog, handle: Seq<char>, depth: nat, e: ElementView) -> bool
    decreases DEFAULT_MAX_XML_DEPTH - depth,
{
    if depth >= DEFAULT_MAX_XML_DEPTH {
        false
    } else {
        match rule_of(catalog, handle) {
            None => false,
            Some(rule) => {
                let text: Seq<NodeView> = if rule.enum_values@.len() > 0 {
                    seq![NodeView::Text(rule.enum_values@[0]@)]
                } else {
                    Seq::empty()
                };
                let plan = build_plan(rule);
                &&& e.qualified_name == new_element_view(rule.name@, None).qualified_name
                &&& e.local_name == new_element_view(rule.name@, None).local_name
                &&& e.prefix == new_element_view(rule.name@, None).prefix
                &&& e.namespace is None
                &&& default_attributes(rule.attributes@, e.attributes)
                &&& e.children.len() == text.len() + plan.len()
                &&& e.children.take(text.len() as int) == text
                &&& forall|i: int| 0 <= i < plan.len() ==> {
                    let n = #[trigger] e.children[text.len() + i];
                    &&& n is Element
                    &&& skeleton(catalog, plan[i], depth + 1, n->Element_0)
                }
            },
        }
    }
}

fn is_wrapper_name(name: &str) -> (r: bool)
    ensures
        r == is_recursive_wrapper(name@),
{
    str_eq(name, "subIdm") || str_eq(name, "subUc") || str_eq(name, "subEr") || str_eq(name, "subInformationUnit")
        || str_eq(name, "subBusinessContextMap") || str_eq(name, "subPm")
}

fn push_repeated(plan: &mut Vec<String>, h: &String, n: usize)
    ensures
        strings_view(final(plan)@) == strings_view(old(plan)@) + repeat(h@, n as nat),
{
    let ghost start = strings_view(plan@);
    let mut k: usize = 0;
    while k < n
        invariant
            k <= n,
            strings_view(plan@) == start + repeat(h@, k as nat),
        decreases n - k,
    {
        let ghost before = plan@;
        plan.push(h.clone());
        assert(strings_view(plan@) =~= strings_view(before).push(h@));
        assert(repeat(h@, (k + 1) as nat) =~= repeat(h@, k as nat).push(h@));
        k += 1;
    }
}

/// Position of the first child rule in the choice group `group`.
fn find_in_group(children: &Vec<ChildRule>, group: &String) -> (r: Option<usize>)
    ensures
        r matches Some(i) ==> first_in_group(children@, group@) == Some(i as int) && i < children@.len(),
        r is None ==> first_in_group(children@, group@) is None,
{
    let mut i: usize = 0;
    while i < children.len()
        invariant
            i <= children@.len(),
            first_in_group(children@.take(i as int), group@) is None,
        decreases children@.len() - i,
    {
        assert(children@.take(i + 1).drop_last() =~= children@.take(i as int));
        let member = match &children[i].choice_group {
            Some(g) => str_eq(g.as_str(), group.as_str()),
            None => false,
        };
        if member {
            proof { lemma_first_in_group_prefix(children@, group@, i + 1); }
            return Some(i);
        }
        i += 1;
    }
    assert(children@.take(i as int) =~= children@);
    None
}

proof fn lemma_first_in_group_prefix(children: Seq<ChildRule>, group: Seq<char>, i: int)
    requires
        0 <= i <= children.len(),
        first_in_group(children.take(i), group) is Some,
    ensures
        first_in_group(children, group) == first_in_group(children.take(i), group),
    decreases children.len() - i,
{
    if i < children.len() {
        assert(children.take(i + 1).drop_last() =~= children.take(i));
        lemma_first_in_group_prefix(children, group, i + 1);
    } else {
        assert(children.take(i) =~= children);
    }
}

/// The definitions to build below a new element of `rule`.
fn plan_of(rule: &ElementRule) -> (r: Vec<String>)
    ensures
        strings_view(r@) == build_plan(*rule),
{
    let mut plan: Vec<String> = Vec::new();
    let mut i: usize = 0;
    assert(strings_view(plan@) =~= plain_plan(rule.children@.take(0)));
    while i < rule.children.len()
        invariant
            i <= rule.children@.len(),
            strings_view(plan@) == plain_plan(rule.children@.take(i as int)),
        decreases rule.children@.len() - i,
    {
        assert(rule.children@.take(i + 1).drop_last() =~= rule.children@.take(i as int));
        if rule.children[i].choice_group.is_none() {
            push_repeated(&mut plan, &rule.children[i].definition, rule.children[i].min_occurs);
        } else {
            assert(strings_view(plan@) =~= plain_plan(rule.children@.take(i + 1)));
        }
        i += 1;
    }
    assert(rule.children@.take(i as int) =~= rule.children@);
    let ghost plain = strings_view(plan@);
    let mut g: usize = 0;
    assert(groups_plan(rule.children@, rule.choice_groups@.take(0)) =~= Seq::<Seq<char>>::empty());
    while g < rule.choice_groups.len()
        invariant
            g <= rule.choice_groups@.len(),
            plain == plain_plan(rule.children@),
            strings_view(plan@) == plain + groups_plan(rule.children@, rule.choice_groups@.take(g as int)),
        decreases rule.choice_groups@.len() - g,
    {
        assert(rule.choice_groups@.take(g + 1).drop_last() =~= rule.choice_groups@.take(g as int));
        match find_in_group(&rule.children, &rule.choice_groups[g].handle) {
            Some(k) => {
                push_repeated(&mut plan, &rule.children[k].definition, rule.choice_groups[g].min_occurs);
            },
            None => {},
        }
        assert(strings_view(plan@) =~= plain + groups_plan(rule.children@, rule.choice_groups@.take(g + 1)));
        g += 1;
    }
    assert(rule.choice_groups@.take(g as int) =~= rule.choice_groups@);
    if is_wrapper_name(rule.name.as_str()) && rule.children.len() > 0 && plan.len() == 0 {
        plan.push(rule.children[0].definition.clone());
        assert(strings_view(plan@) =~= seq![rule.children@[0].definition@]);
    }
    plan
}

proof fn lemma_plan_error_persists(catalog: SchemaCatalog, plan: Seq<Seq<char>>, depth: nat, i: int)
    requires
        0 <= i <= plan.len(),
        depth <= DEFAULT_MAX_XML_DEPTH,
        plan_error(catalog, plan.take(i), depth) is Some,
    ensures
        plan_error(catalog, plan, depth) == plan_error(catalog, plan.take(i), depth),
    decreases plan.len() - i,
{
    if i < plan.len() {
        assert(plan.take(i + 1).drop_last() =~= plan.take(i));
        lemma_plan_error_persists(catalog, plan, depth, i + 1);
    } else {
        assert(plan.take(i) =~= plan);
    }
}

/// Builds the skeleton of the declaration `handle` at nesting depth `depth`.
pub(crate) fn build_at(catalog: &SchemaCatalog, handle: &str, depth: usize) -> (r: Result<Element, Error>)
    ensures
        match build_error(*catalog, handle@, depth as nat) {
            Some(m) => r matches Err(e) && e@ == ErrorView::Schema(m),
            None => r matches Ok(e) && skeleton(*catalog, handle@, depth as nat, e@),
        },
    decreases DEFAULT_MAX_XML_DEPTH - depth,
{
    if depth >= DEFAULT_MAX_XML_DEPTH {
        let mut message = concat("schema skeleton exceeds maximum depth of 1024 at `", handle);
        message.append("`");
        return Err(Error::Schema(message));
    }
    let rule = match catalog.element(handle) {
        Some(rule) => rule,
        None => {
            let mut message = concat("missing schema definition `", handle);
            message.append("`");
            return Err(Error::Schema(message));
        },
    };
    let mut element = Element::new(rule.name.as_str(), None);
    let ghost mut values: Seq<Seq<char>> = Seq::empty();
    let mut i: usize = 0;
    assert(required_rules(rule.attributes@.take(0)) =~= Seq::<AttributeRule>::empty());
    while i < rule.attributes.len()
        invariant
            i <= rule.attributes@.len(),
            element@.qualified_name == new_element_view(rule.name@, None).qualified_name,
            element@.local_name == new_element_view(rule.name@, None).local_name,
            element@.prefix == new_element_view(rule.name@, None).prefix,
            element@.namespace is None,
            element@.children.len() == 0,
            values_ok(required_rules(rule.attributes@.take(i as int)), values),
            element@.attributes == attrs_after(required_rules(rule.attributes@.take(i as int)), values),
        decreases rule.attributes@.len() - i,
    {
        assert(rule.attributes@.take(i + 1).drop_last() =~= rule.attributes@.take(i as int));
        assert(rule.attributes@.take(i + 1).last() == rule.attributes@[i as int]);
        if rule.attributes[i].required {
            let value = default_attribute_value(&rule.attributes[i]);
            let ghost before = values;
            element.set_attribute(rule.attributes[i].name.as_str(), value.as_str());
            proof {
                values = values.push(value@);
                let req = required_rules(rule.attributes@.take(i + 1));
                assert(req == required_rules(rule.attributes@.take(i as int)).push(rule.attributes@[i as int]));
                assert(values.drop_last() =~= before);
                assert(req.drop_last() =~= required_rules(rule.attributes@.take(i as int)));
                assert forall|k: int| 0 <= k < req.len() implies default_value_ok(#[trigger] req[k], values[k]) by {
                    if k < req.len() - 1 {
                        assert(req[k] == required_rules(rule.attributes@.take(i as int))[k]);
                    }
                }
            }
        }
        i += 1;
    }
    assert(rule.attributes@.take(i as int) =~= rule.attributes@);
    assert(default_attributes(rule.attributes@, element@.attributes));
    proof { lemma_children_view(element); }
    let ghost text: Seq<NodeView> = if rule.enum_values@.len() > 0 {
        seq![NodeView::Text(rule.enum_values@[0]@)]
    } else {
        Seq::empty()
    };
    if rule.enum_values.len() > 0 {
        let ghost old_children = element.children@;
        let t = Node::Text(rule.enum_values[0].clone());
        proof { lemma_nodes_view_push(old_children, t); }
        element.children.push(t);
        proof { lemma_children_view(element); }
        assert(element@.children =~= text);
    } else {
        assert(element@.children =~= text);
    }
    let plan = plan_of(rule);
    let ghost p = strings_view(plan@);
    let mut j: usize = 0;
    assert(plan_error(*catalog, p.take(0), (depth + 1) as nat) is None);
    while j < plan.len()
        invariant
            j <= plan@.len(),
            p == strings_view(plan@),
            p == build_plan(*rule),
            depth < DEFAULT_MAX_XML_DEPTH,
            rule_of(*catalog, handle@) == Some(*rule),
            element@.qualified_name == new_element_view(rule.name@, None).qualified_name,
            element@.local_name == new_element_view(rule.name@, None).local_name,
            element@.prefix == new_element_view(rule.name@, None).prefix,
            element@.namespace is None,
            default_attributes(rule.attributes@, element@.attributes),
            element@.children.len() == text.len() + j,
            element@.children.take(text.len() as int) == text,
            text == (if rule.enum_values@.len() > 0 {
                seq![NodeView::Text(rule.enum_values@[0]@)]
            } else {
                Seq::<NodeView>::empty()
            }),
            plan_error(*catalog, p.take(j as int), (depth + 1) as nat) is None,
            forall|k: int| 0 <= k < j ==> {
                let n = #[trigger] element@.children[text.len() + k];
                &&& n is Element
                &&& skeleton(*catalog, p[k], (depth + 1) as nat, n->Element_0)
            },
        decreases plan@.len() - j,
    {
        assert(p.take(j + 1).drop_last() =~= p.take(j as int));
        assert(p.take(j + 1).last() == p[j as int]);
        match build_at(catalog, plan[j].as_str(), depth + 1) {
            Ok(child) => {
                proof { lemma_children_view(element); }
                let ghost old_children = element.children@;
                let ghost before = element@;
                let node = Node::Element(child);
                proof { lemma_nodes_view_push(old_children, node); }
                element.children.push(node);
                proof {
                    lemma_children_view(element);
                    assert(element@.children == before.children.push(node@));
                    assert(element@.children.take(text.len() as int) =~= before.children.take(text.len() as int));
                    assert forall|k: int| 0 <= k < j + 1 implies {
                        let n = #[trigger] element@.children[text.len() + k];
                        &&& n is Element
                        &&& skeleton(*catalog, p[k], (depth + 1) as nat, n->Element_0)
                    } by {
                        if k < j {
                            assert(element@.children[text.len() + k] == before.children[text.len() + k]);
                        }
                    }
                }
            },
            Err(e) => {
                proof { lemma_plan_error_persists(*catalog, p, (depth + 1) as nat, j + 1); }
                return Err(e);
            },
        }
        j += 1;
    }
    assert(p.take(j as int) =~= p);
    Ok(element)
}

/// The declaration order of the child named `name` in `rule`.
pub open spec fn order_of(rule: ElementRule, name: Seq<char>) -> Option<int> {
    child_rule_index(rule.children@, name)
}

/// Whether `n` is an element that `rule` declares after position `target`.
pub open spec fn declared_after(n: NodeView, rule: ElementRule, target: int) -> bool {
    n matches NodeView::Element(e) && order_of(rule, e.local_name) matches Some(o) && o > target
}

/// Position of the first child declared after position `target`.
pub open spec fn first_declared_after(s: Seq<NodeView>, rule: ElementRule, target: int) -> Option<int>
    decreases s.len(),
{
    if s.len() == 0 {
        None
    } else {
        match first_declared_after(s.drop_last(), rule, target) {
            Some(i) => Some(i),
            None => if declared_after(s.last(), rule, target) { Some(s.len() - 1) } else { None },
        }
    }
}

/// `children` with `node` inserted before the first child that `rule`
/// declares after it, or appended; nodes other than elements are appended.
pub open spec fn insert_ordered(children: Seq<NodeView>, node: NodeView, rule: ElementRule) -> Seq<NodeView> {
    match node {
        NodeView::Element(e) => {
            let target = match order_of(rule, e.local_name) {
                Some(o) => o,
                None => usize::MAX as int,
            };
            match first_declared_after(children, rule, target) {
                Some(p) => children.insert(p, node),
                None => children.push(node),
            }
        },
        _ => children.push(node),
    }
}

/// The position found lies within the children and holds a child declared
/// after `target`.
pub proof fn lemma_first_declared_after_bound(s: Seq<NodeView>, rule: ElementRule, target: int)
    ensures
        first_declared_after(s, rule, target) matches Some(p) ==> 0 <= p < s.len() && declared_after(s[p], rule, target),
    decreases s.len(),
{
    if s.len() > 0 {
        lemma_first_declared_after_bound(s.drop_last(), rule, target);
        if let Some(p) = first_declared_after(s.drop_last(), rule, target) {
            assert(s.drop_last()[p] == s[p]);
        }
    }
}

proof fn lemma_first_declared_after(s: Seq<NodeView>, rule: ElementRule, target: int, i: int)
    requires
        0 <= i <= s.len(),
        first_declared_after(s.take(i), rule, target) is Some,
    ensures
        first_declared_after(s, rule, target) == first_declared_after(s.take(i), rule, target),
    decreases s.len() - i,
{
    if i < s.len() {
        assert(s.take(i + 1).drop_last() =~= s.take(i));
        lemma_first_declared_after(s, rule, target, i + 1);
    } else {
        assert(s.take(i) =~= s);
    }
}

pub(crate) fn order_position(rule: &ElementRule, name: &str) -> (r: Option<usize>)
    ensures
        r matches Some(o) ==> order_of(*rule, name@) == Some(o as int),
        r is None ==> order_of(*rule, name@) is None,
{
    proof { lemma_child_rule_index(rule.children@, name@); }
    let mut i: usize = 0;
    while i < rule.children.len()
        invariant
            i <= rule.children@.len(),
            forall|j: int| 0 <= j < i ==> rule.children@[j].name@ != name@,
        decreases rule.children@.len() - i,
    {
        if str_eq(rule.children[i].name.as_str(), name) {
            proof { lemma_child_rule_index(rule.children@, name@); }
            return Some(i);
        }
        i += 1;
    }
    None
}

/// Position of the first of `children` that `rule` declares after `target`.
fn first_later_position(children: &Vec<Node>, rule: &ElementRule, target: usize) -> (r: Option<usize>)
    ensures
        r matches Some(p) ==> first_declared_after(nodes_view(children@), *rule, target as int) == Some(p as int)
            && p < children@.len(),
        r is None ==> first_declared_after(nodes_view(children@), *rule, target as int) is None,
{
    let ghost all = nodes_view(children@);
    let mut i: usize = 0;
    while i < children.len()
        invariant
            i <= children@.len(),
            all == nodes_view(children@),
            all.len() == children@.len(),
            first_declared_after(all.take(i as int), *rule, target as int) is None,
        decreases children@.len() - i,
    {
        assert(all.take(i + 1).drop_last() =~= all.take(i as int));
        assert(all.take(i + 1).last() == all[i as int]);
        assert(all[i as int] == children@[i as int]@);
        let later = match &children[i] {
            Node::Element(existing) => match order_position(rule, existing.local_name.as_str()) {
                Some(o) => o > target,
                None => false,
            },
            _ => false,
        };
        if later {
            proof { lemma_first_declared_after(all, *rule, target as int, i + 1); }
            return Some(i);
        }
        i += 1;
    }
    assert(all.take(i as int) =~= all);
    None
}

/// Inserts `node` among the children of `parent` in declaration order.
pub(crate) fn insert_schema_ordered(parent: &mut Element, node: Node, rule: &ElementRule)
    ensures
        final(parent)@ == (ElementView { children: insert_ordered(old(parent)@.children, node@, *rule), ..old(parent)@ }),
{
    proof { lemma_children_view(*parent); }
    let ghost before = parent@;
    let ghost nv = node@;
    let ghost old_children = parent.children@;
    let target: usize = match &node {
        Node::Element(element) => match order_position(rule, element.local_name.as_str()) {
            Some(o) => o,
            None => usize::MAX,
        },
        _ => {
            proof { lemma_nodes_view_push(old_children, node); }
            parent.children.push(node);
            proof {
                lemma_children_view(*parent);
                assert(parent@ =~= (ElementView { children: insert_ordered(before.children, nv, *rule), ..before }));
            }
            return;
        },
    };
    match first_later_position(&parent.children, rule, target) {
        Some(p) => {
            proof { lemma_nodes_view_insert(old_children, p as int, node); }
            parent.children.insert(p, node);
            proof { lemma_children_view(*parent); }
        },
        None => {
            proof { lemma_nodes_view_push(old_children, node); }
            parent.children.push(node);
            proof { lemma_children_view(*parent); }
        },
    }
    assert(parent@ =~= (ElementView { children: insert_ordered(before.children, nv, *rule), ..before }));
}

/// The message for a child that a declaration does not admit.
pub open spec fn not_declared_message(name: Seq<char>, handle: Seq<char>) -> Seq<char> {
    "`"@ + name + "` is not declared below `"@ + handle + "`"@
}

/// The declaration reached from `handle` by following `segments` through the
/// content models.
pub open spec fn handle_walk(catalog: SchemaCatalog, handle: Seq<char>, segments: Seq<SegmentView>) -> Result<Seq<char>, ErrorView>
    decreases segments.len(),
{
    if segments.len() == 0 {
        Ok(handle)
    } else {
        match rule_of(catalog, handle) {
            None => Err(ErrorView::Schema(missing_definition_message(handle))),
            Some(rule) => match child_of_rule(rule, segments[0].name) {
                None => Err(ErrorView::Schema(not_declared_message(segments[0].name, handle))),
                Some(child) => handle_walk(catalog, child.definition@, segments.drop_first()),
            },
        }
    }
}

/// The declaration handle of the element at `path`, or why there is none.
pub open spec fn schema_handle(root: ElementView, catalog: SchemaCatalog, path: Seq<char>) -> Result<Seq<char>, ErrorView> {
    match spec_parse_path(path) {
        None => Err(ErrorView::InvalidPath(path)),
        Some(segments) => if segments[0].name != catalog.root@ {
            Err(ErrorView::Schema("`"@ + path + "` is outside the IDM schema root"@))
        } else {
            match lookup(root, path) {
                Err(e) => Err(e),
                Ok(_) => handle_walk(catalog, catalog.root@, segments.drop_first()),
            }
        },
    }
}

/// Follows `segments[from..]` through the content models from `handle`.
pub(crate) fn walk_handles(catalog: &SchemaCatalog, handle: &str, segments: &Vec<PathSegment>, from: usize) -> (r: Result<String, Error>)
    requires
        from <= segments@.len(),
    ensures
        r matches Ok(h) ==> handle_walk(*catalog, handle@, segments_view(segments@).skip(from as int)) == Ok::<Seq<char>, ErrorView>(h@),
        r matches Err(x) ==> handle_walk(*catalog, handle@, segments_view(segments@).skip(from as int)) == Err::<Seq<char>, ErrorView>(x@),
    decreases segments@.len() - from,
{
    let ghost segs = segments_view(segments@).skip(from as int);
    if from == segments.len() {
        return Ok(owned(handle));
    }
    assert(segs[0] == segments@[from as int]@);
    assert(segs.drop_first() =~= segments_view(segments@).skip(from + 1));
    let rule = match catalog.element(handle) {
        Some(rule) => rule,
        None => {
            let mut message = concat("missing schema definition `", handle);
            message.append("`");
            return Err(Error::Schema(message));
        },
    };
    let child = match rule.child(segments[from].name.as_str()) {
        Some(child) => child,
        None => {
            let mut message = concat("`", segments[from].name.as_str());
            message.append("` is not declared below `");
            message.append(handle);
            message.append("`");
            return Err(Error::Schema(message));
        },
    };
    walk_handles(catalog, child.definition.as_str(), segments, from + 1)
}

} // verus!
