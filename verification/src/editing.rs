//! Schema-aware editing: the declaration behind a path, the children that an
//! editor may add there, and cardinality-checked insertion and removal.
use vstd::prelude::*;
use crate::catalog::{child_of_rule, rule_of, ChildAction, ChildRule, ChoiceGroup, ElementRule, SchemaCatalog};
use crate::document::{
    idm_root_attributes, lemma_document_view, lookup, prefix_namespace, remove_outcome, schema_location_attribute,
    with_attribute, Document, DocumentView, DEFAULT_MAX_XML_BYTES, XSI_NAMESPACE,
};
use crate::model::{lemma_children_view, namespace_attribute, Attribute, Element, ElementView, Error, ErrorView, Node, NodeView};
use crate::path::{child_path, format_path, parse_path, segments_view, spec_child_path, spec_format_path, spec_parse_path};
use crate::schema::{
    build_at, build_error, insert_ordered, insert_schema_ordered, missing_definition_message,
    not_declared_message, schema_handle, skeleton, walk_handles,
};
use crate::text::{concat, owned, push_decimal, spec_decimal, str_eq};
use crate::tree::{count_children_named, elem_at, named_positions, replace_at};

verus! {

/// The declaration handle of the element at `path`.
pub(crate) fn schema_handle_for_path(document: &Document, catalog: &SchemaCatalog, path: &str) -> (r: Result<String, Error>)
    ensures
        r matches Ok(h) ==> schema_handle(document@.root, *catalog, path@) == Ok::<Seq<char>, ErrorView>(h@),
        r matches Err(x) ==> schema_handle(document@.root, *catalog, path@) == Err::<Seq<char>, ErrorView>(x@),
{
    let segments = match parse_path(path) {
        Some(s) => s,
        None => {
            return Err(Error::InvalidPath(owned(path)));
        },
    };
    assert(segments_view(segments@)[0] == segments@[0]@);
    if !str_eq(segments[0].name.as_str(), catalog.root.as_str()) {
        let mut message = concat("`", path);
        message.append("` is outside the IDM schema root");
        return Err(Error::Schema(message));
    }
    let _ = document.element(path)?;
    assert(segments_view(segments@).skip(1) =~= segments_view(segments@).drop_first());
    walk_handles(catalog, catalog.root.as_str(), &segments, 1)
}

/// Whether `a` offers the child of `rule` below `parent`: its declaration,
/// cardinality, how many such children `parent` has and whether one more fits.
pub open spec fn action_for(rule: ChildRule, parent: ElementView, a: ChildAction) -> bool {
    let current = named_positions(parent.children, rule.name@).len();
    &&& a.name@ == rule.name@
    &&& a.definition@ == rule.definition@
    &&& a.label_key@ == rule.label_key@
    &&& a.min_occurs == rule.min_occurs
    &&& a.max_occurs == rule.max_occurs
    &&& a.current == current
    &&& a.can_add == (match rule.max_occurs {
        Some(m) => current < m,
        None => true,
    })
    &&& a.recursive == rule.recursive
}


/// The message for a child that a declaration does not allow.
pub open spec fn not_allowed_message(name: Seq<char>, handle: Seq<char>) -> Seq<char> {
    "`"@ + name + "` is not allowed below `"@ + handle + "`"@
}

/// The message for a child whose maximum count is reached.
pub open spec fn maximum_reached_message(name: Seq<char>, maximum: nat, parent_path: Seq<char>) -> Seq<char> {
    "`"@ + name + "` already reached maximum cardinality "@ + spec_decimal(maximum) + " below `"@
        + parent_path + "`"@
}

/// What adding a child `name` below `parent_path` rests on: the positions of
/// the parent, its declaration, the child's declaration and how many such
/// children the parent has; or the error of the first check that fails.
pub open spec fn schema_child_plan(root: ElementView, catalog: SchemaCatalog, parent_path: Seq<char>, name: Seq<char>) -> Result<(Seq<int>, ElementRule, ChildRule, nat), ErrorView> {
    match schema_handle(root, catalog, parent_path) {
        Err(e) => Err(e),
        Ok(h) => match rule_of(catalog, h) {
            None => Err(ErrorView::Schema(missing_definition_message(h))),
            Some(prule) => match child_of_rule(prule, name) {
                None => Err(ErrorView::Schema(not_allowed_message(name, h))),
                Some(crule) => match lookup(root, parent_path) {
                    Err(e) => Err(e),
                    Ok(pos) => {
                        let current = named_positions(elem_at(root, pos).children, name).len();
                        match crule.max_occurs {
                            Some(m) => if current >= m {
                                Err(ErrorView::Cardinality(maximum_reached_message(name, m as nat, parent_path)))
                            } else {
                                Ok((pos, prule, crule, current))
                            },
                            None => Ok((pos, prule, crule, current)),
                        }
                    },
                },
            },
        },
    }
}


/// Position of the first choice group whose handle is `handle`.
pub open spec fn group_index(groups: Seq<ChoiceGroup>, handle: Seq<char>) -> Option<int>
    decreases groups.len(),
{
    if groups.len() == 0 {
        None
    } else {
        match group_index(groups.drop_last(), handle) {
            Some(i) => Some(i),
            None => if groups.last().handle@ == handle { Some(groups.len() - 1) } else { None },
        }
    }
}

/// How many children of `parent` belong to the choice group `group` of the
/// declared `rules`: the counts of each member's name, added up.
pub open spec fn group_total(rules: Seq<ChildRule>, group: Seq<char>, parent: ElementView) -> nat
    decreases rules.len(),
{
    if rules.len() == 0 {
        0
    } else {
        group_total(rules.drop_last(), group, parent) + if rules.last().choice_group matches Some(g) && g@ == group {
            named_positions(parent.children, rules.last().name@).len()
        } else {
            0nat
        }
    }
}

/// The message for a removal below a child's minimum count.
pub open spec fn minimum_message(name: Seq<char>, minimum: nat, parent_path: Seq<char>) -> Seq<char> {
    "cannot remove `"@ + name + "`: minimum cardinality "@ + spec_decimal(minimum) + " below `"@
        + parent_path + "`"@
}

/// The message for a removal below a choice group's minimum count.
pub open spec fn choice_minimum_message(name: Seq<char>, minimum: nat, parent_path: Seq<char>) -> Seq<char> {
    "cannot remove `"@ + name + "`: choice group minimum cardinality "@ + spec_decimal(minimum)
        + " below `"@ + parent_path + "`"@
}

/// The checks of a removal of `path` up to its choice group: the error of the
/// first that fails, `None` where no choice group is involved, else the
/// parent's declaration, the group's handle, the parent and its path, and the
/// removed child's name.
pub open spec fn removal_prelude(root: ElementView, catalog: SchemaCatalog, path: Seq<char>) -> Result<Option<(ElementRule, Seq<char>, ElementView, Seq<char>, Seq<char>)>, ErrorView> {
    match spec_parse_path(path) {
        None => Err(ErrorView::InvalidPath(path)),
        Some(segments) => if segments.len() <= 1 {
            Err(ErrorView::InvalidPath("the IDM root cannot be removed"@))
        } else {
            let target = segments.last().name;
            let parent_path = spec_format_path(segments.drop_last());
            if parent_path == "/idm"@ && target == "er"@ {
                Err(ErrorView::Cardinality("ISO 29481-3 requires exactly one root exchange requirement"@))
            } else {
                match schema_handle(root, catalog, parent_path) {
                    Err(e) => Err(e),
                    Ok(h) => match rule_of(catalog, h) {
                        None => Err(ErrorView::Schema(missing_definition_message(h))),
                        Some(prule) => match child_of_rule(prule, target) {
                            None => Err(ErrorView::Schema(not_declared_message(target, h))),
                            Some(crule) => match lookup(root, parent_path) {
                                Err(e) => Err(e),
                                Ok(pos) => {
                                    let parent = elem_at(root, pos);
                                    if named_positions(parent.children, target).len() <= crule.min_occurs {
                                        Err(ErrorView::Cardinality(minimum_message(target, crule.min_occurs as nat, parent_path)))
                                    } else {
                                        match crule.choice_group {
                                            None => Ok(None),
                                            Some(g) => Ok(Some((prule, g@, parent, parent_path, target))),
                                        }
                                    }
                                },
                            },
                        },
                    },
                }
            }
        },
    }
}

/// All checks of a removal of `path`: the error of the first that fails.
pub open spec fn removal_check(root: ElementView, catalog: SchemaCatalog, path: Seq<char>) -> Result<(), ErrorView> {
    match removal_prelude(root, catalog, path) {
        Err(e) => Err(e),
        Ok(None) => Ok(()),
        Ok(Some((prule, g, parent, parent_path, target))) => match group_index(prule.choice_groups@, g) {
            None => Ok(()),
            Some(k) => if group_total(prule.children@, g, parent) <= prule.choice_groups@[k].min_occurs {
                Err(ErrorView::Cardinality(choice_minimum_message(target, prule.choice_groups@[k].min_occurs as nat, parent_path)))
            } else {
                Ok(())
            },
        },
    }
}

/// Position of the first choice group whose handle is `handle`.
fn find_group(groups: &Vec<ChoiceGroup>, handle: &str) -> (r: Option<usize>)
    ensures
        r matches Some(k) ==> group_index(groups@, handle@) == Some(k as int) && k < groups@.len(),
        r is None ==> group_index(groups@, handle@) is None,
{
    let mut i: usize = 0;
    while i < groups.len()
        invariant
            i <= groups@.len(),
            group_index(groups@.take(i as int), handle@) is None,
        decreases groups@.len() - i,
    {
        assert(groups@.take(i + 1).drop_last() =~= groups@.take(i as int));
        if str_eq(groups[i].handle.as_str(), handle) {
            proof { lemma_group_index_prefix(groups@, handle@, i + 1); }
            return Some(i);
        }
        i += 1;
    }
    assert(groups@.take(i as int) =~= groups@);
    None
}

proof fn lemma_group_index_prefix(groups: Seq<ChoiceGroup>, handle: Seq<char>, i: int)
    requires
        0 <= i <= groups.len(),
        group_index(groups.take(i), handle) is Some,
    ensures
        group_index(groups, handle) == group_index(groups.take(i), handle),
    decreases groups.len() - i,
{
    if i < groups.len() {
        assert(groups.take(i + 1).drop_last() =~= groups.take(i));
        lemma_group_index_prefix(groups, handle, i + 1);
    } else {
        assert(groups.take(i) =~= groups);
    }
}

/// The number of children of `parent` in the choice group `group`.
pub(crate) fn group_count(rules: &Vec<ChildRule>, group: &str, parent: &Element) -> (r: u128)
    ensures
        r == group_total(rules@, group@, parent@),
{
    let mut total: u128 = 0;
    let mut i: usize = 0;
    while i < rules.len()
        invariant
            i <= rules@.len(),
            total == group_total(rules@.take(i as int), group@, parent@),
            total <= i * 0x1_0000_0000_0000_0000,
        decreases rules@.len() - i,
    {
        assert(rules@.take(i + 1).drop_last() =~= rules@.take(i as int));
        let member = match &rules[i].choice_group {
            Some(g) => str_eq(g.as_str(), group),
            None => false,
        };
        if member {
            let c = count_children_named(parent, rules[i].name.as_str());
            total = total + c as u128;
        }
        i += 1;
    }
    assert(rules@.take(i as int) =~= rules@);
    total
}


/// What setting `fullTitle` and then `idmCode` on `/idm/specId[0]` makes of
/// `root`, or the error of the first setting that fails.
pub open spec fn titled(root: ElementView, full_title: Seq<char>, idm_code: Seq<char>) -> Result<ElementView, ErrorView> {
    let p = "/idm/specId[0]"@;
    match lookup(root, p) {
        Err(e) => Err(e),
        Ok(pos) => {
            let first = replace_at(
                root,
                pos,
                with_attribute(
                    elem_at(root, pos),
                    "fullTitle"@,
                    full_title,
                    prefix_namespace(root, spec_parse_path(p).unwrap(), "fullTitle"@),
                ),
            );
            match lookup(first, p) {
                Err(e) => Err(e),
                Ok(q) => Ok(replace_at(
                    first,
                    q,
                    with_attribute(
                        elem_at(first, q),
                        "idmCode"@,
                        idm_code,
                        prefix_namespace(first, spec_parse_path(p).unwrap(), "idmCode"@),
                    ),
                )),
            }
        },
    }
}

/// Whether `r` is the new document with root `root` once titled, or the
/// error of titling it.
pub open spec fn titled_document(r: Result<Document, Error>, root: ElementView, full_title: Seq<char>, idm_code: Seq<char>) -> bool {
    match titled(root, full_title, idm_code) {
        Ok(t) => r matches Ok(d) && d@ == (DocumentView {
            prolog: Seq::empty(),
            root: t,
            epilog: Seq::empty(),
            max_xml_bytes: DEFAULT_MAX_XML_BYTES as nat,
        }),
        Err(e) => r matches Err(x) && x@ == e,
    }
}

impl Document {
    /// The children that the declaration of the element at `parent_path`
    /// admits, each with its cardinality and current count.
    pub fn allowed_children(&self, catalog: &SchemaCatalog, parent_path: &str) -> (r: Result<Vec<ChildAction>, Error>)
        ensures
            match schema_handle(self@.root, *catalog, parent_path@) {
                Err(e) => r matches Err(x) && x@ == e,
                Ok(h) => match rule_of(*catalog, h) {
                    None => r matches Err(x) && x@ == ErrorView::Schema(missing_definition_message(h)),
                    Some(rule) => r matches Ok(actions) && actions@.len() == rule.children@.len()
                        && (lookup(self@.root, parent_path@) matches Ok(pos)
                        && forall|i: int| 0 <= i < actions@.len() ==> action_for(
                            rule.children@[i],
                            elem_at(self@.root, pos),
                            #[trigger] actions@[i],
                        )),
                },
            },
    {
        let handle = schema_handle_for_path(self, catalog, parent_path)?;
        let rule = match catalog.element(handle.as_str()) {
            Some(rule) => rule,
            None => {
                let mut message = concat("missing schema definition `", handle.as_str());
                message.append("`");
                return Err(Error::Schema(message));
            },
        };
        let parent = self.element(parent_path)?;
        let mut actions: Vec<ChildAction> = Vec::new();
        let mut i: usize = 0;
        while i < rule.children.len()
            invariant
                i <= rule.children@.len(),
                actions@.len() == i,
                forall|k: int| 0 <= k < i ==> action_for(rule.children@[k], parent@, #[trigger] actions@[k]),
            decreases rule.children@.len() - i,
        {
            let c = &rule.children[i];
            let current = count_children_named(parent, c.name.as_str());
            let can_add = match c.max_occurs {
                Some(m) => current < m,
                None => true,
            };
            actions.push(ChildAction {
                name: c.name.clone(),
                definition: c.definition.clone(),
                label_key: c.label_key.clone(),
                min_occurs: c.min_occurs,
                max_occurs: c.max_occurs,
                current,
                can_add,
                recursive: c.recursive,
            });
            i += 1;
        }
        Ok(actions)
    }

    /// Adds a child `name` below `parent_path`, built as the skeleton of its
    /// declaration and placed in declaration order; returns its path.
    pub fn append_schema_child(&mut self, catalog: &SchemaCatalog, parent_path: &str, name: &str) -> (r: Result<String, Error>)
        ensures
            match schema_child_plan(old(self)@.root, *catalog, parent_path@, name@) {
                Err(e) => r matches Err(x) && x@ == e && final(self)@ == old(self)@,
                Ok((pos, prule, crule, current)) => {
                    let depth = spec_parse_path(parent_path@).unwrap().len();
                    match build_error(*catalog, crule.definition@, depth) {
                        Some(m) => r matches Err(x) && x@ == ErrorView::Schema(m) && final(self)@ == old(self)@,
                        None => r matches Ok(p) && p@ == spec_child_path(parent_path@, name@, current)
                            && exists|child: ElementView| #[trigger] skeleton(*catalog, crule.definition@, depth, child)
                                && final(self)@ == (DocumentView {
                                    root: replace_at(
                                        old(self)@.root,
                                        pos,
                                        (ElementView {
                                            children: insert_ordered(
                                                elem_at(old(self)@.root, pos).children,
                                                NodeView::Element(child),
                                                prule,
                                            ),
                                            ..elem_at(old(self)@.root, pos)
                                        }),
                                    ),
                                    ..old(self)@
                                }),
                    }
                },
            },
    {
        let parent_handle = schema_handle_for_path(self, catalog, parent_path)?;
        let parent_rule = match catalog.element(parent_handle.as_str()) {
            Some(rule) => rule,
            None => {
                let mut message = concat("missing schema definition `", parent_handle.as_str());
                message.append("`");
                return Err(Error::Schema(message));
            },
        };
        let child_rule = match parent_rule.child(name) {
            Some(rule) => rule,
            None => {
                let mut message = concat("`", name);
                message.append("` is not allowed below `");
                message.append(parent_handle.as_str());
                message.append("`");
                return Err(Error::Schema(message));
            },
        };
        let current = count_children_named(self.element(parent_path)?, name);
        match child_rule.max_occurs {
            Some(m) => {
                if current >= m {
                    let mut message = concat("`", name);
                    message.append("` already reached maximum cardinality ");
                    push_decimal(&mut message, m);
                    message.append(" below `");
                    message.append(parent_path);
                    message.append("`");
                    return Err(Error::Cardinality(message));
                }
            },
            None => {},
        }
        let depth = match parse_path(parent_path) {
            Some(segments) => segments.len(),
            None => 0,
        };
        let child = build_at(catalog, child_rule.definition.as_str(), depth)?;
        let parent = self.element_mut(parent_path)?;
        insert_schema_ordered(parent, Node::Element(child), parent_rule);
        Ok(child_path(parent_path, name, current))
    }

    /// Whether a removal of `path` that reaches its choice-group check finds
    /// that group declared beside the child; `remove_schema_node` needs it.
    pub fn removal_choice_declared(&self, catalog: &SchemaCatalog, path: &str) -> (r: bool)
        ensures
            r == (removal_prelude(self@.root, *catalog, path@) matches Ok(Some((prule, g, _, _, _)))
                ==> group_index(prule.choice_groups@, g) is Some),
    {
        let segments = match parse_path(path) {
            Some(s) => s,
            None => {
                return true;
            },
        };
        if segments.len() <= 1 {
            return true;
        }
        let n = segments.len() - 1;
        let parent_path = format_path(&segments, n);
        let target = segments[n].name.as_str();
        proof {
            let segs = segments_view(segments@);
            assert(segs.last() == segments@[n as int]@);
            assert(segs.drop_last() =~= segments_view(segments@.take(n as int)));
        }
        if str_eq(parent_path.as_str(), "/idm") && str_eq(target, "er") {
            return true;
        }
        let parent_handle = match schema_handle_for_path(self, catalog, parent_path.as_str()) {
            Ok(h) => h,
            Err(_) => {
                return true;
            },
        };
        let parent_rule = match catalog.element(parent_handle.as_str()) {
            Some(rule) => rule,
            None => {
                return true;
            },
        };
        let child_rule = match parent_rule.child(target) {
            Some(rule) => rule,
            None => {
                return true;
            },
        };
        let parent = match self.element(parent_path.as_str()) {
            Ok(p) => p,
            Err(_) => {
                return true;
            },
        };
        if count_children_named(parent, target) <= child_rule.min_occurs {
            return true;
        }
        match &child_rule.choice_group {
            Some(g) => find_group(&parent_rule.choice_groups, g.as_str()).is_some(),
            None => true,
        }
    }

    /// Removes the element at `path` where its declaration, its choice group
    /// and the standard's one root exchange requirement permit.
    pub fn remove_schema_node(&mut self, catalog: &SchemaCatalog, path: &str) -> (r: Result<(), Error>)
        requires
            removal_prelude(old(self)@.root, *catalog, path@) matches Ok(Some((prule, g, _, _, _)))
                ==> group_index(prule.choice_groups@, g) is Some,
        ensures
            match removal_check(old(self)@.root, *catalog, path@) {
                Err(e) => r matches Err(x) && x@ == e && final(self)@ == old(self)@,
                Ok(()) => match remove_outcome(old(self)@.root, path@) {
                    Ok(root) => r is Ok && final(self)@ == (DocumentView { root, ..old(self)@ }),
                    Err(e) => r matches Err(x) && x@ == e && final(self)@ == old(self)@,
                },
            },
    {
        let segments = match parse_path(path) {
            Some(s) => s,
            None => {
                return Err(Error::InvalidPath(owned(path)));
            },
        };
        if segments.len() <= 1 {
            return Err(Error::InvalidPath(owned("the IDM root cannot be removed")));
        }
        let n = segments.len() - 1;
        let parent_path = format_path(&segments, n);
        let target = segments[n].name.as_str();
        proof {
            let segs = segments_view(segments@);
            assert(segs.last() == segments@[n as int]@);
            assert(segs.drop_last() =~= segments_view(segments@.take(n as int)));
        }
        if str_eq(parent_path.as_str(), "/idm") && str_eq(target, "er") {
            return Err(Error::Cardinality(owned("ISO 29481-3 requires exactly one root exchange requirement")));
        }
        let parent_handle = schema_handle_for_path(self, catalog, parent_path.as_str())?;
        let parent_rule = match catalog.element(parent_handle.as_str()) {
            Some(rule) => rule,
            None => {
                let mut message = concat("missing schema definition `", parent_handle.as_str());
                message.append("`");
                return Err(Error::Schema(message));
            },
        };
        let child_rule = match parent_rule.child(target) {
            Some(rule) => rule,
            None => {
                let mut message = concat("`", target);
                message.append("` is not declared below `");
                message.append(parent_handle.as_str());
                message.append("`");
                return Err(Error::Schema(message));
            },
        };
        let parent = self.element(parent_path.as_str())?;
        let current = count_children_named(parent, target);
        if current <= child_rule.min_occurs {
            let mut message = concat("cannot remove `", target);
            message.append("`: minimum cardinality ");
            push_decimal(&mut message, child_rule.min_occurs);
            message.append(" below `");
            message.append(parent_path.as_str());
            message.append("`");
            return Err(Error::Cardinality(message));
        }
        match &child_rule.choice_group {
            Some(g) => {
                let k = match find_group(&parent_rule.choice_groups, g.as_str()) {
                    Some(k) => k,
                    None => {
                        return self.remove(path);
                    },
                };
                let minimum = parent_rule.choice_groups[k].min_occurs;
                if group_count(&parent_rule.children, g.as_str(), parent) <= minimum as u128 {
                    let mut message = concat("cannot remove `", target);
                    message.append("`: choice group minimum cardinality ");
                    push_decimal(&mut message, minimum);
                    message.append(" below `");
                    message.append(parent_path.as_str());
                    message.append("`");
                    return Err(Error::Cardinality(message));
                }
            },
            None => {},
        }
        self.remove(path)
    }

    /// A complete, schema-ordered IDM skeleton titled `full_title` with the
    /// code `idm_code`. The standard gives an IDM one exchange requirement,
    /// so one is added where the root's declaration does not create it.
    pub fn new_idm(catalog: &SchemaCatalog, full_title: &str, idm_code: &str) -> (r: Result<Document, Error>)
        ensures
            match build_error(*catalog, "idm"@, 0) {
                Some(m) => r matches Err(x) && x@ == ErrorView::Schema(m),
                None => exists|base: ElementView| #[trigger] skeleton(*catalog, "idm"@, 0, base) && {
                    let root = (ElementView { attributes: base.attributes + idm_root_attributes(), ..base });
                    if named_positions(base.children, "er"@).len() == 0 {
                        match build_error(*catalog, "er"@, 1) {
                            Some(m) => r matches Err(x) && x@ == ErrorView::Schema(m),
                            None => exists|er: ElementView| #[trigger] skeleton(*catalog, "er"@, 1, er)
                                && titled_document(
                                    r,
                                    (ElementView {
                                        children: insert_ordered(
                                            root.children,
                                            NodeView::Element(er),
                                            rule_of(*catalog, "idm"@).unwrap(),
                                        ),
                                        ..root
                                    }),
                                    full_title@,
                                    idm_code@,
                                ),
                        }
                    } else {
                        titled_document(r, root, full_title@, idm_code@)
                    }
                },
            },
    {
        let mut root = build_at(catalog, "idm", 0)?;
        let ghost base = root@;
        proof { lemma_children_view(root); }
        let ghost before = root.attributes@;
        root.attributes.push(namespace_attribute("xmlns:xsi", XSI_NAMESPACE));
        root.attributes.push(schema_location_attribute());
        proof {
            lemma_children_view(root);
            assert(root.attributes@.map_values(|a: Attribute| a@) =~= base.attributes + idm_root_attributes());
            assert(root@ =~= (ElementView { attributes: base.attributes + idm_root_attributes(), ..base }));
        }
        if count_children_named(&root, "er") == 0 {
            let er = build_at(catalog, "er", 1)?;
            let rule = match catalog.element("idm") {
                Some(rule) => rule,
                None => {
                    return Err(Error::Schema(owned("missing schema definition `idm`")));
                },
            };
            insert_schema_ordered(&mut root, Node::Element(er), rule);
        }
        let mut document = Document { prolog: Vec::new(), root, epilog: Vec::new(), max_xml_bytes: DEFAULT_MAX_XML_BYTES };
        proof {
            lemma_document_view(document);
            assert(document@.prolog =~= Seq::<NodeView>::empty());
            assert(document@.epilog =~= Seq::<NodeView>::empty());
        }
        document.set_attribute("/idm/specId[0]", "fullTitle", full_title)?;
        document.set_attribute("/idm/specId[0]", "idmCode", idm_code)?;
        Ok(document)
    }
}

} // verus!
