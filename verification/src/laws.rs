//! Properties that relate the library's operations to one another, proved
//! over the same specifications that the operations' contracts use.
use vstd::prelude::*;
use crate::catalog::{child_rule_index, rule_of, ChildAction, SchemaCatalog};
use crate::document::{attribute_value, declared_namespace, lookup, namespace_along, moved_children, text_content, with_attribute, with_text, without_text};
use crate::editing::{action_for, schema_child_plan};
use crate::model::{
    attr_by_qname, attrs_with_value, lemma_attr_by_qname, new_element_view, AttributeView, ElementView, ErrorView, NodeView,
};
use crate::path::{spec_parse_path, SegmentView};
use crate::text::{first_index_of, spec_split_qname};
use crate::schema::{first_declared_after, insert_ordered, order_of, schema_handle, skeleton};
use crate::tree::{child_of, elem_at, is_element_named, locate, named_positions, replace_at};
use crate::walk::{children_count, tree_count, walk_children, walk_paths};

verus! {

/// Replacing one element by another of the same local name leaves the
/// positions of the same-name siblings unchanged.
proof fn lemma_named_positions_update(s: Seq<NodeView>, p: int, n: NodeView, name: Seq<char>)
    requires
        0 <= p < s.len(),
        is_element_named(s[p], name) == is_element_named(n, name),
    ensures
        named_positions(s.update(p, n), name) == named_positions(s, name),
    decreases s.len(),
{
    let t = s.update(p, n);
    if p == s.len() - 1 {
        assert(t.drop_last() =~= s.drop_last());
    } else {
        assert(t.drop_last() =~= s.drop_last().update(p, n));
        lemma_named_positions_update(s.drop_last(), p, n, name);
    }
}

/// Replacing an element below `e` keeps the local name of `e`.
proof fn lemma_replace_keeps_name(e: ElementView, pos: Seq<int>, new: ElementView)
    requires
        pos.len() > 0,
    ensures
        replace_at(e, pos, new).local_name == e.local_name,
{
}

/// Replacing the element that `segments` locate below `e` by one of the same
/// local name: the segments locate the same positions, which now hold the new
/// element.
proof fn lemma_locate_replace(e: ElementView, segments: Seq<SegmentView>, pos: Seq<int>, new: ElementView)
    requires
        locate(e, segments) == Some(pos),
        new.local_name == elem_at(e, pos).local_name,
    ensures
        locate(replace_at(e, pos, new), segments) == Some(pos),
        elem_at(replace_at(e, pos, new), pos) == new,
    decreases segments.len(),
{
    if segments.len() > 0 {
        let ps = named_positions(e.children, segments[0].name);
        let p = ps[segments[0].index as int];
        let rest = locate(child_of(e, p), segments.drop_first()).unwrap();
        assert(pos == seq![p] + rest);
        assert(pos[0] == p);
        assert(pos.drop_first() =~= rest);
        crate::tree::lemma_named_positions(e.children, segments[0].name);
        let child = child_of(e, p);
        lemma_locate_replace(child, segments.drop_first(), rest, new);
        let replaced = replace_at(child, rest, new);
        if rest.len() > 0 {
            lemma_replace_keeps_name(child, rest, new);
        }
        assert(replaced.local_name == child.local_name);
        let after = replace_at(e, pos, new);
        assert(after.children == e.children.update(p, NodeView::Element(replaced)));
        assert(is_element_named(e.children[p], segments[0].name));
        assert forall|x: Seq<char>| #[trigger] is_element_named(e.children[p], x) == is_element_named(NodeView::Element(replaced), x) by {}
        lemma_named_positions_update(e.children, p, NodeView::Element(replaced), segments[0].name);
        assert(child_of(after, p) == replaced);
    }
}

/// A path that resolves keeps resolving to the same positions once the
/// element there is replaced by one of the same local name, and then reaches
/// the new element.
pub proof fn lemma_lookup_replace(root: ElementView, path: Seq<char>, new: ElementView)
    requires
        lookup(root, path) is Ok,
        new.local_name == elem_at(root, lookup(root, path)->Ok_0).local_name,
    ensures
        lookup(replace_at(root, lookup(root, path)->Ok_0, new), path) == lookup(root, path),
        elem_at(replace_at(root, lookup(root, path)->Ok_0, new), lookup(root, path)->Ok_0) == new,
{
    let pos = lookup(root, path)->Ok_0;
    let segments = spec_parse_path(path).unwrap();
    lemma_locate_replace(root, segments.drop_first(), pos, new);
    if pos.len() > 0 {
        lemma_replace_keeps_name(root, pos, new);
    }
}

proof fn lemma_text_content_concat(a: Seq<NodeView>, b: Seq<NodeView>)
    ensures
        text_content(a + b) == text_content(a) + text_content(b),
    decreases b.len(),
{
    if b.len() == 0 {
        assert(a + b =~= a);
    } else {
        assert((a + b).drop_last() =~= a + b.drop_last());
        lemma_text_content_concat(a, b.drop_last());
    }
}

proof fn lemma_text_content_without_text(s: Seq<NodeView>)
    ensures
        text_content(without_text(s)) == Seq::<char>::empty(),
    decreases s.len(),
{
    if s.len() > 0 {
        lemma_text_content_without_text(s.drop_last());
        let tail: Seq<NodeView> = match s.last() {
            NodeView::Text(_) => Seq::empty(),
            NodeView::Reference { .. } => Seq::empty(),
            NodeView::CData(_) => Seq::empty(),
            n => seq![n],
        };
        assert(without_text(s) == without_text(s.drop_last()) + tail);
        lemma_text_content_concat(without_text(s.drop_last()), tail);
        if tail.len() == 1 {
            assert(tail.drop_last() =~= Seq::<NodeView>::empty());
            assert(text_content(tail.drop_last()) == Seq::<char>::empty());
            assert(text_content(tail) =~= Seq::<char>::empty());
        } else {
            assert(tail =~= Seq::<NodeView>::empty());
        }
        assert(text_content(without_text(s)) =~= Seq::<char>::empty());
    }
}

/// After `set_text(path, value)` succeeds, `text(path)` reads `value`: the
/// path still reaches the element, whose text, references and CDATA are now `value`
/// alone.
pub proof fn law_set_text_then_text(root: ElementView, path: Seq<char>, value: Seq<char>)
    requires
        lookup(root, path) is Ok,
    ensures
        ({
            let pos = lookup(root, path)->Ok_0;
            let after = replace_at(root, pos, with_text(elem_at(root, pos), value));
            &&& lookup(after, path) == lookup(root, path)
            &&& text_content(elem_at(after, pos).children) == value
        }),
{
    let pos = lookup(root, path)->Ok_0;
    let e = elem_at(root, pos);
    lemma_lookup_replace(root, path, with_text(e, value));
    let head = seq![NodeView::Text(value)];
    lemma_text_content_concat(head, without_text(e.children));
    lemma_text_content_without_text(e.children);
    assert(head.drop_last() =~= Seq::<NodeView>::empty());
    assert(text_content(head.drop_last()) == Seq::<char>::empty());
    assert(head.last() == NodeView::Text(value));
    assert(text_content(head) =~= value);
}

/// Two attribute lists with the same qualified names, position by position,
/// find the same first attribute of any name.
proof fn lemma_attr_by_qname_same_names(a: Seq<AttributeView>, b: Seq<AttributeView>, name: Seq<char>)
    requires
        a.len() == b.len(),
        forall|i: int| 0 <= i < a.len() ==> a[i].qualified_name == b[i].qualified_name,
    ensures
        attr_by_qname(a, name) == attr_by_qname(b, name),
    decreases a.len(),
{
    if a.len() > 0 {
        lemma_attr_by_qname_same_names(a.drop_last(), b.drop_last(), name);
    }
}

/// After `set_attribute(path, name, value)` succeeds, `attribute(path, name)`
/// reads `value`, whatever namespace the attribute took.
pub proof fn law_set_attribute_then_attribute(
    root: ElementView,
    path: Seq<char>,
    name: Seq<char>,
    value: Seq<char>,
    namespace: Option<Seq<char>>,
)
    requires
        lookup(root, path) is Ok,
    ensures
        ({
            let pos = lookup(root, path)->Ok_0;
            let after = replace_at(root, pos, with_attribute(elem_at(root, pos), name, value, namespace));
            &&& lookup(after, path) == lookup(root, path)
            &&& attribute_value(elem_at(after, pos), name) == Some(value)
        }),
{
    let pos = lookup(root, path)->Ok_0;
    let e = elem_at(root, pos);
    lemma_lookup_replace(root, path, with_attribute(e, name, value, namespace));
    let attrs = attrs_with_value(e.attributes, name, value);
    crate::model::lemma_attrs_with_value_found(e.attributes, name, value);
    lemma_attr_by_qname(e.attributes, name);
    lemma_attr_by_qname(attrs, name);
    let i = attr_by_qname(attrs, name).unwrap();
    let updated = attrs.update(i, AttributeView { namespace, ..attrs[i] });
    lemma_attr_by_qname_same_names(attrs, updated, name);
    match attr_by_qname(e.attributes, name) {
        Some(j) => {
            assert(attrs[j].value == value);
            assert(i == j);
        },
        None => {
            assert(attrs[e.attributes.len() as int].value == value);
        },
    }
}

proof fn lemma_count_paths(e: ElementView, path: Seq<char>, name: Seq<char>)
    ensures
        tree_count(e, name) == walk_paths(e, path, false, name).len(),
    decreases e, 0int,
{
    lemma_count_paths_children(e.children, path, name, e.children.len() as int);
}

proof fn lemma_count_paths_children(s: Seq<NodeView>, path: Seq<char>, name: Seq<char>, upto: int)
    ensures
        children_count(s, name, upto) == walk_children(s, path, false, name, upto).len(),
    decreases s, upto,
{
    if 0 < upto <= s.len() {
        lemma_count_paths_children(s, path, name, upto - 1);
        match s[upto - 1] {
            NodeView::Element(c) => {
                lemma_count_paths(
                    c,
                    crate::path::spec_child_path(path, c.local_name, named_positions(s.take(upto - 1), c.local_name).len()),
                    name,
                );
            },
            _ => {},
        }
    }
}

/// `count(name)` and `element_paths(name)` agree: as many elements bear the
/// name as there are paths listed for it.
pub proof fn law_count_matches_element_paths(root: ElementView, name: Seq<char>)
    ensures
        tree_count(root, name) == walk_paths(root, "/idm"@, false, name).len(),
{
    lemma_count_paths(root, "/idm"@, name);
}

/// Moving a child changes nothing but its place: it lands where the move
/// reports, and the other children keep their order.
pub proof fn law_move_keeps_other_children(s: Seq<NodeView>, source: int, target: int, after: bool)
    requires
        0 <= source < s.len(),
        0 <= target < s.len(),
    ensures
        ({
            let (children, landed) = moved_children(s, source, target, after);
            &&& children.len() == s.len()
            &&& 0 <= landed < children.len()
            &&& children[landed] == s[source]
            &&& children.remove(landed) == s.remove(source)
        }),
{
    let (children, landed) = moved_children(s, source, target, after);
    assert(children.remove(landed) =~= s.remove(source));
}

/// What `allowed_children` offers agrees with what `append_schema_child`
/// permits: a child action can be added exactly when appending that child
/// passes its checks, provided the declaration names that child once.
pub proof fn law_can_add_matches_append(root: ElementView, catalog: SchemaCatalog, parent_path: Seq<char>, i: int, action: ChildAction)
    requires
        schema_handle(root, catalog, parent_path) is Ok,
        rule_of(catalog, schema_handle(root, catalog, parent_path)->Ok_0) is Some,
        lookup(root, parent_path) is Ok,
        ({
            let rule = rule_of(catalog, schema_handle(root, catalog, parent_path)->Ok_0).unwrap();
            &&& 0 <= i < rule.children@.len()
            &&& child_rule_index(rule.children@, rule.children@[i].name@) == Some(i)
            &&& action_for(rule.children@[i], elem_at(root, lookup(root, parent_path)->Ok_0), action)
        }),
    ensures
        action.can_add <==> schema_child_plan(root, catalog, parent_path, action.name@) is Ok,
        !action.can_add ==> schema_child_plan(root, catalog, parent_path, action.name@) matches Err(ErrorView::Cardinality(_)),
{
}


/// Whether `a` is a prefix of `b`: the element at `a` contains the one at `b`
/// or is it.
pub open spec fn is_prefix(a: Seq<int>, b: Seq<int>) -> bool {
    a.len() <= b.len() && b.take(a.len() as int) == a
}

/// Replacing the element at `pos` leaves an unrelated element, neither inside
/// it nor containing it, where it was.
proof fn lemma_locate_other(e: ElementView, segments: Seq<SegmentView>, q: Seq<int>, pos: Seq<int>, new: ElementView)
    requires
        locate(e, segments) == Some(q),
        crate::tree::valid_positions(e, pos),
        new.local_name == elem_at(e, pos).local_name,
        !is_prefix(pos, q),
        !is_prefix(q, pos),
    ensures
        locate(replace_at(e, pos, new), segments) == Some(q),
        elem_at(replace_at(e, pos, new), q) == elem_at(e, q),
    decreases segments.len(),
{
    assert(pos.len() > 0) by {
        if pos.len() == 0 {
            assert(q.take(0) =~= pos);
        }
    }
    assert(segments.len() > 0) by {
        if segments.len() == 0 {
            assert(q == Seq::<int>::empty());
            assert(pos.take(0) =~= q);
        }
    }
    let ps = named_positions(e.children, segments[0].name);
    let q0 = ps[segments[0].index as int];
    let rest = locate(child_of(e, q0), segments.drop_first()).unwrap();
    assert(q == seq![q0] + rest);
    assert(q[0] == q0);
    assert(q.drop_first() =~= rest);
    crate::tree::lemma_named_positions(e.children, segments[0].name);
    let p0 = pos[0];
    let prest = pos.drop_first();
    let child = child_of(e, p0);
    let replaced = replace_at(child, prest, new);
    assert(e.children[p0] == NodeView::Element(child));
    assert(elem_at(e, pos) == elem_at(child, prest));
    if prest.len() > 0 {
        lemma_replace_keeps_name(child, prest, new);
    }
    assert(replaced.local_name == child.local_name);
    let after = replace_at(e, pos, new);
    assert(after.children == e.children.update(p0, NodeView::Element(replaced)));
    assert forall|x: Seq<char>| #[trigger] is_element_named(e.children[p0], x) == is_element_named(NodeView::Element(replaced), x) by {}
    lemma_named_positions_update(e.children, p0, NodeView::Element(replaced), segments[0].name);
    if q0 != p0 {
        assert(child_of(after, q0) == child_of(e, q0));
        assert(elem_at(after, q) == elem_at(child_of(after, q0), rest));
    } else {
        assert(child_of(after, q0) == replaced);
        assert(!is_prefix(prest, rest)) by {
            if is_prefix(prest, rest) {
                assert forall|i: int| 0 <= i < pos.len() implies q.take(pos.len() as int)[i] == pos[i] by {
                    if i > 0 {
                        assert(rest.take(prest.len() as int)[i - 1] == prest[i - 1]);
                    }
                }
                assert(q.take(pos.len() as int) =~= pos);
            }
        }
        assert(!is_prefix(rest, prest)) by {
            if is_prefix(rest, prest) {
                assert forall|i: int| 0 <= i < q.len() implies pos.take(q.len() as int)[i] == q[i] by {
                    if i > 0 {
                        assert(prest.take(rest.len() as int)[i - 1] == rest[i - 1]);
                    }
                }
                assert(pos.take(q.len() as int) =~= q);
            }
        }
        lemma_locate_other(child, segments.drop_first(), rest, prest, new);
        assert(elem_at(after, q) == elem_at(replaced, rest));
    }
}

/// Edits are local: setting the text or an attribute of one element, or
/// replacing it by another of the same local name, leaves every element that
/// neither contains it nor lies inside it at the same path and unchanged.
pub proof fn law_edits_are_local(root: ElementView, edited: Seq<char>, other: Seq<char>, new: ElementView)
    requires
        lookup(root, edited) is Ok,
        lookup(root, other) is Ok,
        new.local_name == elem_at(root, lookup(root, edited)->Ok_0).local_name,
        !is_prefix(lookup(root, edited)->Ok_0, lookup(root, other)->Ok_0),
        !is_prefix(lookup(root, other)->Ok_0, lookup(root, edited)->Ok_0),
    ensures
        ({
            let after = replace_at(root, lookup(root, edited)->Ok_0, new);
            &&& lookup(after, other) == lookup(root, other)
            &&& elem_at(after, lookup(root, other)->Ok_0) == elem_at(root, lookup(root, other)->Ok_0)
        }),
{
    let pos = lookup(root, edited)->Ok_0;
    let q = lookup(root, other)->Ok_0;
    let esegs = spec_parse_path(edited).unwrap();
    let osegs = spec_parse_path(other).unwrap();
    crate::tree::lemma_locate_valid(root, esegs.drop_first());
    lemma_locate_other(root, osegs.drop_first(), q, pos, new);
    assert(pos.len() > 0) by {
        if pos.len() == 0 {
            assert(q.take(0) =~= pos);
        }
    }
    lemma_replace_keeps_name(root, pos, new);
}


proof fn lemma_named_count_insert(s: Seq<NodeView>, p: int, n: NodeView, name: Seq<char>)
    requires
        0 <= p <= s.len(),
    ensures
        named_positions(s.insert(p, n), name).len() == named_positions(s, name).len()
            + if is_element_named(n, name) { 1int } else { 0int },
    decreases s.len(),
{
    let t = s.insert(p, n);
    if p == s.len() {
        assert(t.drop_last() =~= s);
    } else {
        assert(t.drop_last() =~= s.drop_last().insert(p, n));
        assert(t.last() == s.last());
        lemma_named_count_insert(s.drop_last(), p, n, name);
    }
}

/// Appending a schema child adds exactly one child of that name below the
/// parent, which stays within the declared maximum, provided the child's
/// declaration bears the child's name.
pub proof fn law_append_schema_child_adds_one(
    root: ElementView,
    catalog: SchemaCatalog,
    parent_path: Seq<char>,
    name: Seq<char>,
    child: ElementView,
)
    requires
        schema_child_plan(root, catalog, parent_path, name) is Ok,
        ({
            let (pos, prule, crule, current) = schema_child_plan(root, catalog, parent_path, name)->Ok_0;
            &&& skeleton(catalog, crule.definition@, spec_parse_path(parent_path).unwrap().len(), child)
            &&& rule_of(catalog, crule.definition@) matches Some(r) && r.name@ == name
            &&& first_index_of(name, ':') is None
        }),
    ensures
        ({
            let (pos, prule, crule, current) = schema_child_plan(root, catalog, parent_path, name)->Ok_0;
            let parent = elem_at(root, pos);
            let children = insert_ordered(parent.children, NodeView::Element(child), prule);
            &&& named_positions(children, name).len() == current + 1
            &&& crule.max_occurs matches Some(m) ==> current + 1 <= m
        }),
{
    let (pos, prule, crule, current) = schema_child_plan(root, catalog, parent_path, name)->Ok_0;
    let parent = elem_at(root, pos);
    let depth = spec_parse_path(parent_path).unwrap().len();
    let r = rule_of(catalog, crule.definition@).unwrap();
    assert(depth < crate::document::DEFAULT_MAX_XML_DEPTH);
    assert(child.local_name == new_element_view(r.name@, None).local_name);
    assert(spec_split_qname(name).1 == name);
    assert(is_element_named(NodeView::Element(child), name));
    let n = NodeView::Element(child);
    let target = match order_of(prule, child.local_name) {
        Some(o) => o,
        None => usize::MAX as int,
    };
    match first_declared_after(parent.children, prule, target) {
        Some(p) => {
            crate::schema::lemma_first_declared_after_bound(parent.children, prule, target);
            lemma_named_count_insert(parent.children, p, n, name);
        },
        None => {
            assert(parent.children.push(n) =~= parent.children.insert(parent.children.len() as int, n));
            lemma_named_count_insert(parent.children, parent.children.len() as int, n, name);
        },
    }
}

/// Every element of the tree rooted at `e`, which sits at `path`, with its
/// path, in pre-order; a child's path adds `/{name}[{index}]`, its index
/// counting the earlier element siblings of the same local name.
pub open spec fn element_entries(e: ElementView, path: Seq<char>) -> Seq<(Seq<char>, ElementView)>
    decreases e, 0int,
{
    seq![(path, e)] + children_entries(e.children, path, e.children.len() as int)
}

/// `element_entries` over the first `upto` children of an element at `path`.
pub open spec fn children_entries(s: Seq<NodeView>, path: Seq<char>, upto: int) -> Seq<(Seq<char>, ElementView)>
    decreases s, upto,
{
    if upto <= 0 || upto > s.len() {
        Seq::empty()
    } else {
        children_entries(s, path, upto - 1) + match s[upto - 1] {
            NodeView::Element(c) => element_entries(
                c,
                crate::path::spec_child_path(path, c.local_name, named_positions(s.take(upto - 1), c.local_name).len()),
            ),
            _ => Seq::empty(),
        }
    }
}

/// The entries whose element has the local name `name`, whatever its prefix.
pub open spec fn entries_named(entries: Seq<(Seq<char>, ElementView)>, name: Seq<char>) -> Seq<(Seq<char>, ElementView)> {
    entries.filter(|x: (Seq<char>, ElementView)| x.1.local_name == name)
}

/// The paths of entries.
pub open spec fn entry_paths(entries: Seq<(Seq<char>, ElementView)>) -> Seq<Seq<char>> {
    entries.map_values(|x: (Seq<char>, ElementView)| x.0)
}

proof fn lemma_filter_one<A>(x: A, p: spec_fn(A) -> bool)
    ensures
        seq![x].filter(p) == (if p(x) { seq![x] } else { Seq::<A>::empty() }),
{
    reveal_with_fuel(Seq::filter, 2);
    assert(seq![x].drop_last() =~= Seq::<A>::empty());
    assert(seq![x].last() == x);
    if p(x) {
        assert(Seq::<A>::empty().push(x) =~= seq![x]);
    }
}

proof fn lemma_entries_add(a: Seq<(Seq<char>, ElementView)>, b: Seq<(Seq<char>, ElementView)>, name: Seq<char>)
    ensures
        entries_named(a + b, name) == entries_named(a, name) + entries_named(b, name),
        entry_paths(entries_named(a + b, name)) == entry_paths(entries_named(a, name)) + entry_paths(entries_named(b, name)),
{
    Seq::filter_distributes_over_add(a, b, |x: (Seq<char>, ElementView)| x.1.local_name == name);
    let fa = entries_named(a, name);
    let fb = entries_named(b, name);
    assert(entry_paths(fa + fb) =~= entry_paths(fa) + entry_paths(fb));
}

proof fn lemma_walk_is_entries_named(e: ElementView, path: Seq<char>, name: Seq<char>)
    ensures
        walk_paths(e, path, false, name) == entry_paths(entries_named(element_entries(e, path), name)),
        tree_count(e, name) == entries_named(element_entries(e, path), name).len(),
    decreases e, 0int,
{
    lemma_walk_children_is_entries_named(e.children, path, name, e.children.len() as int);
    let head = seq![(path, e)];
    let rest = children_entries(e.children, path, e.children.len() as int);
    lemma_entries_add(head, rest, name);
    lemma_filter_one((path, e), |x: (Seq<char>, ElementView)| x.1.local_name == name);
    if e.local_name == name {
        assert(entry_paths(entries_named(head, name)) =~= seq![path]);
    } else {
        assert(entry_paths(entries_named(head, name)) =~= Seq::<Seq<char>>::empty());
    }
}

proof fn lemma_walk_children_is_entries_named(s: Seq<NodeView>, path: Seq<char>, name: Seq<char>, upto: int)
    ensures
        walk_children(s, path, false, name, upto) == entry_paths(entries_named(children_entries(s, path, upto), name)),
        children_count(s, name, upto) == entries_named(children_entries(s, path, upto), name).len(),
    decreases s, upto,
{
    reveal_with_fuel(Seq::filter, 1);
    if 0 < upto <= s.len() {
        lemma_walk_children_is_entries_named(s, path, name, upto - 1);
        let before = children_entries(s, path, upto - 1);
        match s[upto - 1] {
            NodeView::Element(c) => {
                let cp = crate::path::spec_child_path(path, c.local_name, named_positions(s.take(upto - 1), c.local_name).len());
                lemma_walk_is_entries_named(c, cp, name);
                lemma_entries_add(before, element_entries(c, cp), name);
            },
            _ => {
                lemma_entries_add(before, Seq::empty(), name);
                assert(before + Seq::<(Seq<char>, ElementView)>::empty() =~= before);
                assert(entries_named(Seq::<(Seq<char>, ElementView)>::empty(), name) =~= Seq::<(Seq<char>, ElementView)>::empty());
                assert(walk_children(s, path, false, name, upto - 1) + Seq::<Seq<char>>::empty()
                    =~= walk_children(s, path, false, name, upto - 1));
            },
        }
    } else {
        assert(entries_named(Seq::<(Seq<char>, ElementView)>::empty(), name) =~= Seq::<(Seq<char>, ElementView)>::empty());
        assert(entry_paths(Seq::<(Seq<char>, ElementView)>::empty()) =~= Seq::<Seq<char>>::empty());
    }
}

/// `count(name)` is the number of elements of the tree whose local name is
/// `name`, whatever their prefix, and `element_paths(name)` lists exactly the
/// paths of those elements, in document order.
pub proof fn law_elements_are_matched_by_local_name(root: ElementView, name: Seq<char>)
    ensures
        tree_count(root, name) == entries_named(element_entries(root, "/idm"@), name).len(),
        walk_paths(root, "/idm"@, false, name) == entry_paths(entries_named(element_entries(root, "/idm"@), name)),
{
    lemma_walk_is_entries_named(root, "/idm"@, name);
}

/// What the element `j` steps along the positions `q` from `e` declares for
/// `prefix` (`e` itself at step zero).
pub open spec fn declaration_on_way(e: ElementView, q: Seq<int>, prefix: Seq<char>, j: int) -> Option<Seq<char>> {
    declared_namespace(elem_at(e, q.take(j)), prefix)
}

/// Whether `v` is the namespace of `prefix` at the end of the positions `q`
/// from `e`: declared by the deepest element on the way that declares the
/// prefix, or `inherited` where none on the way does.
pub open spec fn innermost_declaration(e: ElementView, q: Seq<int>, prefix: Seq<char>, inherited: Option<Seq<char>>, v: Option<Seq<char>>) -> bool {
    ||| exists|i: int| #![trigger declaration_on_way(e, q, prefix, i)] 0 <= i <= q.len() && v is Some
            && declaration_on_way(e, q, prefix, i) == v
            && forall|j: int| i < j <= q.len() ==> (#[trigger] declaration_on_way(e, q, prefix, j)) is None
    ||| v == inherited && forall|j: int| 0 <= j <= q.len() ==> (#[trigger] declaration_on_way(e, q, prefix, j)) is None
}

proof fn lemma_on_way_step(e: ElementView, q: Seq<int>, prefix: Seq<char>)
    requires
        q.len() > 0,
    ensures
        declaration_on_way(e, q, prefix, 0) == declared_namespace(e, prefix),
        forall|i: int| 0 <= i <= q.len() - 1 ==> #[trigger] declaration_on_way(child_of(e, q[0]), q.drop_first(), prefix, i)
            == declaration_on_way(e, q, prefix, i + 1),
{
    assert(q.take(0) =~= Seq::<int>::empty());
    assert forall|i: int| 0 <= i <= q.len() - 1 implies #[trigger] declaration_on_way(child_of(e, q[0]), q.drop_first(), prefix, i)
        == declaration_on_way(e, q, prefix, i + 1) by {
        assert(q.take(i + 1).drop_first() =~= q.drop_first().take(i));
        assert(q.take(i + 1)[0] == q[0]);
    }
}

/// The namespace that `prefix` takes at the element that `segments` reach
/// from `e`, starting from `inherited`, is the one declared by the deepest
/// element on the way that declares `xmlns:prefix`: a declaration on a
/// descendant overrides one on an ancestor, and `inherited` holds only where
/// no element on the way declares the prefix.
pub proof fn law_innermost_namespace_declaration_wins(
    e: ElementView,
    segments: Seq<SegmentView>,
    prefix: Seq<char>,
    inherited: Option<Seq<char>>,
    q: Seq<int>,
)
    requires
        locate(e, segments) == Some(q),
    ensures
        innermost_declaration(e, q, prefix, inherited, namespace_along(e, segments, prefix, inherited)),
    decreases segments.len(),
{
    let here = match declared_namespace(e, prefix) {
        Some(v) => Some(v),
        None => inherited,
    };
    let r = namespace_along(e, segments, prefix, inherited);
    if segments.len() == 0 {
        assert(q =~= Seq::<int>::empty());
        assert(q.take(0) =~= Seq::<int>::empty());
        assert(declaration_on_way(e, q, prefix, 0) == declared_namespace(e, prefix));
        if declared_namespace(e, prefix) is Some {
            assert(declaration_on_way(e, q, prefix, 0) == r);
        }
    } else {
        let ps = named_positions(e.children, segments[0].name);
        let p = ps[segments[0].index as int];
        let child = child_of(e, p);
        let rest = segments.drop_first();
        let qr = locate(child, rest)->Some_0;
        assert(q =~= seq![p] + qr);
        assert(q[0] == p);
        assert(q.drop_first() =~= qr);
        law_innermost_namespace_declaration_wins(child, rest, prefix, here, qr);
        lemma_on_way_step(e, q, prefix);
        assert(r == namespace_along(child, rest, prefix, here));
        if exists|i: int| #![trigger declaration_on_way(child, qr, prefix, i)] 0 <= i <= qr.len() && r is Some
            && declaration_on_way(child, qr, prefix, i) == r
            && forall|j: int| i < j <= qr.len() ==> (#[trigger] declaration_on_way(child, qr, prefix, j)) is None {
            let i = choose|i: int| #![trigger declaration_on_way(child, qr, prefix, i)] 0 <= i <= qr.len() && r is Some
                && declaration_on_way(child, qr, prefix, i) == r
                && forall|j: int| i < j <= qr.len() ==> (#[trigger] declaration_on_way(child, qr, prefix, j)) is None;
            assert(declaration_on_way(e, q, prefix, i + 1) == r);
            assert forall|j: int| i + 1 < j <= q.len() implies (#[trigger] declaration_on_way(e, q, prefix, j)) is None by {
                assert(declaration_on_way(child, qr, prefix, j - 1) == declaration_on_way(e, q, prefix, j));
            }
        } else {
            assert(r == here);
            assert(forall|j: int| 0 <= j <= qr.len() ==> (#[trigger] declaration_on_way(child, qr, prefix, j)) is None);
            assert forall|j: int| 1 <= j <= q.len() implies (#[trigger] declaration_on_way(e, q, prefix, j)) is None by {
                assert(declaration_on_way(child, qr, prefix, j - 1) == declaration_on_way(e, q, prefix, j));
            }
            if declared_namespace(e, prefix) is Some {
                assert(declaration_on_way(e, q, prefix, 0) == r);
            } else {
                assert forall|j: int| 0 <= j <= q.len() implies (#[trigger] declaration_on_way(e, q, prefix, j)) is None by {
                    if j >= 1 {
                        assert(declaration_on_way(child, qr, prefix, j - 1) == declaration_on_way(e, q, prefix, j));
                    }
                }
            }
        }
    }
}

} // verus!
