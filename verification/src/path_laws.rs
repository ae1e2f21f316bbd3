//! Paths that the library writes are paths that it reads back: formatting
//! then parsing segments gives the segments, and the path returned for an
//! appended element leads to that element.
use vstd::prelude::*;
use crate::document::{append_outcome, lookup, prefix_namespace, removal, remove_outcome};
use crate::model::{new_element_view, ElementView, ErrorView, NodeView};
use crate::path::{flush_part, scan_path, spec_child_path, spec_format_path, spec_parse_path, spec_parse_segment, SegmentView};
use crate::catalog::{lemma_child_rule_index, rule_of, ElementRule, SchemaCatalog};
use crate::editing::schema_child_plan;
use crate::walk::{selected, walk_children, walk_paths};
use crate::schema::{first_declared_after, insert_ordered, order_of, skeleton};
use crate::text::{
    digit_char, digit_value, digits_value, first_index_of, is_digit, last_index_of, lemma_first_index_of,
    lemma_last_index_of, spec_decimal, spec_local_part, spec_parse_usize, spec_split_qname, usize_digits,
};
use crate::tree::{
    child_of, elem_at, is_element_named, locate, named_positions, replace_at, resolve_segments, valid_positions,
};

verus! {

/// A name that a path can carry as it is: not empty, not starting with `@`,
/// and free of `/`, `[` and `:`.
pub open spec fn plain_name(n: Seq<char>) -> bool {
    &&& n.len() > 0
    &&& n[0] != '@'
    &&& forall|i: int| 0 <= i < n.len() ==> #[trigger] n[i] != '/' && n[i] != '[' && n[i] != ':'
}

/// Segments with plain names and indexes that fit in `usize`.
pub open spec fn plain_segments(segments: Seq<SegmentView>) -> bool {
    forall|i: int| 0 <= i < segments.len() ==> plain_name(#[trigger] segments[i].name) && segments[i].index <= usize::MAX
}

/// The text of one formatted segment: its name, then `[index]` unless the
/// index is zero.
pub open spec fn raw_segment(s: SegmentView) -> Seq<char> {
    s.name + if s.index > 0 { seq!['['] + spec_decimal(s.index) + seq![']'] } else { Seq::empty() }
}

proof fn lemma_digit(d: nat)
    requires
        d < 10,
    ensures
        is_digit(digit_char(d)),
        digit_value(digit_char(d)) == d,
{
}

proof fn lemma_decimal(n: nat)
    ensures
        spec_decimal(n).len() > 0,
        forall|i: int| 0 <= i < spec_decimal(n).len() ==> is_digit(#[trigger] spec_decimal(n)[i]),
        digits_value(spec_decimal(n)) == n,
    decreases n,
{
    if n < 10 {
        lemma_digit(n);
        assert(spec_decimal(n).drop_last() =~= Seq::<char>::empty());
        assert(spec_decimal(n).last() == digit_char(n));
        assert(digits_value(spec_decimal(n)) == digits_value(Seq::<char>::empty()) * 10 + digit_value(digit_char(n)));
    } else {
        lemma_decimal(n / 10);
        lemma_digit(n % 10);
        let d = spec_decimal(n);
        assert(d.drop_last() == spec_decimal(n / 10));
        assert forall|i: int| 0 <= i < d.len() implies is_digit(#[trigger] d[i]) by {
            if i < d.len() - 1 {
                assert(d[i] == spec_decimal(n / 10)[i]);
            }
        }
        assert(d.last() == digit_char(n % 10));
        assert(digits_value(d) == digits_value(spec_decimal(n / 10)) * 10 + digit_value(digit_char(n % 10)));
        assert(n == (n / 10) * 10 + n % 10);
    }
}

/// The decimal spelling of an index parses back to it.
proof fn lemma_parse_decimal(n: nat)
    requires
        n <= usize::MAX,
    ensures
        spec_parse_usize(spec_decimal(n)) == Some(n),
{
    lemma_decimal(n);
    let d = spec_decimal(n);
    assert(is_digit(d[0]));
    assert(usize_digits(d) == d);
}

/// `c` at `i` with no `c` after it is the last `c`.
proof fn lemma_last_at(s: Seq<char>, c: char, i: int)
    requires
        0 <= i < s.len(),
        s[i] == c,
        forall|j: int| i < j < s.len() ==> s[j] != c,
    ensures
        last_index_of(s, c) == Some(i),
{
    lemma_last_index_of(s, c);
}

/// `name[index]` parses to its segment.
proof fn lemma_parse_indexed(name: Seq<char>, index: nat)
    requires
        plain_name(name),
        index <= usize::MAX,
    ensures
        spec_parse_segment(name + seq!['['] + spec_decimal(index) + seq![']']) == Some(SegmentView { name, index }),
{
    let d = spec_decimal(index);
    let raw = name + seq!['['] + d + seq![']'];
    lemma_decimal(index);
    let k = name.len() as int;
    assert(raw[k] == '[');
    assert forall|j: int| k < j < raw.len() implies raw[j] != '[' by {
        if j < raw.len() - 1 {
            assert(raw[j] == d[j - k - 1]);
        }
    }
    lemma_last_at(raw, '[', k);
    let suffix = raw.skip(k + 1);
    assert(suffix =~= d + seq![']']);
    assert(suffix.drop_last() =~= d);
    lemma_parse_decimal(index);
    assert(raw.take(k) =~= name);
    lemma_last_index_of(name, ':');
    assert(last_index_of(name, ':') is None);
    assert(spec_local_part(name) == name);
}

/// A formatted segment parses to the segment.
proof fn lemma_parse_raw(s: SegmentView)
    requires
        plain_name(s.name),
        s.index <= usize::MAX,
    ensures
        spec_parse_segment(raw_segment(s)) == Some(s),
        raw_segment(s).len() > 0,
        forall|i: int| 0 <= i < raw_segment(s).len() ==> #[trigger] raw_segment(s)[i] != '/',
{
    let raw = raw_segment(s);
    if s.index > 0 {
        lemma_parse_indexed(s.name, s.index);
        assert(raw =~= s.name + seq!['['] + spec_decimal(s.index) + seq![']']);
        lemma_decimal(s.index);
        assert forall|i: int| 0 <= i < raw.len() implies #[trigger] raw[i] != '/' by {
            if i < s.name.len() {
                assert(raw[i] == s.name[i]);
            } else if s.name.len() < i < raw.len() - 1 {
                assert(raw[i] == spec_decimal(s.index)[i - s.name.len() - 1]);
            }
        }
    } else {
        assert(raw =~= s.name);
        lemma_last_index_of(s.name, '[');
        lemma_last_index_of(s.name, ':');
    }
}

/// Reading characters other than `/` only extends the part being read.
proof fn lemma_scan_plain(p: Seq<char>, r: Seq<char>)
    requires
        forall|i: int| 0 <= i < r.len() ==> #[trigger] r[i] != '/',
    ensures
        scan_path(p + r) == (scan_path(p).0, scan_path(p).1 + r),
    decreases r.len(),
{
    if r.len() == 0 {
        assert(p + r =~= p);
        assert(scan_path(p).1 + r =~= scan_path(p).1);
    } else {
        lemma_scan_plain(p, r.drop_last());
        assert((p + r).drop_last() =~= p + r.drop_last());
        assert((p + r).last() == r.last());
        assert(scan_path(p).1 + r.drop_last() + seq![r.last()] =~= scan_path(p).1 + r);
    }
}

/// Reading a `/` completes the part being read.
proof fn lemma_scan_slash(p: Seq<char>)
    ensures
        scan_path(p + seq!['/']) == (flush_part(scan_path(p).0, scan_path(p).1), Seq::<char>::empty()),
{
    assert((p + seq!['/']).drop_last() =~= p);
}

/// Scanning formatted segments has read all but the last, which is the part
/// still being read.
proof fn lemma_scan_format(segments: Seq<SegmentView>)
    requires
        segments.len() > 0,
        plain_segments(segments),
    ensures
        scan_path(spec_format_path(segments)) == (Some(segments.drop_last()), raw_segment(segments.last())),
        spec_format_path(segments)[0] == '/',
    decreases segments.len(),
{
    let init = segments.drop_last();
    let last = segments.last();
    assert(plain_name(segments[segments.len() - 1].name));
    lemma_parse_raw(last);
    let f = spec_format_path(segments);
    assert(f =~= spec_format_path(init) + seq!['/'] + raw_segment(last));
    if init.len() == 0 {
        assert(spec_format_path(init) =~= Seq::<char>::empty());
        assert(scan_path(Seq::<char>::empty()) == (Some(Seq::<SegmentView>::empty()), Seq::<char>::empty()));
        assert(Seq::<char>::empty() + seq!['/'] =~= seq!['/']);
        lemma_scan_slash(Seq::<char>::empty());
        lemma_scan_plain(seq!['/'], raw_segment(last));
        assert(init =~= segments.drop_last());
    } else {
        assert forall|i: int| 0 <= i < init.len() implies plain_name(#[trigger] init[i].name) && init[i].index <= usize::MAX by {
            assert(init[i] == segments[i]);
        }
        lemma_scan_format(init);
        let g = spec_format_path(init);
        assert(plain_name(init[init.len() - 1].name));
        lemma_parse_raw(init.last());
        lemma_scan_slash(g);
        assert(init.drop_last().push(init.last()) =~= init);
        lemma_scan_plain(g + seq!['/'], raw_segment(last));
        assert(f[0] == g[0]);
    }
}

/// Formatting plain segments and parsing the text gives the segments back.
pub proof fn law_parse_format_path(segments: Seq<SegmentView>)
    requires
        segments.len() > 0,
        plain_segments(segments),
    ensures
        spec_parse_path(spec_format_path(segments)) == Some(segments),
{
    lemma_scan_format(segments);
    lemma_parse_raw(segments.last());
    assert(plain_name(segments[segments.len() - 1].name));
    assert(segments.drop_last().push(segments.last()) =~= segments);
}

/// Parsing `{parent}/{name}[{index}]` gives the segments of `parent` and the
/// new one.
proof fn lemma_parse_child_path(parent: Seq<char>, name: Seq<char>, index: nat)
    requires
        spec_parse_path(parent) is Some,
        plain_name(name),
        index <= usize::MAX,
    ensures
        spec_parse_path(spec_child_path(parent, name, index))
            == Some(spec_parse_path(parent).unwrap().push(SegmentView { name, index })),
{
    let raw = name + seq!['['] + spec_decimal(index) + seq![']'];
    let p = spec_child_path(parent, name, index);
    assert(p =~= parent + seq!['/'] + raw);
    lemma_parse_indexed(name, index);
    lemma_decimal(index);
    assert forall|i: int| 0 <= i < raw.len() implies #[trigger] raw[i] != '/' by {
        if i < name.len() {
            assert(raw[i] == name[i]);
        } else if name.len() < i < raw.len() - 1 {
            assert(raw[i] == spec_decimal(index)[i - name.len() - 1]);
        }
    }
    lemma_scan_slash(parent);
    lemma_scan_plain(parent + seq!['/'], raw);
    assert(p[0] == parent[0]);
}

/// Following one more segment extends the located positions by one.
proof fn lemma_locate_push(e: ElementView, segments: Seq<SegmentView>, s: SegmentView)
    requires
        locate(e, segments) is Some,
    ensures
        ({
            let pos = locate(e, segments).unwrap();
            let ps = named_positions(elem_at(e, pos).children, s.name);
            locate(e, segments.push(s)) == if s.index < ps.len() {
                Some(pos.push(ps[s.index as int]))
            } else {
                None::<Seq<int>>
            }
        }),
    decreases segments.len(),
{
    let pos = locate(e, segments).unwrap();
    let all = segments.push(s);
    if segments.len() == 0 {
        assert(pos == Seq::<int>::empty());
        assert(elem_at(e, pos) == e);
        assert(all[0] == s);
        assert(all.drop_first() =~= Seq::<SegmentView>::empty());
        let ps = named_positions(e.children, s.name);
        if s.index < ps.len() {
            let p = ps[s.index as int];
            assert(locate(child_of(e, p), all.drop_first()) == Some(Seq::<int>::empty()));
            assert(seq![p] + Seq::<int>::empty() =~= pos.push(p));
        }
    } else {
        let ps0 = named_positions(e.children, segments[0].name);
        let p = ps0[segments[0].index as int];
        let rest = locate(child_of(e, p), segments.drop_first()).unwrap();
        assert(segments.push(s).drop_first() =~= segments.drop_first().push(s));
        assert(segments.push(s)[0] == segments[0]);
        lemma_locate_push(child_of(e, p), segments.drop_first(), s);
        assert(pos == seq![p] + rest);
        assert(pos.drop_first() =~= rest);
        assert(elem_at(e, pos) == elem_at(child_of(e, p), rest));
        let ps = named_positions(elem_at(e, pos).children, s.name);
        if s.index < ps.len() {
            assert(seq![p] + rest.push(ps[s.index as int]) =~= pos.push(ps[s.index as int]));
        }
    }
}

/// The element reached by one more position is that child of the element
/// reached before it.
proof fn lemma_elem_at_push(e: ElementView, pos: Seq<int>, q: int)
    ensures
        elem_at(e, pos.push(q)) == child_of(elem_at(e, pos), q),
    decreases pos.len(),
{
    let pq = pos.push(q);
    assert(pq.len() > 0);
    assert(elem_at(e, pq) == elem_at(child_of(e, pq[0]), pq.drop_first()));
    if pos.len() == 0 {
        assert(pq[0] == q);
        assert(pq.drop_first() =~= Seq::<int>::empty());
        assert(elem_at(child_of(e, q), pq.drop_first()) == child_of(e, q));
    } else {
        assert(pq[0] == pos[0]);
        assert(pq.drop_first() =~= pos.drop_first().push(q));
        lemma_elem_at_push(child_of(e, pos[0]), pos.drop_first(), q);
        assert(elem_at(e, pos) == elem_at(child_of(e, pos[0]), pos.drop_first()));
    }
}

/// The path that `append_element` returns leads to the element it added,
/// provided the local part of the new name is a plain name.
pub proof fn law_appended_path_resolves(
    root: ElementView,
    parent_path: Seq<char>,
    qualified_name: Seq<char>,
    namespace: Option<Seq<char>>,
)
    requires
        lookup(root, parent_path) is Ok,
        plain_name(spec_split_qname(qualified_name).1),
        named_positions(elem_at(root, lookup(root, parent_path)->Ok_0).children, spec_split_qname(qualified_name).1).len()
            <= usize::MAX,
    ensures
        append_outcome(root, parent_path, qualified_name, namespace) matches Ok((after, path)) && ({
            let pos = lookup(root, parent_path)->Ok_0;
            let parent = elem_at(root, pos);
            let ns = match namespace {
                Some(n) => Some(n),
                None => prefix_namespace(root, spec_parse_path(parent_path).unwrap(), qualified_name),
            };
            &&& lookup(after, path) == Ok::<Seq<int>, ErrorView>(pos.push(parent.children.len() as int))
            &&& elem_at(after, pos.push(parent.children.len() as int)) == new_element_view(qualified_name, ns)
        }),
{
    let pos = lookup(root, parent_path)->Ok_0;
    let parent = elem_at(root, pos);
    let local = spec_split_qname(qualified_name).1;
    let ns = match namespace {
        Some(n) => Some(n),
        None => prefix_namespace(root, spec_parse_path(parent_path).unwrap(), qualified_name),
    };
    let child = new_element_view(qualified_name, ns);
    let children = parent.children.push(NodeView::Element(child));
    let parent2 = ElementView { children, ..parent };
    let after = replace_at(root, pos, parent2);
    let n = named_positions(parent.children, local).len();
    let path = spec_child_path(parent_path, local, n);
    let segments = spec_parse_path(parent_path).unwrap();
    crate::laws::lemma_lookup_replace(root, parent_path, parent2);
    lemma_parse_child_path(parent_path, local, n);
    let s = SegmentView { name: local, index: n };
    let all = segments.push(s);
    assert(spec_parse_path(path) == Some(all));
    assert(all[0] == segments[0]);
    assert(all.drop_first() =~= segments.drop_first().push(s));
    assert(locate(after, segments.drop_first()) == Some(pos));
    lemma_locate_push(after, segments.drop_first(), s);
    assert(elem_at(after, pos) == parent2);
    assert(children.drop_last() =~= parent.children);
    assert(is_element_named(children.last(), local));
    assert(named_positions(children, local) == named_positions(parent.children, local).push(parent.children.len() as int));
    lemma_elem_at_push(after, pos, parent.children.len() as int);
    if pos.len() > 0 {
        assert(after.local_name == root.local_name);
    }
}


/// Replacing the same element twice keeps the second replacement.
proof fn lemma_replace_twice(e: ElementView, pos: Seq<int>, x: ElementView, y: ElementView)
    requires
        valid_positions(e, pos),
    ensures
        replace_at(replace_at(e, pos, x), pos, y) == replace_at(e, pos, y),
    decreases pos.len(),
{
    if pos.len() > 0 {
        let p = pos[0];
        let child = child_of(e, p);
        lemma_replace_twice(child, pos.drop_first(), x, y);
        let once = replace_at(e, pos, x);
        assert(child_of(once, p) == replace_at(child, pos.drop_first(), x));
        assert(replace_at(once, pos, y).children =~= replace_at(e, pos, y).children);
    }
}

/// Putting back the element that is there changes nothing.
proof fn lemma_replace_same(e: ElementView, pos: Seq<int>)
    requires
        valid_positions(e, pos),
    ensures
        replace_at(e, pos, elem_at(e, pos)) == e,
    decreases pos.len(),
{
    if pos.len() > 0 {
        let p = pos[0];
        let child = child_of(e, p);
        lemma_replace_same(child, pos.drop_first());
        assert(e.children[p] == NodeView::Element(child));
        assert(replace_at(e, pos, elem_at(e, pos)).children =~= e.children);
    }
}

/// Removing the element at the path that `append_element` returned gives
/// back the tree as it was before the append.
pub proof fn law_remove_undoes_append(
    root: ElementView,
    parent_path: Seq<char>,
    qualified_name: Seq<char>,
    namespace: Option<Seq<char>>,
)
    requires
        lookup(root, parent_path) is Ok,
        plain_name(spec_split_qname(qualified_name).1),
        named_positions(elem_at(root, lookup(root, parent_path)->Ok_0).children, spec_split_qname(qualified_name).1).len()
            <= usize::MAX,
    ensures
        append_outcome(root, parent_path, qualified_name, namespace) matches Ok((after, path))
            && remove_outcome(after, path) == Ok::<ElementView, ErrorView>(root),
{
    law_appended_path_resolves(root, parent_path, qualified_name, namespace);
    let pos = lookup(root, parent_path)->Ok_0;
    let parent = elem_at(root, pos);
    let local = spec_split_qname(qualified_name).1;
    let ns = match namespace {
        Some(n) => Some(n),
        None => prefix_namespace(root, spec_parse_path(parent_path).unwrap(), qualified_name),
    };
    let child = new_element_view(qualified_name, ns);
    let children = parent.children.push(NodeView::Element(child));
    let parent2 = ElementView { children, ..parent };
    let after = replace_at(root, pos, parent2);
    let n = named_positions(parent.children, local).len();
    let path = spec_child_path(parent_path, local, n);
    let segments = spec_parse_path(parent_path).unwrap();
    let all = segments.push(SegmentView { name: local, index: n });
    crate::laws::lemma_lookup_replace(root, parent_path, parent2);
    lemma_parse_child_path(parent_path, local, n);
    assert(all.drop_last() =~= segments);
    assert(resolve_segments(after, segments) == Some(pos));
    assert(elem_at(after, pos) == parent2);
    assert(children.drop_last() =~= parent.children);
    assert(is_element_named(children.last(), local));
    assert(named_positions(children, local) == named_positions(parent.children, local).push(parent.children.len() as int));
    assert(removal(after, all) == Some((pos, parent.children.len() as int)));
    assert(children.remove(parent.children.len() as int) =~= parent.children);
    assert((ElementView { children: children.remove(parent.children.len() as int), ..parent2 }) == parent);
    crate::tree::lemma_locate_valid(root, segments.drop_first());
    lemma_replace_twice(root, pos, parent2, parent);
    lemma_replace_same(root, pos);
}


/// The declaration position of a child: that of its name, for an element the
/// rule declares.
pub open spec fn declared_order(n: NodeView, rule: ElementRule) -> Option<int> {
    match n {
        NodeView::Element(e) => order_of(rule, e.local_name),
        _ => None,
    }
}

/// Whether the declared children of `s` appear in declaration order, as
/// validation asks of them.
pub open spec fn declaration_ordered(s: Seq<NodeView>, rule: ElementRule) -> bool {
    forall|i: int, j: int| 0 <= i < j < s.len() ==> match (#[trigger] declared_order(s[i], rule), #[trigger] declared_order(s[j], rule)) {
        (Some(a), Some(b)) => a <= b,
        _ => true,
    }
}

/// Inserting a node named `name` where no later child bears that name puts
/// it after all of them.
proof fn lemma_named_insert_last(s: Seq<NodeView>, p: int, n: NodeView, name: Seq<char>)
    requires
        0 <= p <= s.len(),
        is_element_named(n, name),
        forall|i: int| p <= i < s.len() ==> !is_element_named(#[trigger] s[i], name),
    ensures
        named_positions(s.insert(p, n), name) == named_positions(s, name).push(p),
    decreases s.len(),
{
    let t = s.insert(p, n);
    if p == s.len() {
        assert(t.drop_last() =~= s);
        assert(t.last() == n);
    } else {
        assert(t.drop_last() =~= s.drop_last().insert(p, n));
        assert(t.last() == s.last());
        assert(!is_element_named(s[s.len() - 1], name));
        assert forall|i: int| p <= i < s.drop_last().len() implies !is_element_named(#[trigger] s.drop_last()[i], name) by {
            assert(s.drop_last()[i] == s[i]);
        }
        lemma_named_insert_last(s.drop_last(), p, n, name);
    }
}

/// The path that `append_schema_child` returns leads to the child it added,
/// provided the parent's declared children are in declaration order, the
/// child's declaration bears the child's name, and that name is plain.
pub proof fn law_appended_schema_child_path_resolves(
    root: ElementView,
    catalog: SchemaCatalog,
    parent_path: Seq<char>,
    name: Seq<char>,
    child: ElementView,
)
    requires
        schema_child_plan(root, catalog, parent_path, name) is Ok,
        plain_name(name),
        ({
            let (pos, prule, crule, current) = schema_child_plan(root, catalog, parent_path, name)->Ok_0;
            &&& skeleton(catalog, crule.definition@, spec_parse_path(parent_path).unwrap().len(), child)
            &&& rule_of(catalog, crule.definition@) matches Some(r) && r.name@ == name
            &&& declaration_ordered(elem_at(root, pos).children, prule)
            &&& current <= usize::MAX
        }),
    ensures
        ({
            let (pos, prule, crule, current) = schema_child_plan(root, catalog, parent_path, name)->Ok_0;
            let parent = elem_at(root, pos);
            let after = replace_at(
                root,
                pos,
                ElementView { children: insert_ordered(parent.children, NodeView::Element(child), prule), ..parent },
            );
            lookup(after, spec_child_path(parent_path, name, current)) matches Ok(q) && elem_at(after, q) == child
        }),
{
    let (pos, prule, crule, current) = schema_child_plan(root, catalog, parent_path, name)->Ok_0;
    let parent = elem_at(root, pos);
    let s = parent.children;
    let depth = spec_parse_path(parent_path).unwrap().len();
    let r = rule_of(catalog, crule.definition@).unwrap();
    assert(child.local_name == new_element_view(r.name@, None).local_name);
    lemma_first_index_of(name, ':');
    assert(first_index_of(name, ':') is None);
    assert(child.local_name == name);
    let n = NodeView::Element(child);
    lemma_child_rule_index(prule.children@, name);
    let o = order_of(prule, name).unwrap();
    assert(declared_order(n, prule) == Some(o));
    let p = match first_declared_after(s, prule, o) {
        Some(p) => p,
        None => s.len() as int,
    };
    crate::schema::lemma_first_declared_after_bound(s, prule, o);
    assert(insert_ordered(s, n, prule) == s.insert(p, n)) by {
        if first_declared_after(s, prule, o) is None {
            assert(s.push(n) =~= s.insert(s.len() as int, n));
        }
    }
    assert forall|i: int| p <= i < s.len() implies !is_element_named(#[trigger] s[i], name) by {
        if is_element_named(s[i], name) {
            assert(declared_order(s[i], prule) == Some(o));
            if i > p {
                assert(declared_order(s[p], prule) matches Some(op) && op > o);
                assert(match (declared_order(s[p], prule), declared_order(s[i], prule)) {
                    (Some(a), Some(b)) => a <= b,
                    _ => true,
                });
            }
        }
    }
    lemma_named_insert_last(s, p, n, name);
    let children = s.insert(p, n);
    let parent2 = ElementView { children, ..parent };
    let after = replace_at(root, pos, parent2);
    crate::laws::lemma_lookup_replace(root, parent_path, parent2);
    lemma_parse_child_path(parent_path, name, current);
    let segments = spec_parse_path(parent_path).unwrap();
    let seg = SegmentView { name, index: current };
    let all = segments.push(seg);
    assert(all[0] == segments[0]);
    assert(all.drop_first() =~= segments.drop_first().push(seg));
    assert(locate(after, segments.drop_first()) == Some(pos));
    lemma_locate_push(after, segments.drop_first(), seg);
    assert(elem_at(after, pos) == parent2);
    assert(named_positions(children, name)[current as int] == p);
    lemma_elem_at_push(after, pos, p);
    assert(children[p] == n);
    if pos.len() > 0 {
        assert(after.local_name == root.local_name);
    }
}


/// Whether every element of the tree rooted at `e` has a plain local name and
/// a number of children that fits in `usize`.
pub open spec fn plain_tree(e: ElementView) -> bool
    decreases e, 0int,
{
    plain_name(e.local_name) && e.children.len() <= usize::MAX && plain_children(e.children, e.children.len() as int)
}

/// `plain_tree` for the element children among the first `upto`.
pub open spec fn plain_children(s: Seq<NodeView>, upto: int) -> bool
    decreases s, upto,
{
    upto <= 0 || upto > s.len() || (plain_children(s, upto - 1) && match s[upto - 1] {
        NodeView::Element(c) => plain_tree(c),
        _ => true,
    })
}

proof fn lemma_plain_children_prefix(s: Seq<NodeView>, upto: int, k: int)
    requires
        plain_children(s, upto),
        0 < k <= upto <= s.len(),
    ensures
        plain_children(s, k),
        s[k - 1] matches NodeView::Element(c) ==> plain_tree(c),
    decreases upto - k,
{
    if k < upto {
        lemma_plain_children_prefix(s, upto - 1, k);
    }
}

/// Every path that the walk lists below `e`, which `path` reaches at `pos`,
/// leads to an element that the walk selects.
proof fn lemma_walk_resolves(root: ElementView, e: ElementView, path: Seq<char>, pos: Seq<int>, by_guid: bool, key: Seq<char>)
    requires
        lookup(root, path) == Ok::<Seq<int>, ErrorView>(pos),
        elem_at(root, pos) == e,
        plain_tree(e),
    ensures
        forall|k: int| 0 <= k < walk_paths(e, path, by_guid, key).len() ==> (lookup(root, #[trigger] walk_paths(e, path, by_guid, key)[k])
            matches Ok(q) && selected(elem_at(root, q), by_guid, key)),
    decreases e, 0int,
{
    lemma_walk_children_resolve(root, e, path, pos, by_guid, key, e.children.len() as int);
    let head: Seq<Seq<char>> = if selected(e, by_guid, key) { seq![path] } else { Seq::empty() };
    let rest = walk_children(e.children, path, by_guid, key, e.children.len() as int);
    assert(walk_paths(e, path, by_guid, key) == head + rest);
    assert forall|k: int| 0 <= k < walk_paths(e, path, by_guid, key).len() implies (lookup(root, #[trigger] walk_paths(e, path, by_guid, key)[k])
        matches Ok(q) && selected(elem_at(root, q), by_guid, key)) by {
        if k >= head.len() {
            assert(walk_paths(e, path, by_guid, key)[k] == rest[k - head.len()]);
        }
    }
}

proof fn lemma_walk_children_resolve(
    root: ElementView,
    e: ElementView,
    path: Seq<char>,
    pos: Seq<int>,
    by_guid: bool,
    key: Seq<char>,
    upto: int,
)
    requires
        lookup(root, path) == Ok::<Seq<int>, ErrorView>(pos),
        elem_at(root, pos) == e,
        plain_tree(e),
        0 <= upto <= e.children.len(),
    ensures
        forall|k: int| 0 <= k < walk_children(e.children, path, by_guid, key, upto).len() ==> (lookup(
            root,
            #[trigger] walk_children(e.children, path, by_guid, key, upto)[k],
        ) matches Ok(q) && selected(elem_at(root, q), by_guid, key)),
    decreases e.children, upto,
{
    let s = e.children;
    if upto > 0 {
        lemma_walk_children_resolve(root, e, path, pos, by_guid, key, upto - 1);
        let before = walk_children(s, path, by_guid, key, upto - 1);
        match s[upto - 1] {
            NodeView::Element(c) => {
                lemma_plain_children_prefix(s, s.len() as int, upto);
                let index = named_positions(s.take(upto - 1), c.local_name).len();
                crate::tree::lemma_named_positions(s.take(upto - 1), c.local_name);
                let child_path = spec_child_path(path, c.local_name, index);
                let segments = spec_parse_path(path).unwrap();
                lemma_parse_child_path(path, c.local_name, index);
                let seg = SegmentView { name: c.local_name, index };
                let all = segments.push(seg);
                assert(all[0] == segments[0]);
                assert(all.drop_first() =~= segments.drop_first().push(seg));
                lemma_locate_push(root, segments.drop_first(), seg);
                crate::tree::lemma_named_positions_prefix(s, c.local_name, upto);
                crate::tree::lemma_named_positions_prefix(s, c.local_name, upto - 1);
                assert(s.take(upto).drop_last() =~= s.take(upto - 1));
                assert(s.take(upto).last() == s[upto - 1]);
                let ps = named_positions(s, c.local_name);
                let pre = named_positions(s.take(upto), c.local_name);
                assert(pre == named_positions(s.take(upto - 1), c.local_name).push(upto - 1));
                assert(ps.take(pre.len() as int) == pre);
                assert(ps[index as int] == pre[index as int]);
                lemma_elem_at_push(root, pos, upto - 1);
                assert(lookup(root, child_path) == Ok::<Seq<int>, ErrorView>(pos.push(upto - 1)));
                assert(elem_at(root, pos.push(upto - 1)) == c);
                lemma_walk_resolves(root, c, child_path, pos.push(upto - 1), by_guid, key);
                let tail = walk_paths(c, child_path, by_guid, key);
                assert(walk_children(s, path, by_guid, key, upto) == before + tail);
                assert forall|k: int| 0 <= k < (before + tail).len() implies (lookup(root, #[trigger] (before + tail)[k])
                    matches Ok(q) && selected(elem_at(root, q), by_guid, key)) by {
                    if k < before.len() {
                        assert((before + tail)[k] == before[k]);
                        assert(walk_children(s, path, by_guid, key, upto - 1)[k] == before[k]);
                    } else {
                        assert((before + tail)[k] == tail[k - before.len()]);
                    }
                }
            },
            _ => {
                assert(walk_children(s, path, by_guid, key, upto) =~= before);
            },
        }
    }
}

/// Every path that `element_paths` or `find_by_guid` lists leads to an
/// element that it selects, provided the root is `idm` and every element of
/// the tree has a plain local name.
pub proof fn law_listed_paths_resolve(root: ElementView, by_guid: bool, key: Seq<char>)
    requires
        root.local_name == "idm"@,
        plain_tree(root),
    ensures
        forall|k: int| 0 <= k < walk_paths(root, "/idm"@, by_guid, key).len() ==> (lookup(
            root,
            #[trigger] walk_paths(root, "/idm"@, by_guid, key)[k],
        ) matches Ok(q) && selected(elem_at(root, q), by_guid, key)),
{
    let seg = SegmentView { name: "idm"@, index: 0 };
    let segments = seq![seg];
    reveal_strlit("idm");
    reveal_strlit("/idm");
    assert(plain_name("idm"@));
    assert(segments.drop_last() =~= Seq::<SegmentView>::empty());
    assert(segments.last() == seg);
    assert(spec_format_path(segments.drop_last()) =~= Seq::<char>::empty());
    assert(spec_format_path(segments) =~= "/idm"@);
    law_parse_format_path(segments);
    assert(segments.drop_first() =~= Seq::<SegmentView>::empty());
    assert(lookup(root, "/idm"@) == Ok::<Seq<int>, ErrorView>(Seq::<int>::empty()));
    lemma_walk_resolves(root, root, "/idm"@, Seq::empty(), by_guid, key);
}

} // verus!
