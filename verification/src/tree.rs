//! Positions of same-name child elements and resolution of path segments to
//! element positions inside a tree.
use vstd::prelude::*;
use crate::model::{lemma_children_view, nodes_view, Element, ElementView, Node, NodeView};
use crate::path::{PathSegment, SegmentView, segments_view};
use crate::text::str_eq;

verus! {

/// Whether `n` is an element whose local name is `name`.
pub open spec fn is_element_named(n: NodeView, name: Seq<char>) -> bool {
    n matches NodeView::Element(e) && e.local_name == name
}

/// Positions, in order, of the element children named `name`.
pub open spec fn named_positions(s: Seq<NodeView>, name: Seq<char>) -> Seq<int>
    decreases s.len(),
{
    if s.len() == 0 {
        Seq::empty()
    } else {
        let r = named_positions(s.drop_last(), name);
        if is_element_named(s.last(), name) {
            r.push(s.len() - 1)
        } else {
            r
        }
    }
}

/// The element child at position `p`.
pub open spec fn child_of(e: ElementView, p: int) -> ElementView {
    e.children[p]->Element_0
}

pub proof fn lemma_named_positions(s: Seq<NodeView>, name: Seq<char>)
    ensures
        named_positions(s, name).len() <= s.len(),
        forall|k: int| 0 <= k < named_positions(s, name).len() ==> {
            let p = #[trigger] named_positions(s, name)[k];
            &&& 0 <= p < s.len()
            &&& is_element_named(s[p], name)
        },
        forall|k: int, l: int|
            0 <= k < l < named_positions(s, name).len() ==> named_positions(s, name)[k]
                < named_positions(s, name)[l],
        forall|p: int|
            0 <= p < s.len() && is_element_named(#[trigger] s[p], name) ==> exists|k: int|
                0 <= k < named_positions(s, name).len() && named_positions(s, name)[k] == p,
    decreases s.len(),
{
    if s.len() > 0 {
        let t = s.drop_last();
        lemma_named_positions(t, name);
        assert(forall|j: int| 0 <= j < t.len() ==> t[j] == s[j]);
        let r = named_positions(t, name);
        let w = named_positions(s, name);
        if is_element_named(s.last(), name) {
            assert(w == r.push(s.len() - 1));
            assert forall|p: int| 0 <= p < s.len() && is_element_named(#[trigger] s[p], name) implies exists|k: int|
                0 <= k < w.len() && w[k] == p by {
                if p == s.len() - 1 {
                    assert(w[r.len() as int] == p);
                    assert(0 <= r.len() < w.len());
                } else {
                    assert(is_element_named(t[p], name));
                    let k = choose|k: int| 0 <= k < r.len() && r[k] == p;
                    assert(w[k] == p);
                }
            }
        } else {
            assert forall|p: int| 0 <= p < s.len() && is_element_named(#[trigger] s[p], name) implies exists|k: int|
                0 <= k < named_positions(s, name).len() && named_positions(s, name)[k] == p by {
                assert(is_element_named(t[p], name));
            }
        }
    }
}

/// The positions named in a prefix are the first positions of the whole.
pub proof fn lemma_named_positions_prefix(s: Seq<NodeView>, name: Seq<char>, i: int)
    requires
        0 <= i <= s.len(),
    ensures
        named_positions(s.take(i), name).len() <= named_positions(s, name).len(),
        named_positions(s.take(i), name) == named_positions(s, name).take(
            named_positions(s.take(i), name).len() as int,
        ),
        named_positions(s.take(i), name).len() < named_positions(s, name).len() ==> named_positions(
            s,
            name,
        )[named_positions(s.take(i), name).len() as int] >= i,
    decreases s.len() - i,
{
    if i == s.len() {
        assert(s.take(i) =~= s);
        assert(named_positions(s, name).take(named_positions(s, name).len() as int) =~= named_positions(s, name));
    } else {
        lemma_named_positions_prefix(s, name, i + 1);
        assert(s.take(i + 1).drop_last() =~= s.take(i));
        let a = named_positions(s.take(i), name);
        let b = named_positions(s.take(i + 1), name);
        let w = named_positions(s, name);
        assert(b == w.take(b.len() as int));
        if is_element_named(s[i], name) {
            assert(b == a.push(i));
            assert(a =~= w.take(a.len() as int));
            assert(w[a.len() as int] == b[a.len() as int]);
        } else {
            assert(b == a);
            if a.len() < w.len() {
                lemma_named_positions(s, name);
                lemma_named_positions(s.take(i + 1), name);
                assert(w[a.len() as int] >= i + 1) by {
                    if b.len() < w.len() {
                    } else {
                        assert(false);
                    }
                }
            }
        }
    }
}

/// Position of the `index`-th element child named `name`.
pub fn child_element_position(e: &Element, name: &str, index: usize) -> (r: Option<usize>)
    ensures
        r matches Some(p) ==> index < named_positions(e@.children, name@).len() && p
            == named_positions(e@.children, name@)[index as int],
        r is None ==> index >= named_positions(e@.children, name@).len(),
{
    proof { lemma_children_view(*e); }
    let ghost s = e@.children;
    let mut seen: usize = 0;
    let mut i: usize = 0;
    while i < e.children.len()
        invariant
            s == e@.children,
            s == nodes_view(e.children@),
            i <= e.children@.len(),
            seen == named_positions(s.take(i as int), name@).len(),
            seen <= index,
        decreases e.children@.len() - i,
    {
        assert(s.take(i + 1).drop_last() =~= s.take(i as int));
        let named = match &e.children[i] {
            Node::Element(c) => str_eq(c.local_name.as_str(), name),
            _ => false,
        };
        assert(named == is_element_named(s[i as int], name@));
        if named {
            if seen == index {
                proof {
                    lemma_named_positions_prefix(s, name@, i + 1);
                    let a = named_positions(s.take(i as int), name@);
                    let b = named_positions(s.take(i + 1), name@);
                    let w = named_positions(s, name@);
                    assert(s.take(i + 1).last() == s[i as int]);
                    assert(b == a.push(i as int));
                    assert(b[seen as int] == i);
                    assert(w.take(b.len() as int)[seen as int] == w[seen as int]);
                }
                return Some(i);
            }
            seen += 1;
        }
        i += 1;
    }
    assert(s.take(i as int) =~= s);
    None
}

/// Number of element children named `name`.
pub fn count_children_named(e: &Element, name: &str) -> (r: usize)
    ensures
        r == named_positions(e@.children, name@).len(),
{
    proof { lemma_children_view(*e); }
    let ghost s = e@.children;
    let mut seen: usize = 0;
    let mut i: usize = 0;
    while i < e.children.len()
        invariant
            s == e@.children,
            s == nodes_view(e.children@),
            i <= e.children@.len(),
            seen == named_positions(s.take(i as int), name@).len(),
            seen <= i,
        decreases e.children@.len() - i,
    {
        assert(s.take(i + 1).drop_last() =~= s.take(i as int));
        let named = match &e.children[i] {
            Node::Element(c) => str_eq(c.local_name.as_str(), name),
            _ => false,
        };
        if named {
            seen += 1;
        }
        i += 1;
    }
    assert(s.take(i as int) =~= s);
    seen
}

/// The child positions that `segments` select below `e`, one per segment.
pub open spec fn locate(e: ElementView, segments: Seq<SegmentView>) -> Option<Seq<int>>
    decreases segments.len(),
{
    if segments.len() == 0 {
        Some(Seq::empty())
    } else {
        let ps = named_positions(e.children, segments[0].name);
        if segments[0].index < ps.len() {
            let p = ps[segments[0].index as int];
            match locate(child_of(e, p), segments.drop_first()) {
                Some(rest) => Some(seq![p] + rest),
                None => None,
            }
        } else {
            None
        }
    }
}

/// The positions that a whole path selects from the root: its first segment
/// must name the root with index zero.
pub open spec fn resolve_segments(root: ElementView, segments: Seq<SegmentView>) -> Option<Seq<int>> {
    if segments.len() > 0 && segments[0].name == root.local_name && segments[0].index == 0 {
        locate(root, segments.drop_first())
    } else {
        None
    }
}

/// Whether following `pos` from `e` passes only through element children.
pub open spec fn valid_positions(e: ElementView, pos: Seq<int>) -> bool
    decreases pos.len(),
{
    pos.len() == 0 || (0 <= pos[0] < e.children.len() && e.children[pos[0]] is Element
        && valid_positions(child_of(e, pos[0]), pos.drop_first()))
}

/// The element reached from `e` by following `pos`.
pub open spec fn elem_at(e: ElementView, pos: Seq<int>) -> ElementView
    decreases pos.len(),
{
    if pos.len() == 0 {
        e
    } else {
        elem_at(child_of(e, pos[0]), pos.drop_first())
    }
}

/// `e` with the element reached by `pos` replaced by `new`.
pub open spec fn replace_at(e: ElementView, pos: Seq<int>, new: ElementView) -> ElementView
    decreases pos.len(),
{
    if pos.len() == 0 {
        new
    } else {
        ElementView {
            children: e.children.update(
                pos[0],
                NodeView::Element(replace_at(child_of(e, pos[0]), pos.drop_first(), new)),
            ),
            ..e
        }
    }
}

pub proof fn lemma_locate_valid(e: ElementView, segments: Seq<SegmentView>)
    ensures
        locate(e, segments) matches Some(pos) ==> valid_positions(e, pos) && pos.len()
            == segments.len(),
    decreases segments.len(),
{
    if segments.len() > 0 {
        let ps = named_positions(e.children, segments[0].name);
        lemma_named_positions(e.children, segments[0].name);
        if segments[0].index < ps.len() {
            let p = ps[segments[0].index as int];
            lemma_locate_valid(child_of(e, p), segments.drop_first());
            if let Some(rest) = locate(child_of(e, p), segments.drop_first()) {
                assert((seq![p] + rest).drop_first() =~= rest);
            }
        }
    }
}

/// The positions, as `usize`, viewed as integers.
pub open spec fn ints(v: Seq<usize>) -> Seq<int> {
    v.map_values(|p: usize| p as int)
}

/// Resolves the path made of `segments[..count]`: its first segment must name
/// the root with index zero.
pub fn resolve_positions(root: &Element, segments: &Vec<PathSegment>, count: usize) -> (r: Option<Vec<usize>>)
    requires
        count <= segments@.len(),
    ensures
        r matches Some(p) ==> resolve_segments(root@, segments_view(segments@).take(count as int))
            == Some(ints(p@)),
        r is None ==> resolve_segments(root@, segments_view(segments@).take(count as int)) is None,
{
    let ghost segs = segments_view(segments@).take(count as int);
    if count == 0 || !str_eq(segments[0].name.as_str(), root.local_name.as_str())
        || segments[0].index != 0 {
        return None;
    }
    let mut current: &Element = root;
    let mut positions: Vec<usize> = Vec::new();
    let mut i: usize = 1;
    assert(segs.skip(1) =~= segs.drop_first());
    assert(ints(positions@) =~= Seq::<int>::empty());
    while i < count
        invariant
            1 <= i <= count <= segments@.len(),
            segs == segments_view(segments@).take(count as int),
            segs[0].name == root@.local_name && segs[0].index == 0,
            locate(root@, segs.drop_first()) == (match locate(current@, segs.skip(i as int)) {
                Some(rest) => Some(ints(positions@) + rest),
                None => None,
            }),
        decreases count - i,
    {
        proof { lemma_children_view(*current); }
        let ghost tail = segs.skip(i as int);
        assert(tail.drop_first() =~= segs.skip(i + 1));
        assert(tail[0] == segments@[i as int]@);
        match child_element_position(current, segments[i].name.as_str(), segments[i].index) {
            Some(p) => {
                proof { lemma_named_positions(current@.children, tail[0].name); }
                let ghost before = positions@;
                let next = match &current.children[p] {
                    Node::Element(c) => c,
                    _ => {
                        proof {
                            assert(is_element_named(current@.children[p as int], tail[0].name));
                        }
                        unreached()
                    },
                };
                assert(next@ == child_of(current@, p as int));
                current = next;
                positions.push(p);
                assert(ints(positions@) =~= ints(before).push(p as int));
                proof {
                    match locate(current@, segs.skip(i + 1)) {
                        Some(rest) => {
                            assert(ints(before) + (seq![p as int] + rest) =~= ints(positions@) + rest);
                        },
                        None => {},
                    }
                }
            },
            None => {
                return None;
            },
        }
        i += 1;
    }
    assert(segs.skip(i as int) =~= Seq::<SegmentView>::empty());
    assert(ints(positions@) + Seq::<int>::empty() =~= ints(positions@));
    Some(positions)
}

/// Borrows the element reached by `pos[from..]`.
pub fn element_at<'a>(e: &'a Element, pos: &Vec<usize>, from: usize) -> (r: &'a Element)
    requires
        from <= pos@.len(),
        valid_positions(e@, ints(pos@).skip(from as int)),
    ensures
        r@ == elem_at(e@, ints(pos@).skip(from as int)),
    decreases pos@.len() - from,
{
    if from == pos.len() {
        e
    } else {
        proof { lemma_children_view(*e); }
        let p = pos[from];
        assert(ints(pos@).skip(from as int)[0] == p as int);
        assert(ints(pos@).skip(from as int).drop_first() =~= ints(pos@).skip(from + 1));
        match &e.children[p] {
            Node::Element(c) => element_at(c, pos, from + 1),
            _ => unreached(),
        }
    }
}

fn child_element_mut<'a>(e: &'a mut Element, p: usize) -> (r: &'a mut Element)
    requires
        p < old(e)@.children.len(),
        old(e)@.children[p as int] is Element,
    ensures
        r@ == child_of(old(e)@, p as int),
        final(e)@.children == old(e)@.children.update(p as int, NodeView::Element(final(r)@)),
        final(e)@.qualified_name == old(e)@.qualified_name,
        final(e)@.local_name == old(e)@.local_name,
        final(e)@.prefix == old(e)@.prefix,
        final(e)@.namespace == old(e)@.namespace,
        final(e)@.attributes == old(e)@.attributes,
{
    proof { lemma_children_view(*e); }
    let r = match &mut e.children[p] {
        Node::Element(c) => c,
        _ => unreached(),
    };
    r
}

/// Mutably borrows the element reached by `pos[from..]`; what the caller
/// leaves there is what the tree holds afterwards.
pub fn element_at_mut<'a>(e: &'a mut Element, pos: &Vec<usize>, from: usize) -> (r: &'a mut Element)
    requires
        from <= pos@.len(),
        valid_positions(old(e)@, ints(pos@).skip(from as int)),
    ensures
        r@ == elem_at(old(e)@, ints(pos@).skip(from as int)),
        final(e)@ == replace_at(old(e)@, ints(pos@).skip(from as int), final(r)@),
    decreases pos@.len() - from,
{
    if from == pos.len() {
        e
    } else {
        let p = pos[from];
        assert(ints(pos@).skip(from as int)[0] == p as int);
        assert(ints(pos@).skip(from as int).drop_first() =~= ints(pos@).skip(from + 1));
        let c = child_element_mut(e, p);
        element_at_mut(c, pos, from + 1)
    }
}

} // verus!
