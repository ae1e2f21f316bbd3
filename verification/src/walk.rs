//! Pre-order traversal of the tree with indexed paths: counting elements by
//! name and listing the paths of elements selected by name or `guid`.
use vstd::prelude::*;
use crate::document::{strings_view, Document};
use crate::model::{attribute_by_local, lemma_children_view, nodes_view, value_by_local, Element, ElementView, Node, NodeView};
use crate::path::{child_path, spec_child_path};
use crate::text::{owned, str_eq};
use crate::tree::{is_element_named, named_positions};

verus! {

/// Whether the walk reports `e`: by local name, or by the value of its first
/// attribute whose local name is `guid`.
pub open spec fn selected(e: ElementView, by_guid: bool, key: Seq<char>) -> bool {
    if by_guid {
        value_by_local(e, "guid"@) == Some(key)
    } else {
        e.local_name == key
    }
}

/// Paths, in pre-order, of the selected elements of the tree rooted at `e`,
/// which sits at `path`; a child's path adds `/{name}[{index}]`, its index
/// counting the earlier element siblings of the same name.
pub open spec fn walk_paths(e: ElementView, path: Seq<char>, by_guid: bool, key: Seq<char>) -> Seq<Seq<char>>
    decreases e, 0int,
{
    (if selected(e, by_guid, key) { seq![path] } else { Seq::empty() }) + walk_children(
        e.children,
        path,
        by_guid,
        key,
        e.children.len() as int,
    )
}

/// `walk_paths` over the first `upto` children of an element at `path`.
pub open spec fn walk_children(s: Seq<NodeView>, path: Seq<char>, by_guid: bool, key: Seq<char>, upto: int) -> Seq<Seq<char>>
    decreases s, upto,
{
    if upto <= 0 || upto > s.len() {
        Seq::empty()
    } else {
        walk_children(s, path, by_guid, key, upto - 1) + match s[upto - 1] {
            NodeView::Element(c) => walk_paths(
                c,
                spec_child_path(path, c.local_name, named_positions(s.take(upto - 1), c.local_name).len()),
                by_guid,
                key,
            ),
            _ => Seq::empty(),
        }
    }
}

/// Number of elements named `name` in the tree rooted at `e`.
pub open spec fn tree_count(e: ElementView, name: Seq<char>) -> nat
    decreases e, 0int,
{
    (if e.local_name == name { 1nat } else { 0nat }) + children_count(e.children, name, e.children.len() as int)
}

/// `tree_count` summed over the first `upto` children.
pub open spec fn children_count(s: Seq<NodeView>, name: Seq<char>, upto: int) -> nat
    decreases s, upto,
{
    if upto <= 0 || upto > s.len() {
        0
    } else {
        children_count(s, name, upto - 1) + match s[upto - 1] {
            NodeView::Element(c) => tree_count(c, name),
            _ => 0,
        }
    }
}

/// `n`, or `usize::MAX` where `n` does not fit.
pub open spec fn saturate(n: nat) -> nat {
    if n > usize::MAX { usize::MAX as nat } else { n }
}

fn count_tree(e: &Element, name: &str) -> (r: usize)
    ensures
        r == saturate(tree_count(e@, name@)),
    decreases e,
{
    proof { lemma_children_view(*e); }
    let ghost s = e@.children;
    let mut total: usize = if str_eq(e.local_name.as_str(), name) { 1 } else { 0 };
    let mut i: usize = 0;
    while i < e.children.len()
        invariant
            i <= e.children@.len(),
            s == e@.children,
            s == nodes_view(e.children@),
            total == saturate((if e@.local_name == name@ { 1nat } else { 0nat }) + children_count(s, name@, i as int)),
        decreases e.children@.len() - i,
    {
        match &e.children[i] {
            Node::Element(c) => {
                assert(s[i as int] == NodeView::Element(c@));
                let k = count_tree(c, name);
                total = total.saturating_add(k);
            },
            _ => {},
        }
        i += 1;
    }
    total
}

/// Whether `names` and `counts` record, for the first `i` nodes of `s`, how
/// many element children bear each name; a name not recorded occurs nowhere
/// there.
spec fn counts_ok(names: Seq<Seq<char>>, counts: Seq<usize>, s: Seq<NodeView>, i: int) -> bool {
    &&& names.len() == counts.len()
    &&& forall|a: int, b: int| 0 <= a < b < names.len() ==> names[a] != names[b]
    &&& forall|k: int| 0 <= k < names.len() ==> #[trigger] counts[k] == named_positions(s.take(i), names[k]).len()
    &&& forall|n: Seq<char>| !names.contains(n) ==> #[trigger] named_positions(s.take(i), n).len() == 0
}

proof fn lemma_count_step(s: Seq<NodeView>, i: int, n: Seq<char>)
    requires
        0 <= i < s.len(),
    ensures
        named_positions(s.take(i + 1), n).len() == named_positions(s.take(i), n).len() + if is_element_named(s[i], n) { 1int } else { 0int },
        named_positions(s.take(i), n).len() <= i,
{
    assert(s.take(i + 1).drop_last() =~= s.take(i));
    assert(s.take(i + 1).last() == s[i]);
    crate::tree::lemma_named_positions(s.take(i), n);
}

/// Appends, in pre-order, the paths of the selected elements of the tree
/// rooted at `e`, which sits at `path`.
fn collect(e: &Element, path: &String, by_guid: bool, key: &str, out: &mut Vec<String>)
    ensures
        strings_view(final(out)@) == strings_view(old(out)@) + walk_paths(e@, path@, by_guid, key@),
    decreases e,
{
    proof { lemma_children_view(*e); }
    let ghost s = e@.children;
    let ghost start = strings_view(out@);
    let hit = if by_guid {
        match attribute_by_local(e, "guid") {
            Some(v) => str_eq(v, key),
            None => false,
        }
    } else {
        str_eq(e.local_name.as_str(), key)
    };
    assert(hit == selected(e@, by_guid, key@));
    if hit {
        out.push(path.clone());
    }
    let ghost head = strings_view(out@);
    assert(head =~= start + (if selected(e@, by_guid, key@) { seq![path@] } else { Seq::<Seq<char>>::empty() }));
    let mut names: Vec<String> = Vec::new();
    let mut counts: Vec<usize> = Vec::new();
    let mut i: usize = 0;
    while i < e.children.len()
        invariant
            i <= e.children@.len(),
            s == e@.children,
            s == nodes_view(e.children@),
            strings_view(out@) == head + walk_children(s, path@, by_guid, key@, i as int),
            counts_ok(strings_view(names@), counts@, s, i as int),
            forall|k: int| 0 <= k < counts@.len() ==> counts@[k] <= i,
        decreases e.children@.len() - i,
    {
        let ghost before_out = strings_view(out@);
        match &e.children[i] {
            Node::Element(c) => {
                assert(s[i as int] == NodeView::Element(c@));
                let ghost n = c@.local_name;
                let mut k: usize = 0;
                while k < names.len()
                    invariant
                        k <= names@.len(),
                        n == c@.local_name,
                        forall|j: int| 0 <= j < k ==> names@[j]@ != n,
                    ensures
                        k <= names@.len(),
                        k < names@.len() ==> names@[k as int]@ == n,
                        forall|j: int| 0 <= j < k ==> names@[j]@ != n,
                    decreases names@.len() - k,
                {
                    if str_eq(names[k].as_str(), c.local_name.as_str()) {
                        break;
                    }
                    k += 1;
                }
                proof {
                    lemma_count_step(s, i as int, n);
                }
                let index = if k < names.len() {
                    let current = counts[k];
                    assert(strings_view(names@)[k as int] == n);
                    counts.set(k, current + 1);
                    proof {
                        assert forall|j: int| 0 <= j < names@.len() implies #[trigger] counts@[j] == named_positions(s.take(i + 1), strings_view(names@)[j]).len() by {
                            lemma_count_step(s, i as int, strings_view(names@)[j]);
                        }
                        assert forall|m: Seq<char>| !strings_view(names@).contains(m) implies #[trigger] named_positions(s.take(i + 1), m).len() == 0 by {
                            lemma_count_step(s, i as int, m);
                            if m == n {
                                assert(strings_view(names@).contains(n));
                            }
                        }
                    }
                    current
                } else {
                    assert(!strings_view(names@).contains(n)) by {
                        if strings_view(names@).contains(n) {
                            let j = choose|j: int| 0 <= j < strings_view(names@).len() && strings_view(names@)[j] == n;
                            assert(names@[j]@ == n);
                        }
                    }
                    let ghost old_names = strings_view(names@);
                    names.push(c.local_name.clone());
                    counts.push(1);
                    proof {
                        assert(strings_view(names@) =~= old_names.push(n));
                        assert forall|j: int| 0 <= j < names@.len() implies #[trigger] counts@[j] == named_positions(s.take(i + 1), strings_view(names@)[j]).len() by {
                            lemma_count_step(s, i as int, strings_view(names@)[j]);
                            if j < old_names.len() {
                                assert(strings_view(names@)[j] == old_names[j]);
                            }
                        }
                        assert forall|a: int, b: int| 0 <= a < b < strings_view(names@).len() implies strings_view(names@)[a] != strings_view(names@)[b] by {
                            if b == old_names.len() {
                                assert(strings_view(names@)[a] == old_names[a]);
                                assert(names@[a]@ == old_names[a]);
                            }
                        }
                        assert forall|m: Seq<char>| !strings_view(names@).contains(m) implies #[trigger] named_positions(s.take(i + 1), m).len() == 0 by {
                            lemma_count_step(s, i as int, m);
                            assert(!old_names.contains(m)) by {
                                if old_names.contains(m) {
                                    let j = choose|j: int| 0 <= j < old_names.len() && old_names[j] == m;
                                    assert(strings_view(names@)[j] == m);
                                }
                            }
                            if m == n {
                                assert(strings_view(names@)[old_names.len() as int] == n);
                            }
                        }
                    }
                    0
                };
                let child = child_path(path.as_str(), c.local_name.as_str(), index);
                collect(c, &child, by_guid, key, out);
            },
            _ => {
                proof {
                    assert forall|j: int| 0 <= j < names@.len() implies #[trigger] counts@[j] == named_positions(s.take(i + 1), strings_view(names@)[j]).len() by {
                        lemma_count_step(s, i as int, strings_view(names@)[j]);
                    }
                    assert forall|m: Seq<char>| !strings_view(names@).contains(m) implies #[trigger] named_positions(s.take(i + 1), m).len() == 0 by {
                        lemma_count_step(s, i as int, m);
                    }
                }
            },
        }
        assert(strings_view(out@) =~= head + walk_children(s, path@, by_guid, key@, i + 1));
        i += 1;
    }
}

impl Document {
    /// Number of elements, the root included, whose local name is `name`
    /// (`usize::MAX` if there were more).
    pub fn count(&self, name: &str) -> (r: usize)
        ensures
            r == saturate(tree_count(self@.root, name@)),
    {
        count_tree(self.root(), name)
    }

    /// Paths, in document order, of the elements whose local name is `name`.
    pub fn element_paths(&self, name: &str) -> (r: Vec<String>)
        ensures
            strings_view(r@) == walk_paths(self@.root, "/idm"@, false, name@),
    {
        let mut found: Vec<String> = Vec::new();
        let start = owned("/idm");
        collect(self.root(), &start, false, name, &mut found);
        assert(strings_view(found@) =~= walk_paths(self@.root, "/idm"@, false, name@));
        found
    }

    /// Paths, in document order, of the elements whose first attribute with
    /// local name `guid` has the value `guid`.
    pub fn find_by_guid(&self, guid: &str) -> (r: Vec<String>)
        ensures
            strings_view(r@) == walk_paths(self@.root, "/idm"@, true, guid@),
    {
        let mut found: Vec<String> = Vec::new();
        let start = owned("/idm");
        collect(self.root(), &start, true, guid, &mut found);
        assert(strings_view(found@) =~= walk_paths(self@.root, "/idm"@, true, guid@));
        found
    }
}

} // verus!
