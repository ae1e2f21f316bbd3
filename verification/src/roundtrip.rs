//! The events that serializing a document writes, and the proof that the
//! verified builder turns exactly those events back into the document.
use vstd::prelude::*;
use crate::document::{DocumentView, DEFAULT_MAX_XML_DEPTH};
use crate::model::{ElementView, ErrorView, NodeView};
use crate::parse::{
    add_to_top, attach, build_document, build_finish, build_run, build_step, initial_state, namespace_of, parse_outcome,
    place_misc, read_outcome, token_of, with_trailing_text, xml_events, BuildState, ReadItem, XmlTokenView,
};
use crate::write::{all_misc, document_events, xml_text};

verus! {

/// The start tag of `e`: the element without its children.
pub open spec fn head(e: ElementView) -> ElementView {
    ElementView { children: Seq::empty(), ..e }
}

/// The events that writing `e` produces: a self-closing tag for an element
/// without children, else its start tag, the events of its children and its
/// end tag.
pub open spec fn element_tokens(e: ElementView) -> Seq<XmlTokenView>
    decreases e, 0int,
{
    if e.children.len() == 0 {
        seq![XmlTokenView::Empty(e)]
    } else {
        seq![XmlTokenView::Start(head(e))] + children_tokens(e.children, e.children.len() as int) + seq![XmlTokenView::End]
    }
}

/// The events of the first `upto` children.
pub open spec fn children_tokens(s: Seq<NodeView>, upto: int) -> Seq<XmlTokenView>
    decreases s, upto,
{
    if upto <= 0 || upto > s.len() {
        Seq::empty()
    } else {
        children_tokens(s, upto - 1) + match s[upto - 1] {
            NodeView::Element(c) => element_tokens(c),
            NodeView::Text(t) => seq![XmlTokenView::Text(t)],
            NodeView::Reference { name, text } => seq![XmlTokenView::Reference { name, text }],
            NodeView::CData(t) => seq![XmlTokenView::CData(t)],
            NodeView::Comment(t) => seq![XmlTokenView::Comment(t)],
            NodeView::ProcessingInstruction(t) => seq![XmlTokenView::ProcessingInstruction(t)],
        }
    }
}

/// The events of comments and processing instructions outside the root.
pub open spec fn misc_tokens(s: Seq<NodeView>) -> Seq<XmlTokenView>
    decreases s.len(),
{
    if s.len() == 0 {
        Seq::empty()
    } else {
        misc_tokens(s.drop_last()) + match s.last() {
            NodeView::ProcessingInstruction(t) => seq![XmlTokenView::ProcessingInstruction(t)],
            NodeView::Comment(t) => seq![XmlTokenView::Comment(t)],
            _ => Seq::empty(),
        }
    }
}

/// The events that `to_xml` writes for a document, in order: the XML
/// declaration, the prolog, the root element and the epilog.
pub open spec fn document_tokens(prolog: Seq<NodeView>, root: ElementView, epilog: Seq<NodeView>) -> Seq<XmlTokenView> {
    seq![XmlTokenView::Declaration] + misc_tokens(prolog) + element_tokens(root) + misc_tokens(epilog)
}

/// Whether no two text nodes follow each other among `s`.
pub open spec fn no_adjacent_text(s: Seq<NodeView>) -> bool {
    forall|i: int| 0 < i < s.len() ==> !(#[trigger] s[i] is Text && s[i - 1] is Text)
}

/// Whether the tree rooted at `e`, opened with `depth` elements already open,
/// stays within the nesting limit and holds no adjacent text nodes: the trees
/// that reading their own events gives back unchanged.
pub open spec fn rebuildable(e: ElementView, depth: nat) -> bool
    decreases e, 0int,
{
    depth < DEFAULT_MAX_XML_DEPTH && (e.children.len() == 0 || (no_adjacent_text(e.children)
        && children_rebuildable(e.children, depth + 1, e.children.len() as int)))
}

/// `rebuildable` for the element children among the first `upto`.
pub open spec fn children_rebuildable(s: Seq<NodeView>, depth: nat, upto: int) -> bool
    decreases s, upto,
{
    upto <= 0 || upto > s.len() || (children_rebuildable(s, depth, upto - 1) && match s[upto - 1] {
        NodeView::Element(c) => rebuildable(c, depth),
        _ => true,
    })
}

/// The state after the events `ts`, read from `st`.
pub open spec fn run_from(st: BuildState, ts: Seq<XmlTokenView>) -> Result<BuildState, ErrorView>
    decreases ts.len(),
{
    if ts.len() == 0 {
        Ok(st)
    } else {
        match run_from(st, ts.drop_last()) {
            Ok(s) => build_step(s, ts.last()),
            Err(e) => Err(e),
        }
    }
}

proof fn lemma_run_from_initial(ts: Seq<XmlTokenView>)
    ensures
        build_run(ts) == run_from(initial_state(), ts),
    decreases ts.len(),
{
    if ts.len() > 0 {
        lemma_run_from_initial(ts.drop_last());
    }
}

/// Reading `a` then `b` is reading `a + b`.
proof fn lemma_run_concat(st: BuildState, a: Seq<XmlTokenView>, b: Seq<XmlTokenView>)
    ensures
        run_from(st, a + b) == match run_from(st, a) {
            Ok(s) => run_from(s, b),
            Err(e) => Err(e),
        },
    decreases b.len(),
{
    if b.len() == 0 {
        assert(a + b =~= a);
    } else {
        lemma_run_concat(st, a, b.drop_last());
        assert((a + b).drop_last() =~= a + b.drop_last());
        assert((a + b).last() == b.last());
    }
}

proof fn lemma_run_one(st: BuildState, t: XmlTokenView)
    ensures
        run_from(st, seq![t]) == build_step(st, t),
{
    assert(seq![t].drop_last() =~= Seq::<XmlTokenView>::empty());
    assert(run_from(st, seq![t].drop_last()) == Ok::<BuildState, ErrorView>(st));
    assert(seq![t].last() == t);
}

/// `st` whose innermost open element is `top`.
pub open spec fn with_top(st: BuildState, top: ElementView) -> BuildState {
    BuildState { stack: st.stack.drop_last().push(top), ..st }
}

/// Reading the events of a rebuildable element completes it in place.
proof fn lemma_element_rebuilt(st: BuildState, e: ElementView)
    requires
        rebuildable(e, st.stack.len()),
    ensures
        run_from(st, element_tokens(e)) == attach(st, e),
    decreases e, 0int,
{
    if e.children.len() == 0 {
        lemma_run_one(st, XmlTokenView::Empty(e));
    } else {
        let opened = BuildState { stack: st.stack.push(head(e)), ..st };
        let start = seq![XmlTokenView::Start(head(e))];
        let kids = children_tokens(e.children, e.children.len() as int);
        let end = seq![XmlTokenView::End];
        assert(element_tokens(e) =~= start + kids + end);
        lemma_run_one(st, XmlTokenView::Start(head(e)));
        assert(run_from(st, start) == Ok::<BuildState, ErrorView>(opened));
        lemma_children_rebuilt(opened, e, e.children.len() as int);
        assert(e.children.take(e.children.len() as int) =~= e.children);
        let filled = with_top(opened, e);
        assert(run_from(opened, kids) == Ok::<BuildState, ErrorView>(filled));
        lemma_run_concat(st, start, kids);
        lemma_run_concat(st, start + kids, end);
        lemma_run_one(filled, XmlTokenView::End);
        assert(filled.stack.drop_last() =~= st.stack);
        assert((BuildState { stack: filled.stack.drop_last(), ..filled }) == st);
        assert(filled.stack.last() == e);
    }
}

/// Reading the events of the first `k` children of `e`, while `e` is the
/// innermost open element, gives it those children.
proof fn lemma_children_rebuilt(opened: BuildState, e: ElementView, k: int)
    requires
        opened.stack.len() > 0,
        opened.stack.last() == head(e),
        0 <= k <= e.children.len(),
        e.children.len() > 0,
        opened.stack.len() - 1 < DEFAULT_MAX_XML_DEPTH,
        no_adjacent_text(e.children),
        children_rebuildable(e.children, opened.stack.len(), e.children.len() as int),
    ensures
        run_from(opened, children_tokens(e.children, k))
            == Ok::<BuildState, ErrorView>(with_top(opened, ElementView { children: e.children.take(k), ..e })),
    decreases e.children, k,
{
    let s = e.children;
    if k == 0 {
        assert(s.take(0) =~= Seq::<NodeView>::empty());
        assert(children_tokens(s, 0) =~= Seq::<XmlTokenView>::empty());
        assert(opened.stack.drop_last().push(head(e)) =~= opened.stack);
        assert(with_top(opened, ElementView { children: s.take(0), ..e }) == opened);
    } else {
        lemma_children_rebuilt(opened, e, k - 1);
        lemma_children_rebuildable_prefix(s, opened.stack.len(), s.len() as int, k);
        let before = with_top(opened, ElementView { children: s.take(k - 1), ..e });
        let after = with_top(opened, ElementView { children: s.take(k), ..e });
        let top = ElementView { children: s.take(k - 1), ..e };
        assert(before.stack.last() == top);
        assert(s.take(k) =~= s.take(k - 1).push(s[k - 1]));
        let tail: Seq<XmlTokenView> = match s[k - 1] {
            NodeView::Element(c) => element_tokens(c),
            NodeView::Text(t) => seq![XmlTokenView::Text(t)],
            NodeView::Reference { name, text } => seq![XmlTokenView::Reference { name, text }],
            NodeView::CData(t) => seq![XmlTokenView::CData(t)],
            NodeView::Comment(t) => seq![XmlTokenView::Comment(t)],
            NodeView::ProcessingInstruction(t) => seq![XmlTokenView::ProcessingInstruction(t)],
        };
        assert(children_tokens(s, k) == children_tokens(s, k - 1) + tail);
        lemma_run_concat(opened, children_tokens(s, k - 1), tail);
        assert(before.stack.drop_last().push(ElementView { children: top.children.push(s[k - 1]), ..top }) =~= after.stack);
        assert(add_to_top(before, s[k - 1]) == after);
        match s[k - 1] {
            NodeView::Element(c) => {
                assert(before.stack.len() == opened.stack.len());
                lemma_element_rebuilt(before, c);
            },
            NodeView::Text(t) => {
                lemma_run_one(before, XmlTokenView::Text(t));
                if k > 1 {
                    assert(!(s[k - 1] is Text && s[k - 2] is Text));
                    assert(top.children.last() == s[k - 2]);
                }
                assert(with_trailing_text(top, t) == ElementView { children: top.children.push(NodeView::Text(t)), ..top });
            },
            NodeView::Reference { name, text } => {
                lemma_run_one(before, XmlTokenView::Reference { name, text });
            },
            NodeView::CData(t) => {
                lemma_run_one(before, XmlTokenView::CData(t));
            },
            NodeView::Comment(t) => {
                lemma_run_one(before, XmlTokenView::Comment(t));
                assert(place_misc(before, NodeView::Comment(t)) == add_to_top(before, NodeView::Comment(t)));
            },
            NodeView::ProcessingInstruction(t) => {
                lemma_run_one(before, XmlTokenView::ProcessingInstruction(t));
                assert(place_misc(before, NodeView::ProcessingInstruction(t)) == add_to_top(before, NodeView::ProcessingInstruction(t)));
            },
        }
    }
}

/// What holds of all children holds of each of the first `k`.
proof fn lemma_children_rebuildable_prefix(s: Seq<NodeView>, depth: nat, upto: int, k: int)
    requires
        children_rebuildable(s, depth, upto),
        0 < k <= upto <= s.len(),
    ensures
        children_rebuildable(s, depth, k),
        s[k - 1] matches NodeView::Element(c) ==> rebuildable(c, depth),
    decreases upto - k,
{
    if k < upto {
        lemma_children_rebuildable_prefix(s, depth, upto - 1, k);
    }
}

/// Reading the events of comments and processing instructions outside the
/// root places them there.
proof fn lemma_misc_rebuilt(st: BuildState, s: Seq<NodeView>)
    requires
        st.stack.len() == 0,
        all_misc(s),
    ensures
        run_from(st, misc_tokens(s)) == Ok::<BuildState, ErrorView>(if st.root is Some {
            BuildState { epilog: st.epilog + s, ..st }
        } else {
            BuildState { prolog: st.prolog + s, ..st }
        }),
    decreases s.len(),
{
    if s.len() == 0 {
        assert(st.epilog + s =~= st.epilog);
        assert(st.prolog + s =~= st.prolog);
    } else {
        let init = s.drop_last();
        assert forall|i: int| 0 <= i < init.len() implies crate::write::is_misc(#[trigger] init[i]) by {
            assert(init[i] == s[i]);
        }
        lemma_misc_rebuilt(st, init);
        let tail: Seq<XmlTokenView> = match s.last() {
            NodeView::ProcessingInstruction(t) => seq![XmlTokenView::ProcessingInstruction(t)],
            NodeView::Comment(t) => seq![XmlTokenView::Comment(t)],
            _ => Seq::empty(),
        };
        lemma_run_concat(st, misc_tokens(init), tail);
        assert(crate::write::is_misc(s[s.len() - 1]));
        let mid = if st.root is Some {
            BuildState { epilog: st.epilog + init, ..st }
        } else {
            BuildState { prolog: st.prolog + init, ..st }
        };
        match s.last() {
            NodeView::ProcessingInstruction(t) => lemma_run_one(mid, XmlTokenView::ProcessingInstruction(t)),
            NodeView::Comment(t) => lemma_run_one(mid, XmlTokenView::Comment(t)),
            _ => {},
        }
        assert(st.epilog + init.push(s.last()) =~= st.epilog + s);
        assert(st.prolog + init.push(s.last()) =~= st.prolog + s);
        assert(init.push(s.last()) =~= s);
        assert((st.epilog + init).push(s.last()) =~= st.epilog + s);
        assert((st.prolog + init).push(s.last()) =~= st.prolog + s);
    }
}

/// Reading back what writing a document produces gives the document: the
/// verified builder turns the events of prolog, root and epilog into exactly
/// that prolog, root and epilog, for every tree within the nesting limit
/// whose text nodes are never adjacent.
pub proof fn law_written_events_read_back(prolog: Seq<NodeView>, root: ElementView, epilog: Seq<NodeView>)
    requires
        all_misc(prolog),
        all_misc(epilog),
        rebuildable(root, 0),
    ensures
        build_document(document_tokens(prolog, root, epilog))
            == Ok::<(Seq<NodeView>, ElementView, Seq<NodeView>), ErrorView>((prolog, root, epilog)),
{
    let st0 = initial_state();
    let decl = seq![XmlTokenView::Declaration];
    let ts = document_tokens(prolog, root, epilog);
    lemma_run_from_initial(ts);
    lemma_run_one(st0, XmlTokenView::Declaration);
    let st1 = BuildState { prolog: st0.prolog + prolog, ..st0 };
    lemma_misc_rebuilt(st0, prolog);
    lemma_run_concat(st0, decl, misc_tokens(prolog));
    assert(st0.prolog + prolog =~= prolog);
    lemma_element_rebuilt(st1, root);
    let st2 = BuildState { root: Some(root), ..st1 };
    assert(attach(st1, root) == Ok::<BuildState, ErrorView>(st2));
    lemma_run_concat(st0, decl + misc_tokens(prolog), element_tokens(root));
    lemma_misc_rebuilt(st2, epilog);
    lemma_run_concat(st0, decl + misc_tokens(prolog) + element_tokens(root), misc_tokens(epilog));
    assert(st2.epilog + epilog =~= epilog);
    let st3 = BuildState { epilog: st2.epilog + epilog, ..st2 };
    assert(build_finish(st3) == Ok::<(Seq<NodeView>, ElementView, Seq<NodeView>), ErrorView>((prolog, root, epilog)));
}

/// Whether the reader gives, on `xml`, event `n - 1` as `item` and that event
/// makes the token `t`: its name resolves, and its content is that of `t`.
pub open spec fn reads_token(xml: Seq<char>, n: nat, item: ReadItem, t: XmlTokenView) -> bool {
    &&& item matches Ok((resolution, ev))
    &&& !(ev is Eof)
    &&& namespace_of(resolution) matches Ok(namespace)
    &&& token_of(xml, n, namespace, ev, 0) == Ok::<XmlTokenView, ErrorView>(t)
}

/// Whether the reader's events `items` on `xml` are the tokens `ts`, one
/// event each, followed by the end of input.
pub open spec fn reads_as(xml: Seq<char>, items: Seq<ReadItem>, ts: Seq<XmlTokenView>) -> bool {
    &&& items.len() == ts.len() + 1
    &&& items.last() matches Ok((resolution, ev))
    &&& ev is Eof
    &&& namespace_of(resolution) is Ok
    &&& forall|k: int| 0 <= k < ts.len() ==> reads_token(xml, (k + 1) as nat, #[trigger] items[k], ts[k])
}

/// Reading events that are the tokens `ts[k..]` does what the builder does
/// with those tokens.
proof fn lemma_read_as_built(xml: Seq<char>, items: Seq<ReadItem>, ts: Seq<XmlTokenView>, k: nat, st: BuildState)
    requires
        reads_as(xml, items, ts),
        k <= ts.len(),
    ensures
        read_outcome(xml, items, k, st) == match run_from(st, ts.skip(k as int)) {
            Ok(s) => build_finish(s),
            Err(e) => Err(e),
        },
    decreases ts.len() - k,
{
    if k == ts.len() {
        assert(ts.skip(k as int) =~= Seq::<XmlTokenView>::empty());
        assert(items[k as int] == items.last());
    } else {
        let t = ts[k as int];
        assert(reads_token(xml, (k + 1) as nat, items[k as int], t));
        assert(ts.skip(k as int) =~= seq![t] + ts.skip(k + 1 as int));
        lemma_run_concat(st, seq![t], ts.skip(k + 1 as int));
        lemma_run_one(st, t);
        match build_step(st, t) {
            Ok(next) => lemma_read_as_built(xml, items, ts, k + 1, next),
            Err(_) => {},
        }
    }
}

/// Parsing the text that serializing `d` writes (without indentation) gives
/// `d` back, for every document within the nesting limit whose text nodes
/// are never adjacent and that holds only comments and processing
/// instructions outside its root, provided that the reader reads that text
/// as the events that were written, one event per token of the document.
pub proof fn law_serialized_text_parses_back(d: DocumentView)
    requires
        all_misc(d.prolog),
        all_misc(d.epilog),
        rebuildable(d.root, 0),
        reads_as(
            xml_text(false, document_events(d)),
            xml_events(xml_text(false, document_events(d))),
            document_tokens(d.prolog, d.root, d.epilog),
        ),
    ensures
        parse_outcome(xml_text(false, document_events(d)), d.max_xml_bytes) == Ok::<DocumentView, ErrorView>(d),
{
    let xml = xml_text(false, document_events(d));
    let ts = document_tokens(d.prolog, d.root, d.epilog);
    lemma_read_as_built(xml, xml_events(xml), ts, 0, initial_state());
    assert(ts.skip(0) =~= ts);
    lemma_run_from_initial(ts);
    law_written_events_read_back(d.prolog, d.root, d.epilog);
    assert(d =~= (DocumentView { prolog: d.prolog, root: d.root, epilog: d.epilog, max_xml_bytes: d.max_xml_bytes }));
}

} // verus!
