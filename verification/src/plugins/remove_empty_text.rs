//! Deletes whitespace-only text nodes, honouring `xml:space="preserve"`.
use vstd::prelude::*;

use crate::plugins::Plugin;
use crate::tree::{Document, Element, Node, NodeView, node_view, nodes_view, nodes_view_len,
    nodes_view_index, attrs_get};
use crate::text::{all_space, str_all_space};

verus! {

pub struct RemoveEmptyText;

/// The whitespace mode below an element: `xml:space="preserve"` switches
/// preservation on, `xml:space="default"` switches it off, anything else
/// inherits.
pub open spec fn spec_space_mode(attrs: Seq<(Seq<char>, Seq<char>)>, inherited: bool) -> bool {
    if attrs_get(attrs, "xml:space"@) == Some("preserve"@) {
        true
    } else if attrs_get(attrs, "xml:space"@) == Some("default"@) {
        false
    } else {
        inherited
    }
}

/// Whitespace-only text nodes removed, except where preservation is in
/// force.
pub open spec fn spec_remove_empty_text(nodes: Seq<NodeView>, preserve: bool) -> Seq<NodeView>
    decreases nodes,
{
    if nodes.len() == 0 {
        Seq::empty()
    } else {
        let rest = spec_remove_empty_text(nodes.subrange(1, nodes.len() as int), preserve);
        match nodes[0] {
            NodeView::Text(t) => {
                if !preserve && all_space(t) {
                    rest
                } else {
                    seq![NodeView::Text(t)] + rest
                }
            },
            NodeView::Element { name, attrs, children } => seq![
                NodeView::Element {
                    name,
                    attrs,
                    children: spec_remove_empty_text(children, spec_space_mode(attrs, preserve)),
                }
            ] + rest,
            other => seq![other] + rest,
        }
    }
}

#[verifier::loop_isolation(false)]
fn strip_empty_text(mut nodes: Vec<Node>, preserve: bool) -> (r: Vec<Node>)
    ensures
        nodes_view(r@) == spec_remove_empty_text(nodes_view(nodes@), preserve),
    decreases nodes,
{
    broadcast use nodes_view_len, nodes_view_index;

    let ghost orig = nodes;
    let mut out: Vec<Node> = Vec::new();
    let ghost mut i: int = 0;
    while nodes.len() > 0
        invariant
            0 <= i <= orig@.len(),
            nodes@ =~= orig@.subrange(i, orig@.len() as int),
            nodes_view(out@) + spec_remove_empty_text(nodes_view(nodes@), preserve)
                =~= spec_remove_empty_text(nodes_view(orig@), preserve),
        decreases nodes@.len(),
    {
        proof {
            assert(nodes_view(nodes@).subrange(1, nodes_view(nodes@).len() as int) =~= nodes_view(
                nodes@.subrange(1, nodes@.len() as int),
            ));
        }
        let ghost prev_out = out@;
        let node = nodes.remove(0);
        proof {
            assert(node == orig@[i]);
            assert(decreases_to!(orig => orig@));
            assert(decreases_to!(orig@ => orig@[i]));
        }
        match node {
            Node::Text(t) => {
                if !preserve && str_all_space(t.as_str()) {
                    // dropped
                } else {
                    out.push(Node::Text(t));
                    proof {
                        assert(nodes_view(out@) =~= nodes_view(prev_out).push(node_view(
                            out@.last(),
                        )));
                    }
                }
            },
            Node::Element(e) => {
                proof {
                    assert(orig@[i] == Node::Element(e));
                    assert(decreases_to!(orig@[i] => e.children));
                    assert(decreases_to!(orig => e.children));
                }
                let mode = if crate::tree::attr_is(&e.attributes, "xml:space", "preserve") {
                    true
                } else if crate::tree::attr_is(&e.attributes, "xml:space", "default") {
                    false
                } else {
                    preserve
                };
                let kids = strip_empty_text(e.children, mode);
                let e2 = Element { name: e.name, attributes: e.attributes, children: kids };
                out.push(Node::Element(e2));
                proof {
                    assert(nodes_view(out@) =~= nodes_view(prev_out).push(node_view(
                        Node::Element(e2),
                    )));
                }
            },
            other => {
                out.push(other);
                proof {
                    assert(nodes_view(out@) =~= nodes_view(prev_out).push(node_view(
                        out@.last(),
                    )));
                }
            },
        }
        proof {
            i = i + 1;
        }
    }
    proof {
        assert(nodes_view(nodes@) =~= Seq::<NodeView>::empty());
    }
    out
}

/// Remove removable whitespace-only text nodes below `nodes`, in place.
/// `preserve` is the inherited whitespace mode.
pub fn remove_empty_text_from_nodes(nodes: &mut Vec<Node>, preserve: bool)
    ensures
        nodes_view(final (nodes)@) == spec_remove_empty_text(nodes_view(old(nodes)@), preserve),
{
    let mut v: Vec<Node> = Vec::new();
    core::mem::swap(nodes, &mut v);
    let mut v2 = strip_empty_text(v, preserve);
    core::mem::swap(nodes, &mut v2);
}

impl Plugin for RemoveEmptyText {
    fn apply(&self, doc: &mut Document) {
        remove_empty_text_from_nodes(&mut doc.root, false);
    }
}


/// No removable whitespace-only text node is left, given the inherited
/// whitespace mode.
pub open spec fn spec_text_clean(nodes: Seq<NodeView>, preserve: bool) -> bool
    decreases nodes,
{
    if nodes.len() == 0 {
        true
    } else {
        let rest = spec_text_clean(nodes.subrange(1, nodes.len() as int), preserve);
        match nodes[0] {
            NodeView::Text(t) => !(!preserve && all_space(t)) && rest,
            NodeView::Element { attrs, children, .. } => spec_text_clean(
                children,
                spec_space_mode(attrs, preserve),
            ) && rest,
            _ => rest,
        }
    }
}

/// After the pass, no removable text node is left.
pub proof fn lemma_remove_empty_text_complete(nodes: Seq<NodeView>, preserve: bool)
    ensures
        spec_text_clean(spec_remove_empty_text(nodes, preserve), preserve),
    decreases nodes,
{
    if nodes.len() > 0 {
        let tail = nodes.subrange(1, nodes.len() as int);
        lemma_remove_empty_text_complete(tail, preserve);
        let rest = spec_remove_empty_text(tail, preserve);
        match nodes[0] {
            NodeView::Text(t) => {
                if !(!preserve && all_space(t)) {
                    let whole = seq![NodeView::Text(t)] + rest;
                    assert(whole[0] == NodeView::Text(t));
                    assert(whole.subrange(1, whole.len() as int) =~= rest);
                }
            },
            NodeView::Element { name, attrs, children } => {
                lemma_remove_empty_text_complete(children, spec_space_mode(attrs, preserve));
                let head = NodeView::Element {
                    name,
                    attrs,
                    children: spec_remove_empty_text(children, spec_space_mode(attrs, preserve)),
                };
                let whole = seq![head] + rest;
                assert(whole[0] == head);
                assert(whole.subrange(1, whole.len() as int) =~= rest);
            },
            other => {
                let whole = seq![other] + rest;
                assert(whole[0] == other);
                assert(whole.subrange(1, whole.len() as int) =~= rest);
            },
        }
    }
}

/// On a clean sequence the pass changes nothing.
pub proof fn lemma_remove_empty_text_stable(nodes: Seq<NodeView>, preserve: bool)
    requires
        spec_text_clean(nodes, preserve),
    ensures
        spec_remove_empty_text(nodes, preserve) == nodes,
    decreases nodes,
{
    if nodes.len() > 0 {
        let tail = nodes.subrange(1, nodes.len() as int);
        lemma_remove_empty_text_stable(tail, preserve);
        match nodes[0] {
            NodeView::Element { name, attrs, children } => {
                lemma_remove_empty_text_stable(children, spec_space_mode(attrs, preserve));
                assert(spec_remove_empty_text(nodes, preserve) =~= nodes);
            },
            _ => {
                assert(spec_remove_empty_text(nodes, preserve) =~= nodes);
            },
        }
    }
}

/// The pass is idempotent: a second run returns its input unchanged.
pub proof fn lemma_remove_empty_text_idempotent(nodes: Seq<NodeView>, preserve: bool)
    ensures
        spec_remove_empty_text(spec_remove_empty_text(nodes, preserve), preserve)
            == spec_remove_empty_text(nodes, preserve),
{
    lemma_remove_empty_text_complete(nodes, preserve);
    lemma_remove_empty_text_stable(spec_remove_empty_text(nodes, preserve), preserve);
}

} // verus!
