//! Deletes invisible elements: `display="none"`, zero opacity, zero-radius
//! circles and zero-sized rectangles.
use vstd::prelude::*;

use crate::plugins::Plugin;
use crate::tree::{Document, Element, Node, NodeView, node_view, nodes_view, nodes_view_len,
    nodes_view_index, attrs_get};
use crate::text::string_is;

verus! {

pub struct RemoveHiddenElems;

/// The element is one this pass deletes, with its whole subtree.
pub open spec fn spec_is_hidden(name: Seq<char>, attrs: Seq<(Seq<char>, Seq<char>)>) -> bool {
    attrs_get(attrs, "display"@) == Some("none"@) || attrs_get(attrs, "opacity"@)
        == Some("0"@) || (name == "circle"@ && attrs_get(attrs, "r"@) == Some("0"@)) || (name
        == "rect"@ && (attrs_get(attrs, "width"@) == Some("0"@) || attrs_get(attrs, "height"@)
        == Some("0"@)))
}

/// The node sequence with every such element removed, at every depth.
pub open spec fn spec_remove_hidden(nodes: Seq<NodeView>) -> Seq<NodeView>
    decreases nodes,
{
    if nodes.len() == 0 {
        Seq::empty()
    } else {
        let rest = spec_remove_hidden(nodes.subrange(1, nodes.len() as int));
        match nodes[0] {
            NodeView::Element { name, attrs, children } => {
                if spec_is_hidden(name, attrs) {
                    rest
                } else {
                    seq![
                        NodeView::Element { name, attrs, children: spec_remove_hidden(children) }
                    ] + rest
                }
            },
            other => seq![other] + rest,
        }
    }
}

#[verifier::loop_isolation(false)]
fn strip_hidden(mut nodes: Vec<Node>) -> (r: Vec<Node>)
    ensures
        nodes_view(r@) == spec_remove_hidden(nodes_view(nodes@)),
    decreases nodes,
{
    broadcast use nodes_view_len, nodes_view_index;

    let ghost orig = nodes;
    let mut out: Vec<Node> = Vec::new();
    let ghost mut i: int = 0;
    while nodes.len() > 0
        invariant
            0 <= i <= orig@.len(),
            nodes@ =~= orig@.subrange(i, orig@.len() as int),
            nodes_view(out@) + spec_remove_hidden(nodes_view(nodes@)) =~= spec_remove_hidden(
                nodes_view(orig@),
            ),
        decreases nodes@.len(),
    {
        proof {
            assert(nodes_view(nodes@).subrange(1, nodes_view(nodes@).len() as int) =~= nodes_view(
                nodes@.subrange(1, nodes@.len() as int),
            ));
        }
        let ghost prev_out = out@;
        let node = nodes.remove(0);
        proof {
            assert(node == orig@[i]);
            assert(decreases_to!(orig => orig@));
            assert(decreases_to!(orig@ => orig@[i]));
        }
        match node {
            Node::Element(e) => {
                if crate::tree::attr_is(&e.attributes, "display", "none") || crate::tree::attr_is(
                    &e.attributes,
                    "opacity",
                    "0",
                ) || (string_is(&e.name, "circle") && crate::tree::attr_is(&e.attributes, "r", "0"))
                    || (string_is(&e.name, "rect") && (crate::tree::attr_is(
                    &e.attributes,
                    "width",
                    "0",
                ) || crate::tree::attr_is(&e.attributes, "height", "0"))) {
                    // dropped, with its subtree
                } else {
                    proof {
                        assert(orig@[i] == Node::Element(e));
                        assert(decreases_to!(orig@[i] => e.children));
                        assert(decreases_to!(orig => e.children));
                    }
                    let kids = strip_hidden(e.children);
                    let e2 = Element { name: e.name, attributes: e.attributes, children: kids };
                    out.push(Node::Element(e2));
                    proof {
                        assert(nodes_view(out@) =~= nodes_view(prev_out).push(node_view(
                            Node::Element(e2),
                        )));
                    }
                }
            },
            other => {
                out.push(other);
                proof {
                    assert(nodes_view(out@) =~= nodes_view(prev_out).push(node_view(
                        out@.last(),
                    )));
                }
            },
        }
        proof {
            i = i + 1;
        }
    }
    proof {
        assert(nodes_view(nodes@) =~= Seq::<NodeView>::empty());
    }
    out
}

/// Remove every hidden element below `nodes`, in place.
pub fn remove_hidden_elems_from_nodes(nodes: &mut Vec<Node>)
    ensures
        nodes_view(final (nodes)@) == spec_remove_hidden(nodes_view(old(nodes)@)),
{
    let mut v: Vec<Node> = Vec::new();
    core::mem::swap(nodes, &mut v);
    let mut v2 = strip_hidden(v);
    core::mem::swap(nodes, &mut v2);
}

impl Plugin for RemoveHiddenElems {
    fn apply(&self, doc: &mut Document) {
        remove_hidden_elems_from_nodes(&mut doc.root);
    }
}


/// No element this pass deletes occurs anywhere in the sequence.
pub open spec fn spec_no_hidden(nodes: Seq<NodeView>) -> bool
    decreases nodes,
{
    if nodes.len() == 0 {
        true
    } else {
        let rest = spec_no_hidden(nodes.subrange(1, nodes.len() as int));
        match nodes[0] {
            NodeView::Element { name, attrs, children } => !spec_is_hidden(name, attrs) && spec_no_hidden(
                children,
            ) && rest,
            _ => rest,
        }
    }
}

/// After the pass, no such element is left at any depth.
pub proof fn lemma_remove_hidden_complete(nodes: Seq<NodeView>)
    ensures
        spec_no_hidden(spec_remove_hidden(nodes)),
    decreases nodes,
{
    if nodes.len() > 0 {
        let tail = nodes.subrange(1, nodes.len() as int);
        lemma_remove_hidden_complete(tail);
        let rest = spec_remove_hidden(tail);
        match nodes[0] {
            NodeView::Element { name, attrs, children } => {
                if !spec_is_hidden(name, attrs) {
                    lemma_remove_hidden_complete(children);
                    let head = NodeView::Element {
                        name,
                        attrs,
                        children: spec_remove_hidden(children),
                    };
                    let whole = seq![head] + rest;
                    assert(whole[0] == head);
                    assert(whole.subrange(1, whole.len() as int) =~= rest);
                }
            },
            other => {
                let whole = seq![other] + rest;
                assert(whole[0] == other);
                assert(whole.subrange(1, whole.len() as int) =~= rest);
            },
        }
    }
}

/// On a sequence without such elements the pass changes nothing.
pub proof fn lemma_remove_hidden_stable(nodes: Seq<NodeView>)
    requires
        spec_no_hidden(nodes),
    ensures
        spec_remove_hidden(nodes) == nodes,
    decreases nodes,
{
    if nodes.len() > 0 {
        let tail = nodes.subrange(1, nodes.len() as int);
        lemma_remove_hidden_stable(tail);
        match nodes[0] {
            NodeView::Element { name, attrs, children } => {
                lemma_remove_hidden_stable(children);
                assert(spec_remove_hidden(nodes) =~= nodes);
            },
            other => {
                assert(spec_remove_hidden(nodes) =~= nodes);
            },
        }
    }
}

/// The pass is idempotent: a second run returns its input unchanged.
pub proof fn lemma_remove_hidden_idempotent(nodes: Seq<NodeView>)
    ensures
        spec_remove_hidden(spec_remove_hidden(nodes)) == spec_remove_hidden(nodes),
{
    lemma_remove_hidden_complete(nodes);
    lemma_remove_hidden_stable(spec_remove_hidden(nodes));
}

} // verus!
