//! Deletes every comment node, at every depth.
use vstd::prelude::*;

use crate::plugins::Plugin;
use crate::tree::{Document, Element, Node, NodeView, node_view, nodes_view, nodes_view_len,
    nodes_view_index, doc_view};

verus! {

pub struct RemoveComments;

/// The node sequence with every comment removed, at every depth.
pub open spec fn spec_remove_comments(nodes: Seq<NodeView>) -> Seq<NodeView>
    decreases nodes,
{
    if nodes.len() == 0 {
        Seq::empty()
    } else {
        let rest = spec_remove_comments(nodes.subrange(1, nodes.len() as int));
        match nodes[0] {
            NodeView::Comment(_) => rest,
            NodeView::Element { name, attrs, children } => seq![
                NodeView::Element { name, attrs, children: spec_remove_comments(children) }
            ] + rest,
            other => seq![other] + rest,
        }
    }
}

#[verifier::loop_isolation(false)]
fn strip_comments(mut nodes: Vec<Node>) -> (r: Vec<Node>)
    ensures
        nodes_view(r@) == spec_remove_comments(nodes_view(nodes@)),
    decreases nodes,
{
    broadcast use nodes_view_len, nodes_view_index;

    let ghost orig = nodes;
    let mut out: Vec<Node> = Vec::new();
    let ghost mut i: int = 0;
    while nodes.len() > 0
        invariant
            0 <= i <= orig@.len(),
            nodes@ =~= orig@.subrange(i, orig@.len() as int),
            nodes_view(out@) + spec_remove_comments(nodes_view(nodes@)) =~= spec_remove_comments(
                nodes_view(orig@),
            ),
        decreases nodes@.len(),
    {
        proof {
            assert(nodes_view(nodes@).subrange(1, nodes_view(nodes@).len() as int) =~= nodes_view(
                nodes@.subrange(1, nodes@.len() as int),
            ));
        }
        let ghost prev_out = out@;
        let node = nodes.remove(0);
        proof {
            assert(node == orig@[i]);
            assert(decreases_to!(orig => orig@));
            assert(decreases_to!(orig@ => orig@[i]));
        }
        match node {
            Node::Comment(_) => {},
            Node::Element(e) => {
                proof {
                    assert(orig@[i] == Node::Element(e));
                    assert(decreases_to!(orig@[i] => e.children));
                    assert(decreases_to!(orig => e.children));
                }
                let kids = strip_comments(e.children);
                let e2 = Element { name: e.name, attributes: e.attributes, children: kids };
                out.push(Node::Element(e2));
                proof {
                    assert(nodes_view(out@) =~= nodes_view(prev_out).push(node_view(
                        Node::Element(e2),
                    )));
                }
            },
            other => {
                out.push(other);
                proof {
                    assert(nodes_view(out@) =~= nodes_view(prev_out).push(node_view(
                        out@.last(),
                    )));
                }
            },
        }
        proof {
            i = i + 1;
        }
    }
    proof {
        assert(nodes_view(nodes@) =~= Seq::<NodeView>::empty());
    }
    out
}

/// Remove every comment node below `nodes`, in place.
pub fn remove_comments_from_nodes(nodes: &mut Vec<Node>)
    ensures
        nodes_view(final (nodes)@) == spec_remove_comments(nodes_view(old(nodes)@)),
{
    let mut v: Vec<Node> = Vec::new();
    core::mem::swap(nodes, &mut v);
    let mut v2 = strip_comments(v);
    core::mem::swap(nodes, &mut v2);
}

impl Plugin for RemoveComments {
    fn apply(&self, doc: &mut Document) {
        remove_comments_from_nodes(&mut doc.root);
    }
}


/// No comment node occurs anywhere in the sequence.
pub open spec fn spec_no_comments(nodes: Seq<NodeView>) -> bool
    decreases nodes,
{
    if nodes.len() == 0 {
        true
    } else {
        let rest = spec_no_comments(nodes.subrange(1, nodes.len() as int));
        match nodes[0] {
            NodeView::Comment(_) => false,
            NodeView::Element { children, .. } => spec_no_comments(children) && rest,
            _ => rest,
        }
    }
}

/// After the pass, no comment is left at any depth.
pub proof fn lemma_remove_comments_complete(nodes: Seq<NodeView>)
    ensures
        spec_no_comments(spec_remove_comments(nodes)),
    decreases nodes,
{
    if nodes.len() > 0 {
        let tail = nodes.subrange(1, nodes.len() as int);
        lemma_remove_comments_complete(tail);
        let rest = spec_remove_comments(tail);
        match nodes[0] {
            NodeView::Comment(_) => {},
            NodeView::Element { name, attrs, children } => {
                lemma_remove_comments_complete(children);
                let head = NodeView::Element {
                    name,
                    attrs,
                    children: spec_remove_comments(children),
                };
                let whole = seq![head] + rest;
                assert(whole[0] == head);
                assert(whole.subrange(1, whole.len() as int) =~= rest);
            },
            other => {
                let whole = seq![other] + rest;
                assert(whole[0] == other);
                assert(whole.subrange(1, whole.len() as int) =~= rest);
            },
        }
    }
}

/// On a sequence without comments the pass changes nothing.
pub proof fn lemma_remove_comments_stable(nodes: Seq<NodeView>)
    requires
        spec_no_comments(nodes),
    ensures
        spec_remove_comments(nodes) == nodes,
    decreases nodes,
{
    if nodes.len() > 0 {
        let tail = nodes.subrange(1, nodes.len() as int);
        lemma_remove_comments_stable(tail);
        match nodes[0] {
            NodeView::Comment(_) => {},
            NodeView::Element { name, attrs, children } => {
                lemma_remove_comments_stable(children);
                assert(spec_remove_comments(nodes) =~= nodes);
            },
            other => {
                assert(spec_remove_comments(nodes) =~= nodes);
            },
        }
    }
}

/// Removing comments is idempotent: a second run of the pass returns its
/// input unchanged.
pub proof fn lemma_remove_comments_idempotent(nodes: Seq<NodeView>)
    ensures
        spec_remove_comments(spec_remove_comments(nodes)) == spec_remove_comments(nodes),
{
    lemma_remove_comments_complete(nodes);
    lemma_remove_comments_stable(spec_remove_comments(nodes));
}

} // verus!
