//! Deletes every `script` element, at every depth.
use vstd::prelude::*;

use crate::plugins::Plugin;
use crate::tree::{Document, Element, Node, NodeView, node_view, nodes_view, nodes_view_len,
    nodes_view_index, attrs_get};
use crate::text::string_is;

verus! {

pub struct RemoveScriptElement;

/// The element is one this pass deletes, with its whole subtree.
pub open spec fn spec_is_script(name: Seq<char>, attrs: Seq<(Seq<char>, Seq<char>)>) -> bool {
    name == "script"@
}

/// The node sequence with every such element removed, at every depth.
pub open spec fn spec_remove_scripts(nodes: Seq<NodeView>) -> Seq<NodeView>
    decreases nodes,
{
    if nodes.len() == 0 {
        Seq::empty()
    } else {
        let rest = spec_remove_scripts(nodes.subrange(1, nodes.len() as int));
        match nodes[0] {
            NodeView::Element { name, attrs, children } => {
                if spec_is_script(name, attrs) {
                    rest
                } else {
                    seq![
                        NodeView::Element { name, attrs, children: spec_remove_scripts(children) }
                    ] + rest
                }
            },
            other => seq![other] + rest,
        }
    }
}

#[verifier::loop_isolation(false)]
fn strip_scripts(mut nodes: Vec<Node>) -> (r: Vec<Node>)
    ensures
        nodes_view(r@) == spec_remove_scripts(nodes_view(nodes@)),
    decreases nodes,
{
    broadcast use nodes_view_len, nodes_view_index;

    let ghost orig = nodes;
    let mut out: Vec<Node> = Vec::new();
    let ghost mut i: int = 0;
    while nodes.len() > 0
        invariant
            0 <= i <= orig@.len(),
            nodes@ =~= orig@.subrange(i, orig@.len() as int),
            nodes_view(out@) + spec_remove_scripts(nodes_view(nodes@)) =~= spec_remove_scripts(
                nodes_view(orig@),
            ),
        decreases nodes@.len(),
    {
        proof {
            assert(nodes_view(nodes@).subrange(1, nodes_view(nodes@).len() as int) =~= nodes_view(
                nodes@.subrange(1, nodes@.len() as int),
            ));
        }
        let ghost prev_out = out@;
        let node = nodes.remove(0);
        proof {
            assert(node == orig@[i]);
            assert(decreases_to!(orig => orig@));
            assert(decreases_to!(orig@ => orig@[i]));
        }
        match node {
            Node::Element(e) => {
                if string_is(&e.name, "script") {
                    // dropped, with its subtree
                } else {
                    proof {
                        assert(orig@[i] == Node::Element(e));
                        assert(decreases_to!(orig@[i] => e.children));
                        assert(decreases_to!(orig => e.children));
                    }
                    let kids = strip_scripts(e.children);
                    let e2 = Element { name: e.name, attributes: e.attributes, children: kids };
                    out.push(Node::Element(e2));
                    proof {
                        assert(nodes_view(out@) =~= nodes_view(prev_out).push(node_view(
                            Node::Element(e2),
                        )));
                    }
                }
            },
            other => {
                out.push(other);
                proof {
                    assert(nodes_view(out@) =~= nodes_view(prev_out).push(node_view(
                        out@.last(),
                    )));
                }
            },
        }
        proof {
            i = i + 1;
        }
    }
    proof {
        assert(nodes_view(nodes@) =~= Seq::<NodeView>::empty());
    }
    out
}

/// Remove every `script` element below `nodes`, in place.
pub fn remove_script_recursive(nodes: &mut Vec<Node>)
    ensures
        nodes_view(final (nodes)@) == spec_remove_scripts(nodes_view(old(nodes)@)),
{
    let mut v: Vec<Node> = Vec::new();
    core::mem::swap(nodes, &mut v);
    let mut v2 = strip_scripts(v);
    core::mem::swap(nodes, &mut v2);
}

impl Plugin for RemoveScriptElement {
    fn apply(&self, doc: &mut Document) {
        remove_script_recursive(&mut doc.root);
    }
}


/// No element this pass deletes occurs anywhere in the sequence.
pub open spec fn spec_no_scripts(nodes: Seq<NodeView>) -> bool
    decreases nodes,
{
    if nodes.len() == 0 {
        true
    } else {
        let rest = spec_no_scripts(nodes.subrange(1, nodes.len() as int));
        match nodes[0] {
            NodeView::Element { name, attrs, children } => !spec_is_script(name, attrs) && spec_no_scripts(
                children,
            ) && rest,
            _ => rest,
        }
    }
}

/// After the pass, no such element is left at any depth.
pub proof fn lemma_remove_scripts_complete(nodes: Seq<NodeView>)
    ensures
        spec_no_scripts(spec_remove_scripts(nodes)),
    decreases nodes,
{
    if nodes.len() > 0 {
        let tail = nodes.subrange(1, nodes.len() as int);
        lemma_remove_scripts_complete(tail);
        let rest = spec_remove_scripts(tail);
        match nodes[0] {
            NodeView::Element { name, attrs, children } => {
                if !spec_is_script(name, attrs) {
                    lemma_remove_scripts_complete(children);
                    let head = NodeView::Element {
                        name,
                        attrs,
                        children: spec_remove_scripts(children),
                    };
                    let whole = seq![head] + rest;
                    assert(whole[0] == head);
                    assert(whole.subrange(1, whole.len() as int) =~= rest);
                }
            },
            other => {
                let whole = seq![other] + rest;
                assert(whole[0] == other);
                assert(whole.subrange(1, whole.len() as int) =~= rest);
            },
        }
    }
}

/// On a sequence without such elements the pass changes nothing.
pub proof fn lemma_remove_scripts_stable(nodes: Seq<NodeView>)
    requires
        spec_no_scripts(nodes),
    ensures
        spec_remove_scripts(nodes) == nodes,
    decreases nodes,
{
    if nodes.len() > 0 {
        let tail = nodes.subrange(1, nodes.len() as int);
        lemma_remove_scripts_stable(tail);
        match nodes[0] {
            NodeView::Element { name, attrs, children } => {
                lemma_remove_scripts_stable(children);
                assert(spec_remove_scripts(nodes) =~= nodes);
            },
            other => {
                assert(spec_remove_scripts(nodes) =~= nodes);
            },
        }
    }
}

/// The pass is idempotent: a second run returns its input unchanged.
pub proof fn lemma_remove_scripts_idempotent(nodes: Seq<NodeView>)
    ensures
        spec_remove_scripts(spec_remove_scripts(nodes)) == spec_remove_scripts(nodes),
{
    lemma_remove_scripts_complete(nodes);
    lemma_remove_scripts_stable(spec_remove_scripts(nodes));
}

} // verus!
