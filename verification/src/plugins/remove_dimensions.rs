//! Deletes `width` and `height` from `svg` elements that carry a `viewBox`.
use vstd::prelude::*;

use crate::plugins::Plugin;
use crate::tree::{Document, Element, Node, NodeView, node_view, nodes_view, nodes_view_len,
    nodes_view_index, attrs_has, attrs_get, attrs_remove, spec_unique_tree};
use crate::text::string_is;

verus! {

pub struct RemoveDimensions;

/// `width` and `height` dropped from every `svg` element that has a
/// `viewBox`, at every depth.
pub open spec fn spec_remove_dimensions(nodes: Seq<NodeView>) -> Seq<NodeView>
    decreases nodes,
{
    if nodes.len() == 0 {
        Seq::empty()
    } else {
        let rest = spec_remove_dimensions(nodes.subrange(1, nodes.len() as int));
        match nodes[0] {
            NodeView::Element { name, attrs, children } => {
                let attrs2 = if name == "svg"@ && attrs_has(attrs, "viewBox"@) {
                    attrs_remove(attrs_remove(attrs, "width"@), "height"@)
                } else {
                    attrs
                };
                seq![
                    NodeView::Element {
                        name,
                        attrs: attrs2,
                        children: spec_remove_dimensions(children),
                    }
                ] + rest
            },
            other => seq![other] + rest,
        }
    }
}

#[verifier::loop_isolation(false)]
fn strip_dimensions(mut nodes: Vec<Node>) -> (r: Vec<Node>)
    ensures
        nodes_view(r@) == spec_remove_dimensions(nodes_view(nodes@)),
    decreases nodes,
{
    broadcast use nodes_view_len, nodes_view_index;

    let ghost orig = nodes;
    let mut out: Vec<Node> = Vec::new();
    let ghost mut i: int = 0;
    while nodes.len() > 0
        invariant
            0 <= i <= orig@.len(),
            nodes@ =~= orig@.subrange(i, orig@.len() as int),
            nodes_view(out@) + spec_remove_dimensions(nodes_view(nodes@))
                =~= spec_remove_dimensions(nodes_view(orig@)),
        decreases nodes@.len(),
    {
        proof {
            assert(nodes_view(nodes@).subrange(1, nodes_view(nodes@).len() as int) =~= nodes_view(
                nodes@.subrange(1, nodes@.len() as int),
            ));
        }
        let ghost prev_out = out@;
        let node = nodes.remove(0);
        proof {
            assert(node == orig@[i]);
            assert(decreases_to!(orig => orig@));
            assert(decreases_to!(orig@ => orig@[i]));
        }
        match node {
            Node::Element(e) => {
                proof {
                    assert(orig@[i] == Node::Element(e));
                    assert(decreases_to!(orig@[i] => e.children));
                    assert(decreases_to!(orig => e.children));
                }
                let mut attrs = e.attributes;
                if string_is(&e.name, "svg") && crate::tree::attrs_contains(&attrs, "viewBox") {
                    crate::tree::attrs_delete(&mut attrs, "width");
                    crate::tree::attrs_delete(&mut attrs, "height");
                }
                let kids = strip_dimensions(e.children);
                let e2 = Element { name: e.name, attributes: attrs, children: kids };
                out.push(Node::Element(e2));
                proof {
                    assert(nodes_view(out@) =~= nodes_view(prev_out).push(node_view(
                        Node::Element(e2),
                    )));
                }
            },
            other => {
                out.push(other);
                proof {
                    assert(nodes_view(out@) =~= nodes_view(prev_out).push(node_view(
                        out@.last(),
                    )));
                }
            },
        }
        proof {
            i = i + 1;
        }
    }
    proof {
        assert(nodes_view(nodes@) =~= Seq::<NodeView>::empty());
    }
    out
}

/// Apply the rewrite below `nodes`, in place.
pub fn process_nodes(nodes: &mut Vec<Node>)
    ensures
        nodes_view(final (nodes)@) == spec_remove_dimensions(nodes_view(old(nodes)@)),
{
    let mut v: Vec<Node> = Vec::new();
    core::mem::swap(nodes, &mut v);
    let mut v2 = strip_dimensions(v);
    core::mem::swap(nodes, &mut v2);
}

impl Plugin for RemoveDimensions {
    fn apply(&self, doc: &mut Document) {
        process_nodes(&mut doc.root);
    }
}


/// No `svg` element with a `viewBox` still carries `width` or `height`.
pub open spec fn spec_dims_clean(nodes: Seq<NodeView>) -> bool
    decreases nodes,
{
    if nodes.len() == 0 {
        true
    } else {
        let rest = spec_dims_clean(nodes.subrange(1, nodes.len() as int));
        match nodes[0] {
            NodeView::Element { name, attrs, children } => (name == "svg"@ && attrs_has(
                attrs,
                "viewBox"@,
            ) ==> !attrs_has(attrs, "width"@) && !attrs_has(attrs, "height"@))
                && spec_dims_clean(children) && rest,
            _ => rest,
        }
    }
}

/// After the pass on a tree with unique keys, no dimensions are left beside
/// a `viewBox`.
pub proof fn lemma_remove_dimensions_complete(nodes: Seq<NodeView>)
    requires
        spec_unique_tree(nodes),
    ensures
        spec_dims_clean(spec_remove_dimensions(nodes)),
    decreases nodes,
{
    reveal_strlit("width");
    reveal_strlit("height");
    assert("width"@ =~= seq!['w', 'i', 'd', 't', 'h']);
    assert("height"@ =~= seq!['h', 'e', 'i', 'g', 'h', 't']);
    if nodes.len() > 0 {
        let tail = nodes.subrange(1, nodes.len() as int);
        lemma_remove_dimensions_complete(tail);
        let rest = spec_remove_dimensions(tail);
        match nodes[0] {
            NodeView::Element { name, attrs, children } => {
                lemma_remove_dimensions_complete(children);
                let attrs2 = if name == "svg"@ && attrs_has(attrs, "viewBox"@) {
                    attrs_remove(attrs_remove(attrs, "width"@), "height"@)
                } else {
                    attrs
                };
                if name == "svg"@ && attrs_has(attrs, "viewBox"@) {
                    crate::tree::lemma_remove_props(attrs, "width"@);
                    crate::tree::lemma_remove_props(attrs_remove(attrs, "width"@), "height"@);
                    assert(!attrs_has(attrs2, "height"@));
                    assert(attrs_get(attrs2, "width"@) == attrs_get(
                        attrs_remove(attrs, "width"@),
                        "width"@,
                    ));
                    assert(!attrs_has(attrs2, "width"@));
                }
                let head = NodeView::Element {
                    name,
                    attrs: attrs2,
                    children: spec_remove_dimensions(children),
                };
                let whole = seq![head] + rest;
                assert(whole[0] == head);
                assert(whole.subrange(1, whole.len() as int) =~= rest);
            },
            other => {
                let whole = seq![other] + rest;
                assert(whole[0] == other);
                assert(whole.subrange(1, whole.len() as int) =~= rest);
            },
        }
    }
}

/// On a clean tree the pass changes nothing.
pub proof fn lemma_remove_dimensions_stable(nodes: Seq<NodeView>)
    requires
        spec_dims_clean(nodes),
    ensures
        spec_remove_dimensions(nodes) == nodes,
    decreases nodes,
{
    if nodes.len() > 0 {
        let tail = nodes.subrange(1, nodes.len() as int);
        lemma_remove_dimensions_stable(tail);
        match nodes[0] {
            NodeView::Element { name, attrs, children } => {
                lemma_remove_dimensions_stable(children);
                if name == "svg"@ && attrs_has(attrs, "viewBox"@) {
                    crate::tree::lemma_remove_absent(attrs, "width"@);
                    crate::tree::lemma_remove_absent(attrs, "height"@);
                }
                assert(spec_remove_dimensions(nodes) =~= nodes);
            },
            other => {
                assert(spec_remove_dimensions(nodes) =~= nodes);
            },
        }
    }
}

/// On a tree with unique attribute keys the pass is idempotent; uniqueness
/// is what rules out a second occurrence of a removed key.
pub proof fn lemma_remove_dimensions_idempotent(nodes: Seq<NodeView>)
    requires
        spec_unique_tree(nodes),
    ensures
        spec_remove_dimensions(spec_remove_dimensions(nodes)) == spec_remove_dimensions(nodes),
{
    lemma_remove_dimensions_complete(nodes);
    lemma_remove_dimensions_stable(spec_remove_dimensions(nodes));
}

} // verus!
