//! Unwraps `g` elements that carry no attributes, splicing their children
//! into the parent, bottom-up. A `switch` or `foreignObject` parent keeps
//! its children as they are.
use vstd::prelude::*;

use crate::plugins::Plugin;
use crate::tree::{Document, Element, Node, NodeView, node_view, nodes_view, nodes_view_len,
    nodes_view_index};
use crate::text::string_is;

verus! {

pub struct CollapseGroups;

/// A parent under which groups are never unwrapped.
pub open spec fn spec_blocks_unwrap(parent: Seq<char>) -> bool {
    parent == "switch"@ || parent == "foreignObject"@
}

/// The node sequence with groups collapsed, bottom-up: every element's
/// children are collapsed first (under that element's name), and an
/// attribute-less `g` is replaced by its children unless the parent blocks
/// it.
pub open spec fn spec_collapse(nodes: Seq<NodeView>, parent: Seq<char>) -> Seq<NodeView>
    decreases nodes,
{
    if nodes.len() == 0 {
        Seq::empty()
    } else {
        let rest = spec_collapse(nodes.subrange(1, nodes.len() as int), parent);
        match nodes[0] {
            NodeView::Element { name, attrs, children } => {
                let kids = spec_collapse(children, name);
                if !spec_blocks_unwrap(parent) && name == "g"@ && attrs.len() == 0 {
                    kids + rest
                } else {
                    seq![NodeView::Element { name, attrs, children: kids }] + rest
                }
            },
            other => seq![other] + rest,
        }
    }
}

#[verifier::loop_isolation(false)]
fn collapse_vec(mut nodes: Vec<Node>, parent: &str) -> (r: Vec<Node>)
    ensures
        nodes_view(r@) == spec_collapse(nodes_view(nodes@), parent@),
    decreases nodes,
{
    broadcast use nodes_view_len, nodes_view_index;

    let blocked = crate::text::str_eq(parent, "switch") || crate::text::str_eq(
        parent,
        "foreignObject",
    );
    let ghost orig = nodes;
    let mut out: Vec<Node> = Vec::new();
    let ghost mut i: int = 0;
    while nodes.len() > 0
        invariant
            0 <= i <= orig@.len(),
            blocked == spec_blocks_unwrap(parent@),
            nodes@ =~= orig@.subrange(i, orig@.len() as int),
            nodes_view(out@) + spec_collapse(nodes_view(nodes@), parent@) =~= spec_collapse(
                nodes_view(orig@),
                parent@,
            ),
        decreases nodes@.len(),
    {
        proof {
            assert(nodes_view(nodes@).subrange(1, nodes_view(nodes@).len() as int) =~= nodes_view(
                nodes@.subrange(1, nodes@.len() as int),
            ));
        }
        let ghost prev_out = out@;
        let node = nodes.remove(0);
        proof {
            assert(node == orig@[i]);
            assert(decreases_to!(orig => orig@));
            assert(decreases_to!(orig@ => orig@[i]));
        }
        match node {
            Node::Element(e) => {
                proof {
                    assert(orig@[i] == Node::Element(e));
                    assert(decreases_to!(orig@[i] => e.children));
                    assert(decreases_to!(orig => e.children));
                }
                let Element { name, attributes, children } = e;
                let mut kids = collapse_vec(children, name.as_str());
                if !blocked && string_is(&name, "g") && attributes.len() == 0 {
                    let ghost kv = nodes_view(kids@);
                    out.append(&mut kids);
                    proof {
                        assert(crate::tree::attrs_view(attributes@).len() == 0);
                        assert(nodes_view(out@) =~= nodes_view(prev_out) + kv);
                    }
                } else {
                    let e2 = Element { name, attributes, children: kids };
                    out.push(Node::Element(e2));
                    proof {
                        assert(nodes_view(out@) =~= nodes_view(prev_out).push(node_view(
                            Node::Element(e2),
                        )));
                    }
                }
            },
            other => {
                out.push(other);
                proof {
                    assert(nodes_view(out@) =~= nodes_view(prev_out).push(node_view(
                        out@.last(),
                    )));
                }
            },
        }
        proof {
            i = i + 1;
        }
    }
    proof {
        assert(nodes_view(nodes@) =~= Seq::<NodeView>::empty());
    }
    out
}

/// Collapse attribute-less groups below `nodes`, in place, under a parent
/// with the given name.
pub fn collapse_groups_in_nodes(nodes: &mut Vec<Node>, parent_name: &str)
    ensures
        nodes_view(final (nodes)@) == spec_collapse(nodes_view(old(nodes)@), parent_name@),
{
    let mut v: Vec<Node> = Vec::new();
    core::mem::swap(nodes, &mut v);
    let mut v2 = collapse_vec(v, parent_name);
    core::mem::swap(nodes, &mut v2);
}

impl Plugin for CollapseGroups {
    fn apply(&self, doc: &mut Document) {
        collapse_groups_in_nodes(&mut doc.root, "svg");
    }
}


/// No unwrappable group is left: under a parent that does not block
/// unwrapping, no element is an attribute-less `g`.
pub open spec fn spec_collapsed(nodes: Seq<NodeView>, parent: Seq<char>) -> bool
    decreases nodes,
{
    if nodes.len() == 0 {
        true
    } else {
        let rest = spec_collapsed(nodes.subrange(1, nodes.len() as int), parent);
        match nodes[0] {
            NodeView::Element { name, attrs, children } => (!spec_blocks_unwrap(parent)
                ==> !(name == "g"@ && attrs.len() == 0)) && spec_collapsed(children, name)
                && rest,
            _ => rest,
        }
    }
}

/// Splicing a collapsed group's children into a collapsed sequence under a
/// non-blocking parent keeps it collapsed.
proof fn lemma_collapsed_concat(x: Seq<NodeView>, y: Seq<NodeView>, parent: Seq<char>)
    requires
        spec_collapsed(x, "g"@),
        !spec_blocks_unwrap(parent),
        spec_collapsed(y, parent),
    ensures
        spec_collapsed(x + y, parent),
    decreases x,
{
    reveal_strlit("g");
    reveal_strlit("switch");
    reveal_strlit("foreignObject");
    assert("g"@ =~= seq!['g']);
    assert("switch"@ =~= seq!['s', 'w', 'i', 't', 'c', 'h']);
    assert(!spec_blocks_unwrap("g"@));
    if x.len() == 0 {
        assert(x + y =~= y);
    } else {
        let xt = x.subrange(1, x.len() as int);
        lemma_collapsed_concat(xt, y, parent);
        let whole = x + y;
        assert(whole[0] == x[0]);
        assert(whole.subrange(1, whole.len() as int) =~= xt + y);
    }
}

/// After the pass, nothing unwrappable is left.
pub proof fn lemma_collapse_complete(nodes: Seq<NodeView>, parent: Seq<char>)
    ensures
        spec_collapsed(spec_collapse(nodes, parent), parent),
    decreases nodes,
{
    if nodes.len() > 0 {
        let tail = nodes.subrange(1, nodes.len() as int);
        lemma_collapse_complete(tail, parent);
        let rest = spec_collapse(tail, parent);
        match nodes[0] {
            NodeView::Element { name, attrs, children } => {
                lemma_collapse_complete(children, name);
                let kids = spec_collapse(children, name);
                if !spec_blocks_unwrap(parent) && name == "g"@ && attrs.len() == 0 {
                    lemma_collapsed_concat(kids, rest, parent);
                } else {
                    let head = NodeView::Element { name, attrs, children: kids };
                    let whole = seq![head] + rest;
                    assert(whole[0] == head);
                    assert(whole.subrange(1, whole.len() as int) =~= rest);
                }
            },
            other => {
                let whole = seq![other] + rest;
                assert(whole[0] == other);
                assert(whole.subrange(1, whole.len() as int) =~= rest);
            },
        }
    }
}

/// On a collapsed sequence the pass changes nothing.
pub proof fn lemma_collapse_stable(nodes: Seq<NodeView>, parent: Seq<char>)
    requires
        spec_collapsed(nodes, parent),
    ensures
        spec_collapse(nodes, parent) == nodes,
    decreases nodes,
{
    if nodes.len() > 0 {
        let tail = nodes.subrange(1, nodes.len() as int);
        lemma_collapse_stable(tail, parent);
        match nodes[0] {
            NodeView::Element { name, attrs, children } => {
                lemma_collapse_stable(children, name);
                assert(spec_collapse(nodes, parent) =~= nodes);
            },
            other => {
                assert(spec_collapse(nodes, parent) =~= nodes);
            },
        }
    }
}

/// The pass is idempotent: a second run returns its input unchanged.
pub proof fn lemma_collapse_idempotent(nodes: Seq<NodeView>, parent: Seq<char>)
    ensures
        spec_collapse(spec_collapse(nodes, parent), parent) == spec_collapse(nodes, parent),
{
    lemma_collapse_complete(nodes, parent);
    lemma_collapse_stable(spec_collapse(nodes, parent), parent);
}

} // verus!
