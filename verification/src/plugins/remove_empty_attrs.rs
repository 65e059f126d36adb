//! Deletes attributes whose value is the empty string, on every element.
use vstd::prelude::*;

use crate::plugins::Plugin;
use crate::tree::{Document, Element, Node, NodeView, node_view, nodes_view, nodes_view_len,
    nodes_view_index, attrs_view};

verus! {

pub struct RemoveEmptyAttrs;

/// The attribute list restricted to entries with a non-empty value.
pub open spec fn spec_keep_nonempty(a: Seq<(Seq<char>, Seq<char>)>) -> Seq<(Seq<char>, Seq<char>)>
    decreases a.len(),
{
    if a.len() == 0 {
        Seq::empty()
    } else {
        spec_keep_nonempty(a.drop_last()) + (if a.last().1.len() != 0 {
            seq![a.last()]
        } else {
            Seq::empty()
        })
    }
}

/// Every element's attribute list restricted to non-empty values, at every
/// depth.
pub open spec fn spec_remove_empty_attrs(nodes: Seq<NodeView>) -> Seq<NodeView>
    decreases nodes,
{
    if nodes.len() == 0 {
        Seq::empty()
    } else {
        let rest = spec_remove_empty_attrs(nodes.subrange(1, nodes.len() as int));
        match nodes[0] {
            NodeView::Element { name, attrs, children } => seq![
                NodeView::Element {
                    name,
                    attrs: spec_keep_nonempty(attrs),
                    children: spec_remove_empty_attrs(children),
                }
            ] + rest,
            other => seq![other] + rest,
        }
    }
}

/// The attribute entries with a non-empty value, in order.
fn filter_nonempty(mut a: Vec<(String, String)>) -> (r: Vec<(String, String)>)
    ensures
        attrs_view(r@) == spec_keep_nonempty(attrs_view(a@)),
{
    let mut out: Vec<(String, String)> = Vec::new();
    let mut i: usize = 0;
    let ghost orig = a@;
    proof {
        assert(attrs_view(orig).subrange(0, 0) =~= Seq::<(Seq<char>, Seq<char>)>::empty());
        assert(attrs_view(out@) =~= spec_keep_nonempty(attrs_view(orig).subrange(0, 0)));
    }
    while i < a.len()
        invariant
            0 <= i <= orig.len(),
            a@ == orig,
            attrs_view(out@) =~= spec_keep_nonempty(attrs_view(orig).subrange(0, i as int)),
        decreases orig.len() - i,
    {
        let ghost pre = attrs_view(orig).subrange(0, i as int);
        if !a[i].1.as_str().is_empty() {
            let ghost prev = out@;
            out.push((a[i].0.clone(), a[i].1.clone()));
            proof {
                assert(attrs_view(out@) =~= attrs_view(prev).push((a@[i as int].0@, a@[
                i as int].1@)));
            }
        }
        i += 1;
        proof {
            let post = attrs_view(orig).subrange(0, i as int);
            assert(post.drop_last() =~= pre);
            assert(post.last() == (orig[i - 1].0@, orig[i - 1].1@));
            assert(attrs_view(out@) =~= spec_keep_nonempty(post));
        }
    }
    proof {
        assert(attrs_view(orig).subrange(0, orig.len() as int) =~= attrs_view(orig));
    }
    out
}

#[verifier::loop_isolation(false)]
fn strip_empty_attrs(mut nodes: Vec<Node>) -> (r: Vec<Node>)
    ensures
        nodes_view(r@) == spec_remove_empty_attrs(nodes_view(nodes@)),
    decreases nodes,
{
    broadcast use nodes_view_len, nodes_view_index;

    let ghost orig = nodes;
    let mut out: Vec<Node> = Vec::new();
    let ghost mut i: int = 0;
    while nodes.len() > 0
        invariant
            0 <= i <= orig@.len(),
            nodes@ =~= orig@.subrange(i, orig@.len() as int),
            nodes_view(out@) + spec_remove_empty_attrs(nodes_view(nodes@))
                =~= spec_remove_empty_attrs(nodes_view(orig@)),
        decreases nodes@.len(),
    {
        proof {
            assert(nodes_view(nodes@).subrange(1, nodes_view(nodes@).len() as int) =~= nodes_view(
                nodes@.subrange(1, nodes@.len() as int),
            ));
        }
        let ghost prev_out = out@;
        let node = nodes.remove(0);
        proof {
            assert(node == orig@[i]);
            assert(decreases_to!(orig => orig@));
            assert(decreases_to!(orig@ => orig@[i]));
        }
        match node {
            Node::Element(e) => {
                proof {
                    assert(orig@[i] == Node::Element(e));
                    assert(decreases_to!(orig@[i] => e.children));
                    assert(decreases_to!(orig => e.children));
                }
                let attrs = filter_nonempty(e.attributes);
                let kids = strip_empty_attrs(e.children);
                let e2 = Element { name: e.name, attributes: attrs, children: kids };
                out.push(Node::Element(e2));
                proof {
                    assert(nodes_view(out@) =~= nodes_view(prev_out).push(node_view(
                        Node::Element(e2),
                    )));
                }
            },
            other => {
                out.push(other);
                proof {
                    assert(nodes_view(out@) =~= nodes_view(prev_out).push(node_view(
                        out@.last(),
                    )));
                }
            },
        }
        proof {
            i = i + 1;
        }
    }
    proof {
        assert(nodes_view(nodes@) =~= Seq::<NodeView>::empty());
    }
    out
}

/// Remove every empty-valued attribute below `nodes`, in place.
pub fn remove_empty_attrs_in_nodes(nodes: &mut Vec<Node>)
    ensures
        nodes_view(final (nodes)@) == spec_remove_empty_attrs(nodes_view(old(nodes)@)),
{
    let mut v: Vec<Node> = Vec::new();
    core::mem::swap(nodes, &mut v);
    let mut v2 = strip_empty_attrs(v);
    core::mem::swap(nodes, &mut v2);
}

impl Plugin for RemoveEmptyAttrs {
    fn apply(&self, doc: &mut Document) {
        remove_empty_attrs_in_nodes(&mut doc.root);
    }
}


/// Every attribute in the list has a non-empty value.
pub open spec fn spec_all_nonempty(a: Seq<(Seq<char>, Seq<char>)>) -> bool {
    forall|i: int| 0 <= i < a.len() ==> #[trigger] a[i].1.len() != 0
}

pub proof fn lemma_keep_nonempty_complete(a: Seq<(Seq<char>, Seq<char>)>)
    ensures
        spec_all_nonempty(spec_keep_nonempty(a)),
    decreases a.len(),
{
    if a.len() > 0 {
        lemma_keep_nonempty_complete(a.drop_last());
    }
}

pub proof fn lemma_keep_nonempty_stable(a: Seq<(Seq<char>, Seq<char>)>)
    requires
        spec_all_nonempty(a),
    ensures
        spec_keep_nonempty(a) == a,
    decreases a.len(),
{
    if a.len() > 0 {
        assert(spec_all_nonempty(a.drop_last()));
        lemma_keep_nonempty_stable(a.drop_last());
        assert(a[a.len() - 1].1.len() != 0);
        assert(spec_keep_nonempty(a) =~= a);
    }
}

/// Every element's attribute list holds only non-empty values, at every
/// depth.
pub open spec fn spec_attrs_all_clean(nodes: Seq<NodeView>) -> bool
    decreases nodes,
{
    if nodes.len() == 0 {
        true
    } else {
        let rest = spec_attrs_all_clean(nodes.subrange(1, nodes.len() as int));
        match nodes[0] {
            NodeView::Element { attrs, children, .. } => spec_all_nonempty(attrs)
                && spec_attrs_all_clean(children) && rest,
            _ => rest,
        }
    }
}

/// After the pass, only non-empty attribute values are left.
pub proof fn lemma_remove_empty_attrs_complete(nodes: Seq<NodeView>)
    ensures
        spec_attrs_all_clean(spec_remove_empty_attrs(nodes)),
    decreases nodes,
{
    if nodes.len() > 0 {
        let tail = nodes.subrange(1, nodes.len() as int);
        lemma_remove_empty_attrs_complete(tail);
        let rest = spec_remove_empty_attrs(tail);
        match nodes[0] {
            NodeView::Element { name, attrs, children } => {
                lemma_remove_empty_attrs_complete(children);
                lemma_keep_nonempty_complete(attrs);
                let head = NodeView::Element {
                    name,
                    attrs: spec_keep_nonempty(attrs),
                    children: spec_remove_empty_attrs(children),
                };
                let whole = seq![head] + rest;
                assert(whole[0] == head);
                assert(whole.subrange(1, whole.len() as int) =~= rest);
            },
            other => {
                let whole = seq![other] + rest;
                assert(whole[0] == other);
                assert(whole.subrange(1, whole.len() as int) =~= rest);
            },
        }
    }
}

/// On a clean tree the pass changes nothing.
pub proof fn lemma_remove_empty_attrs_stable(nodes: Seq<NodeView>)
    requires
        spec_attrs_all_clean(nodes),
    ensures
        spec_remove_empty_attrs(nodes) == nodes,
    decreases nodes,
{
    if nodes.len() > 0 {
        let tail = nodes.subrange(1, nodes.len() as int);
        lemma_remove_empty_attrs_stable(tail);
        match nodes[0] {
            NodeView::Element { name, attrs, children } => {
                lemma_remove_empty_attrs_stable(children);
                lemma_keep_nonempty_stable(attrs);
                assert(spec_remove_empty_attrs(nodes) =~= nodes);
            },
            other => {
                assert(spec_remove_empty_attrs(nodes) =~= nodes);
            },
        }
    }
}

/// The pass is idempotent: a second run returns its input unchanged.
pub proof fn lemma_remove_empty_attrs_idempotent(nodes: Seq<NodeView>)
    ensures
        spec_remove_empty_attrs(spec_remove_empty_attrs(nodes)) == spec_remove_empty_attrs(
            nodes,
        ),
{
    lemma_remove_empty_attrs_complete(nodes);
    lemma_remove_empty_attrs_stable(spec_remove_empty_attrs(nodes));
}

} // verus!
