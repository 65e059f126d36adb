//! Hoists inheritable presentation attributes shared by all element children
//! of a `g` onto the group itself, removing them from the children.
use vstd::prelude::*;

use crate::plugins::Plugin;
use crate::tree::{Document, Element, Node, NodeView, node_view, nodes_view, nodes_view_len,
    nodes_view_index, attrs_get, attrs_set, attrs_remove, attrs_view};
use crate::text::{str_eq, string_is};

verus! {

pub struct MoveElemsAttrsToGroup;

/// An attribute that children inherit from their group.
pub open spec fn spec_inheritable(k: Seq<char>) -> bool {
    ||| k == "clip-rule"@
    ||| k == "color"@
    ||| k == "color-interpolation"@
    ||| k == "color-interpolation-filters"@
    ||| k == "color-profile"@
    ||| k == "color-rendering"@
    ||| k == "cursor"@
    ||| k == "direction"@
    ||| k == "fill"@
    ||| k == "fill-opacity"@
    ||| k == "fill-rule"@
    ||| k == "font"@
    ||| k == "font-family"@
    ||| k == "font-size"@
    ||| k == "font-size-adjust"@
    ||| k == "font-stretch"@
    ||| k == "font-style"@
    ||| k == "font-variant"@
    ||| k == "font-weight"@
    ||| k == "glyph-orientation-horizontal"@
    ||| k == "glyph-orientation-vertical"@
    ||| k == "image-rendering"@
    ||| k == "kerning"@
    ||| k == "letter-spacing"@
    ||| k == "marker"@
    ||| k == "marker-end"@
    ||| k == "marker-mid"@
    ||| k == "marker-start"@
    ||| k == "pointer-events"@
    ||| k == "shape-rendering"@
    ||| k == "stroke"@
    ||| k == "stroke-dasharray"@
    ||| k == "stroke-dashoffset"@
    ||| k == "stroke-linecap"@
    ||| k == "stroke-linejoin"@
    ||| k == "stroke-miterlimit"@
    ||| k == "stroke-opacity"@
    ||| k == "stroke-width"@
    ||| k == "text-anchor"@
    ||| k == "text-rendering"@
    ||| k == "visibility"@
    ||| k == "white-space"@
    ||| k == "word-spacing"@
    ||| k == "writing-mode"@
}

/// Every element among `nodes` carries `k` with exactly the value `v`.
pub open spec fn spec_node_has(n: NodeView, k: Seq<char>, v: Seq<char>) -> bool {
    match n {
        NodeView::Element { attrs, .. } => attrs_get(attrs, k) == Some(v),
        _ => true,
    }
}

pub open spec fn spec_all_elems_have(children: Seq<NodeView>, k: Seq<char>, v: Seq<char>) -> bool {
    forall|j: int| 0 <= j < children.len() ==> spec_node_has(children[j], k, v)
}

/// The attribute list of the first element child, if any.
pub open spec fn spec_first_elem_attrs(children: Seq<NodeView>) -> Option<
    Seq<(Seq<char>, Seq<char>)>,
>
    decreases children.len(),
{
    if children.len() == 0 {
        None
    } else {
        match children[0] {
            NodeView::Element { attrs, .. } => Some(attrs),
            _ => spec_first_elem_attrs(children.subrange(1, children.len() as int)),
        }
    }
}

/// The entry is one this pass may hoist onto the group.
pub open spec fn spec_cand_keep(
    k: Seq<char>,
    v: Seq<char>,
    children: Seq<NodeView>,
) -> bool {
    k != "transform"@ && k != "id"@ && k != "d"@ && spec_inheritable(k) && spec_all_elems_have(
        children,
        k,
        v,
    )
}

/// The hoistable entries of the first child's attribute list, in order.
pub open spec fn spec_candidates(
    fattrs: Seq<(Seq<char>, Seq<char>)>,
    children: Seq<NodeView>,
) -> Seq<(Seq<char>, Seq<char>)>
    decreases fattrs.len(),
{
    if fattrs.len() == 0 {
        Seq::empty()
    } else {
        spec_candidates(fattrs.drop_last(), children) + (if spec_cand_keep(
            fattrs.last().0,
            fattrs.last().1,
            children,
        ) {
            seq![fattrs.last()]
        } else {
            Seq::empty()
        })
    }
}

/// Set each candidate on an attribute list, first to last.
pub open spec fn spec_apply_sets(
    attrs: Seq<(Seq<char>, Seq<char>)>,
    cands: Seq<(Seq<char>, Seq<char>)>,
) -> Seq<(Seq<char>, Seq<char>)>
    decreases cands.len(),
{
    if cands.len() == 0 {
        attrs
    } else {
        attrs_set(spec_apply_sets(attrs, cands.drop_last()), cands.last().0, cands.last().1)
    }
}

/// Remove each key from an attribute list, first to last.
pub open spec fn spec_remove_keys(
    attrs: Seq<(Seq<char>, Seq<char>)>,
    keys: Seq<Seq<char>>,
) -> Seq<(Seq<char>, Seq<char>)>
    decreases keys.len(),
{
    if keys.len() == 0 {
        attrs
    } else {
        attrs_remove(spec_remove_keys(attrs, keys.drop_last()), keys.last())
    }
}

pub open spec fn spec_cand_keys(cands: Seq<(Seq<char>, Seq<char>)>) -> Seq<Seq<char>> {
    Seq::new(cands.len(), |i: int| cands[i].0)
}

/// One node under this pass: `strip` is the list of keys the parent group
/// hoisted away from its children.
pub open spec fn spec_move_node(n: NodeView, strip: Seq<Seq<char>>) -> NodeView
    decreases n, 0int,
{
    match n {
        NodeView::Element { name, attrs, children } => {
            let attrs1 = spec_remove_keys(attrs, strip);
            if name == "g"@ && children.len() > 0 && spec_first_elem_attrs(children) is Some {
                let cands = spec_candidates(spec_first_elem_attrs(children)->0, children);
                NodeView::Element {
                    name,
                    attrs: spec_apply_sets(attrs1, cands),
                    children: spec_move_list(children, spec_cand_keys(cands)),
                }
            } else {
                NodeView::Element {
                    name,
                    attrs: attrs1,
                    children: spec_move_list(children, Seq::empty()),
                }
            }
        },
        other => other,
    }
}

pub open spec fn spec_move_list(nodes: Seq<NodeView>, strip: Seq<Seq<char>>) -> Seq<NodeView>
    decreases nodes, 1int,
{
    if nodes.len() == 0 {
        Seq::empty()
    } else {
        seq![spec_move_node(nodes[0], strip)] + spec_move_list(
            nodes.subrange(1, nodes.len() as int),
            strip,
        )
    }
}

pub broadcast proof fn spec_move_list_len(nodes: Seq<NodeView>, strip: Seq<Seq<char>>)
    ensures
        (#[trigger] spec_move_list(nodes, strip)).len() == nodes.len(),
    decreases nodes.len(),
{
    if nodes.len() > 0 {
        spec_move_list_len(nodes.subrange(1, nodes.len() as int), strip);
    }
}

pub broadcast proof fn spec_move_list_index(nodes: Seq<NodeView>, strip: Seq<Seq<char>>, i: int)
    requires
        0 <= i < nodes.len(),
    ensures
        #[trigger] spec_move_list(nodes, strip)[i] == spec_move_node(nodes[i], strip),
    decreases nodes.len(),
{
    spec_move_list_len(nodes, strip);
    if i > 0 {
        spec_move_list_index(nodes.subrange(1, nodes.len() as int), strip, i - 1);
    }
}

proof fn first_elem_at(children: Seq<NodeView>, j: int)
    requires
        0 <= j < children.len(),
        children[j] is Element,
        forall|c: int| 0 <= c < j ==> !(children[c] is Element),
    ensures
        spec_first_elem_attrs(children) == Some(children[j]->Element_attrs),
    decreases j,
{
    if j > 0 {
        first_elem_at(children.subrange(1, children.len() as int), j - 1);
    }
}

proof fn first_elem_none(children: Seq<NodeView>)
    requires
        forall|c: int| 0 <= c < children.len() ==> !(children[c] is Element),
    ensures
        spec_first_elem_attrs(children) is None,
    decreases children.len(),
{
    if children.len() > 0 {
        first_elem_none(children.subrange(1, children.len() as int));
    }
}

/// The views of a key list.
pub open spec fn keys_view(v: Seq<String>) -> Seq<Seq<char>> {
    Seq::new(v.len(), |i: int| v[i]@)
}

/// An attribute name the pass never hoists.
fn is_skip_key(k: &str) -> (r: bool)
    ensures
        r == (k@ == "transform"@ || k@ == "id"@ || k@ == "d"@),
{
    str_eq(k, "transform") || str_eq(k, "id") || str_eq(k, "d")
}

fn is_inheritable(k: &str) -> (r: bool)
    ensures
        r == spec_inheritable(k@),
{
    str_eq(k, "clip-rule") || str_eq(k, "color") || str_eq(k, "color-interpolation") || str_eq(
        k,
        "color-interpolation-filters",
    ) || str_eq(k, "color-profile") || str_eq(k, "color-rendering") || str_eq(k, "cursor")
        || str_eq(k, "direction") || str_eq(k, "fill") || str_eq(k, "fill-opacity") || str_eq(
        k,
        "fill-rule",
    ) || str_eq(k, "font") || str_eq(k, "font-family") || str_eq(k, "font-size") || str_eq(
        k,
        "font-size-adjust",
    ) || str_eq(k, "font-stretch") || str_eq(k, "font-style") || str_eq(k, "font-variant")
        || str_eq(k, "font-weight") || str_eq(k, "glyph-orientation-horizontal") || str_eq(
        k,
        "glyph-orientation-vertical",
    ) || str_eq(k, "image-rendering") || str_eq(k, "kerning") || str_eq(k, "letter-spacing")
        || str_eq(k, "marker") || str_eq(k, "marker-end") || str_eq(k, "marker-mid") || str_eq(
        k,
        "marker-start",
    ) || str_eq(k, "pointer-events") || str_eq(k, "shape-rendering") || str_eq(k, "stroke")
        || str_eq(k, "stroke-dasharray") || str_eq(k, "stroke-dashoffset") || str_eq(
        k,
        "stroke-linecap",
    ) || str_eq(k, "stroke-linejoin") || str_eq(k, "stroke-miterlimit") || str_eq(
        k,
        "stroke-opacity",
    ) || str_eq(k, "stroke-width") || str_eq(k, "text-anchor") || str_eq(k, "text-rendering")
        || str_eq(k, "visibility") || str_eq(k, "white-space") || str_eq(k, "word-spacing")
        || str_eq(k, "writing-mode")
}

/// Every element in `children` carries `k` with the value `v`.
fn all_elems_have(children: &Vec<Node>, k: &str, v: &str) -> (r: bool)
    ensures
        r == spec_all_elems_have(nodes_view(children@), k@, v@),
{
    broadcast use nodes_view_len, nodes_view_index;

    let mut c: usize = 0;
    while c < children.len()
        invariant
            0 <= c <= children@.len(),
            forall|j: int|
                0 <= j < c ==> spec_node_has(nodes_view(children@)[j], k@, v@),
        decreases children@.len() - c,
    {
        proof {
            nodes_view_len(children@);
            nodes_view_index(children@, c as int);
        }
        match &children[c] {
            Node::Element(ce) => {
                proof {
                    assert(children@[c as int] == Node::Element(*ce));
                }
                if !crate::tree::attr_is(&ce.attributes, k, v) {
                    proof {
                        assert(!spec_node_has(nodes_view(children@)[c as int], k@, v@));
                    }
                    return false;
                }
                proof {
                    assert(spec_node_has(nodes_view(children@)[c as int], k@, v@));
                }
            },
            _ => {
                proof {
                    assert(spec_node_has(nodes_view(children@)[c as int], k@, v@));
                }
            },
        }
        c += 1;
    }
    true
}

#[verifier::loop_isolation(false)]
#[verifier::rlimit(60)]
fn move_vec(mut nodes: Vec<Node>, strip: &Vec<String>) -> (r: Vec<Node>)
    ensures
        nodes_view(r@) == spec_move_list(nodes_view(nodes@), keys_view(strip@)),
    decreases nodes, 1int,
{
    broadcast use nodes_view_len, nodes_view_index, spec_move_list_len, spec_move_list_index;

    let ghost orig = nodes;
    let ghost sv = keys_view(strip@);
    let mut out: Vec<Node> = Vec::new();
    let ghost mut i: int = 0;
    while nodes.len() > 0
        invariant
            0 <= i <= orig@.len(),
            nodes@ =~= orig@.subrange(i, orig@.len() as int),
            nodes_view(out@) + spec_move_list(nodes_view(nodes@), sv) =~= spec_move_list(
                nodes_view(orig@),
                sv,
            ),
        decreases nodes@.len(),
    {
        proof {
            assert(nodes_view(nodes@).subrange(1, nodes_view(nodes@).len() as int) =~= nodes_view(
                nodes@.subrange(1, nodes@.len() as int),
            ));
        }
        let ghost prev_out = out@;
        let node = nodes.remove(0);
        proof {
            assert(node == orig@[i]);
            assert(decreases_to!(orig => orig@));
            assert(decreases_to!(orig@ => orig@[i]));
        }
        match node {
            Node::Element(e) => {
                proof {
                    assert(orig@[i] == Node::Element(e));
                    assert(decreases_to!(orig@[i] => e.children));
                    assert(decreases_to!(orig => e.children));
                }
                let Element { name, mut attributes, children } = e;
                let ghost attrs0 = attrs_view(attributes@);
                // strip the keys the parent hoisted
                let mut s: usize = 0;
                while s < strip.len()
                    invariant
                        0 <= s <= strip@.len(),
                        attrs_view(attributes@) =~= spec_remove_keys(attrs0, sv.subrange(
                            0,
                            s as int,
                        )),
                    decreases strip@.len() - s,
                {
                    crate::tree::attrs_delete(&mut attributes, strip[s].as_str());
                    s += 1;
                    proof {
                        assert(sv.subrange(0, s as int).drop_last() =~= sv.subrange(0, s - 1));
                    }
                }
                proof {
                    assert(sv.subrange(0, strip@.len() as int) =~= sv);
                }
                let ghost attrs1 = attrs_view(attributes@);
                let ghost cview = nodes_view(children@);
                // find the first element child
                let mut fi: usize = 0;
                let mut found = false;
                while fi < children.len() && !found
                    invariant
                        0 <= fi <= children@.len(),
                        cview == nodes_view(children@),
                        found ==> fi < children@.len() && cview[fi as int] is Element,
                        forall|c: int| 0 <= c < fi ==> !(cview[c] is Element),
                    decreases children@.len() - fi + (if found {
                        0int
                    } else {
                        1int
                    }),
                {
                    proof {
                        nodes_view_len(children@);
                        nodes_view_index(children@, fi as int);
                    }
                    match &children[fi] {
                        Node::Element(_) => {
                            found = true;
                        },
                        _ => {
                            fi += 1;
                        },
                    }
                }
                let is_group = string_is(&name, "g") && children.len() > 0 && found;
                if is_group {
                    proof {
                        first_elem_at(cview, fi as int);
                    }
                    // collect the hoistable shared attributes of the first
                    // element child
                    let mut cands: Vec<(String, String)> = Vec::new();
                    match &children[fi] {
                        Node::Element(ce) => {
                            let ghost fattrs = attrs_view(ce.attributes@);
                            proof {
                                assert(cview[fi as int] == node_view(children@[fi as int]));
                                assert(spec_first_elem_attrs(cview) == Some(fattrs));
                            }
                            let mut ki: usize = 0;
                            proof {
                                assert(attrs_view(cands@) =~= spec_candidates(fattrs.subrange(
                                    0,
                                    0,
                                ), cview));
                            }
                            while ki < ce.attributes.len()
                                invariant
                                    0 <= ki <= ce.attributes@.len(),
                                    fattrs == attrs_view(ce.attributes@),
                                    cview == nodes_view(children@),
                                    attrs_view(cands@) =~= spec_candidates(fattrs.subrange(
                                        0,
                                        ki as int,
                                    ), cview),
                                decreases ce.attributes@.len() - ki,
                            {
                                let k = &ce.attributes[ki].0;
                                let v = &ce.attributes[ki].1;
                                let ghost prev_c = cands@;
                                if !is_skip_key(k.as_str()) && is_inheritable(k.as_str())
                                    && all_elems_have(&children, k.as_str(), v.as_str()) {
                                    cands.push((k.clone(), v.clone()));
                                    proof {
                                        assert(attrs_view(cands@) =~= attrs_view(prev_c).push(
                                            (k@, v@),
                                        ));
                                    }
                                }
                                ki += 1;
                                proof {
                                    assert(fattrs.subrange(0, ki as int).drop_last()
                                        =~= fattrs.subrange(0, ki - 1));
                                    assert(fattrs.subrange(0, ki as int).last() == fattrs[ki
                                        - 1]);
                                    assert(attrs_view(cands@) =~= spec_candidates(
                                        fattrs.subrange(0, ki as int),
                                        cview,
                                    ));
                                }
                            }
                            proof {
                                assert(fattrs.subrange(0, fattrs.len() as int) =~= fattrs);
                            }
                        },
                        _ => {
                            proof {
                                assert(false);
                            }
                        },
                    }
                    let ghost cands_v = attrs_view(cands@);
                    // hoist them onto the group
                    let mut ai: usize = 0;
                    proof {
                        assert(cands_v.subrange(0, 0) =~= Seq::<(Seq<char>, Seq<char>)>::empty());
                        assert(attrs_view(attributes@) =~= spec_apply_sets(attrs1,
                            cands_v.subrange(0, 0)));
                    }
                    while ai < cands.len()
                        invariant
                            0 <= ai <= cands@.len(),
                            cands_v == attrs_view(cands@),
                            attrs_view(attributes@) =~= spec_apply_sets(attrs1, cands_v.subrange(
                                0,
                                ai as int,
                            )),
                        decreases cands@.len() - ai,
                    {
                        crate::tree::attrs_put(
                            &mut attributes,
                            cands[ai].0.clone(),
                            cands[ai].1.clone(),
                        );
                        ai += 1;
                        proof {
                            assert(cands_v.subrange(0, ai as int).drop_last() =~= cands_v.subrange(
                                0,
                                ai - 1,
                            ));
                            assert(cands_v.subrange(0, ai as int).last() == cands_v[ai - 1]);
                        }
                    }
                    proof {
                        assert(cands_v.subrange(0, cands_v.len() as int) =~= cands_v);
                    }
                    // and remove them from the children
                    let mut keys: Vec<String> = Vec::new();
                    let mut qi: usize = 0;
                    while qi < cands.len()
                        invariant
                            0 <= qi <= cands@.len(),
                            cands_v == attrs_view(cands@),
                            keys_view(keys@) =~= spec_cand_keys(cands_v).subrange(0, qi as int),
                        decreases cands@.len() - qi,
                    {
                        keys.push(cands[qi].0.clone());
                        qi += 1;
                        proof {
                            assert(keys_view(keys@) =~= spec_cand_keys(cands_v).subrange(
                                0,
                                qi as int,
                            ));
                        }
                    }
                    proof {
                        assert(keys_view(keys@) =~= spec_cand_keys(cands_v));
                    }
                    let kids = move_vec(children, &keys);
                    let e2 = Element { name, attributes, children: kids };
                    out.push(Node::Element(e2));
                    proof {
                        assert(node_view(out@.last()) == spec_move_node(node_view(orig@[i]), sv));
                        assert(nodes_view(out@) =~= nodes_view(prev_out).push(node_view(
                            out@.last(),
                        )));
                    }
                } else {
                    proof {
                        if !found {
                            first_elem_none(cview);
                        }
                    }
                    let empty_keys: Vec<String> = Vec::new();
                    proof {
                        assert(keys_view(empty_keys@) =~= Seq::<Seq<char>>::empty());
                    }
                    let kids = move_vec(children, &empty_keys);
                    let e2 = Element { name, attributes, children: kids };
                    out.push(Node::Element(e2));
                    proof {
                        assert(node_view(out@.last()) == spec_move_node(node_view(orig@[i]), sv));
                        assert(nodes_view(out@) =~= nodes_view(prev_out).push(node_view(
                            out@.last(),
                        )));
                    }
                }
            },
            other => {
                out.push(other);
                proof {
                    assert(nodes_view(out@) =~= nodes_view(prev_out).push(node_view(
                        out@.last(),
                    )));
                }
            },
        }
        proof {
            i = i + 1;
        }
    }
    proof {
        assert(nodes_view(nodes@) =~= Seq::<NodeView>::empty());
    }
    out
}

/// Hoist shared inheritable attributes below `nodes`, in place.
pub fn process_nodes(nodes: &mut Vec<Node>)
    ensures
        nodes_view(final (nodes)@) == spec_move_list(nodes_view(old(nodes)@), Seq::empty()),
{
    let mut v: Vec<Node> = Vec::new();
    core::mem::swap(nodes, &mut v);
    let empty_keys: Vec<String> = Vec::new();
    proof {
        assert(keys_view(empty_keys@) =~= Seq::<Seq<char>>::empty());
    }
    let mut v2 = move_vec(v, &empty_keys);
    core::mem::swap(nodes, &mut v2);
}

impl Plugin for MoveElemsAttrsToGroup {
    fn apply(&self, doc: &mut Document) {
        process_nodes(&mut doc.root);
    }
}

} // verus!
