//! Rounds and reformats numeric attribute values: trims whitespace, strips a
//! `px` suffix, rounds at a configured precision half away from zero, and
//! optionally drops the leading zero of a fraction.
use vstd::prelude::*;
use vstd::string::StringExecFns;

use crate::plugins::Plugin;
use crate::tree::{Document, Element, Node, NodeView, node_view, nodes_view, nodes_view_len,
    nodes_view_index, attrs_get, attrs_set, attrs_view};
use crate::text::{is_space, is_space_char, to_char_vec, range_to_vec};
use crate::parser::skip_ws;
use crate::num::{spec_parse_dec, parse_dec, spec_dec_round, dec_round, spec_dec_norm, dec_norm,
    spec_fmt_dec, fmt_dec};

verus! {

pub struct CleanupNumericValues {
    pub float_precision: usize,
    pub remove_px: bool,
    pub leading_zero: bool,
}

impl Default for CleanupNumericValues {
    /// Precision three, `px` stripped, leading zeros stripped.
    fn default() -> (r: Self)
        ensures
            r.float_precision == 3,
            r.remove_px,
            r.leading_zero,
    {
        CleanupNumericValues { float_precision: 3, remove_px: true, leading_zero: true }
    }
}

/// One past the last non-whitespace character, or zero.
pub open spec fn last_non_space(s: Seq<char>) -> int
    decreases s.len(),
{
    if s.len() == 0 {
        0
    } else if is_space_char(s.last()) {
        last_non_space(s.drop_last())
    } else {
        s.len() as int
    }
}

/// What the pass does to one value: trim, strip `px` when asked, and when
/// the rest is a decimal number, round it at `p` places and print the
/// shortest form; otherwise the value stays as it was.
pub open spec fn spec_cleanup_number(s: Seq<char>, p: nat, px: bool, strip: bool) -> Seq<char> {
    let a = skip_ws(s, 0);
    let b = last_non_space(s);
    let core: Seq<char> = if a < b {
        s.subrange(a, b)
    } else {
        Seq::empty()
    };
    let core2: Seq<char> = if px && core.len() >= 2 && core[core.len() - 2] == 'p' && core[
        core.len() - 1] == 'x' {
        core.subrange(0, core.len() - 2)
    } else {
        core
    };
    match spec_parse_dec(core2) {
        Some(d) => spec_fmt_dec(spec_dec_norm(spec_dec_round(d, p)), strip),
        None => s,
    }
}

/// Clean one numeric value.
pub fn cleanup_number(val: &str, opts: &CleanupNumericValues) -> (r: String)
    ensures
        r@ == spec_cleanup_number(
            val@,
            opts.float_precision as nat,
            opts.remove_px,
            opts.leading_zero,
        ),
{
    let v = to_char_vec(val);
    let a = crate::parser::skip_spaces(&v, 0);
    let mut b = v.len();
    proof {
        assert(v@.subrange(0, b as int) =~= v@);
    }
    while b > 0 && is_space(v[b - 1])
        invariant
            b <= v@.len(),
            last_non_space(v@) == last_non_space(v@.subrange(0, b as int)),
        decreases b,
    {
        proof {
            assert(v@.subrange(0, b as int).drop_last() =~= v@.subrange(0, b - 1));
        }
        b -= 1;
    }
    proof {
        if b > 0 {
            assert(v@.subrange(0, b as int).last() == v@[b - 1]);
        }
        assert(last_non_space(v@.subrange(0, b as int)) == b);
    }
    if a < b {
        let mut to = b;
        if opts.remove_px && to - a >= 2 && v[to - 2] == 'p' && v[to - 1] == 'x' {
            proof {
                assert(v@.subrange(a as int, b as int)[to - 2 - a] == v@[to - 2]);
                assert(v@.subrange(a as int, b as int)[to - 1 - a] == v@[to - 1]);
            }
            to -= 2;
        }
        let w = range_to_vec(&v, a, to);
        proof {
            let core = v@.subrange(a as int, b as int);
            if opts.remove_px && core.len() >= 2 && core[core.len() - 2] == 'p' && core[core.len()
                - 1] == 'x' {
                assert(w@ =~= core.subrange(0, core.len() - 2));
            } else {
                assert(w@ =~= core);
            }
        }
        match parse_dec(&w) {
            Some(d) => fmt_dec(
                dec_norm(dec_round(d, opts.float_precision)),
                opts.leading_zero,
            ),
            None => String::from_str(val),
        }
    } else {
        proof {
            assert(crate::parser::scan_digits_end(Seq::<char>::empty(), 0) == 0);
            assert(spec_parse_dec(Seq::<char>::empty()) is None);
        }
        String::from_str(val)
    }
}

/// Clean `key` on an attribute list, when present.
pub open spec fn spec_cleanup_one(
    attrs: Seq<(Seq<char>, Seq<char>)>,
    k: Seq<char>,
    p: nat,
    px: bool,
    strip: bool,
) -> Seq<(Seq<char>, Seq<char>)> {
    match attrs_get(attrs, k) {
        Some(v) => attrs_set(attrs, k, spec_cleanup_number(v, p, px, strip)),
        None => attrs,
    }
}

/// The attribute names this pass cleans, applied in a fixed order.
pub open spec fn spec_cleanup_elem_attrs(
    attrs: Seq<(Seq<char>, Seq<char>)>,
    p: nat,
    px: bool,
    strip: bool,
) -> Seq<(Seq<char>, Seq<char>)> {
    let a1 = spec_cleanup_one(attrs, "x"@, p, px, strip);
    let a2 = spec_cleanup_one(a1, "y"@, p, px, strip);
    let a3 = spec_cleanup_one(a2, "width"@, p, px, strip);
    let a4 = spec_cleanup_one(a3, "height"@, p, px, strip);
    let a5 = spec_cleanup_one(a4, "r"@, p, px, strip);
    let a6 = spec_cleanup_one(a5, "cx"@, p, px, strip);
    let a7 = spec_cleanup_one(a6, "cy"@, p, px, strip);
    let a8 = spec_cleanup_one(a7, "rx"@, p, px, strip);
    let a9 = spec_cleanup_one(a8, "ry"@, p, px, strip);
    let a10 = spec_cleanup_one(a9, "opacity"@, p, px, strip);
    let a11 = spec_cleanup_one(a10, "fill-opacity"@, p, px, strip);
    let a12 = spec_cleanup_one(a11, "stroke-opacity"@, p, px, strip);
    let a13 = spec_cleanup_one(a12, "stroke-width"@, p, px, strip);
    let a14 = spec_cleanup_one(a13, "font-size"@, p, px, strip);
    spec_cleanup_one(a14, "offset"@, p, px, strip)
}

fn cleanup_attr(a: &mut Vec<(String, String)>, key: &str, opts: &CleanupNumericValues)
    ensures
        attrs_view(final (a)@) == spec_cleanup_one(
            attrs_view(old(a)@),
            key@,
            opts.float_precision as nat,
            opts.remove_px,
            opts.leading_zero,
        ),
{
    match crate::tree::attrs_lookup(a, key) {
        Some(v) => {
            let nv = cleanup_number(v.as_str(), opts);
            crate::tree::attrs_put(a, String::from_str(key), nv);
        },
        None => {},
    }
}

/// Clean the numeric attributes of one element.
pub fn cleanup_element_numeric(elem: &mut Element, opts: &CleanupNumericValues)
    ensures
        attrs_view(final (elem).attributes@) == spec_cleanup_elem_attrs(
            attrs_view(old(elem).attributes@),
            opts.float_precision as nat,
            opts.remove_px,
            opts.leading_zero,
        ),
        final (elem).name == old(elem).name,
        final (elem).children == old(elem).children,
{
    cleanup_attr(&mut elem.attributes, "x", opts);
    cleanup_attr(&mut elem.attributes, "y", opts);
    cleanup_attr(&mut elem.attributes, "width", opts);
    cleanup_attr(&mut elem.attributes, "height", opts);
    cleanup_attr(&mut elem.attributes, "r", opts);
    cleanup_attr(&mut elem.attributes, "cx", opts);
    cleanup_attr(&mut elem.attributes, "cy", opts);
    cleanup_attr(&mut elem.attributes, "rx", opts);
    cleanup_attr(&mut elem.attributes, "ry", opts);
    cleanup_attr(&mut elem.attributes, "opacity", opts);
    cleanup_attr(&mut elem.attributes, "fill-opacity", opts);
    cleanup_attr(&mut elem.attributes, "stroke-opacity", opts);
    cleanup_attr(&mut elem.attributes, "stroke-width", opts);
    cleanup_attr(&mut elem.attributes, "font-size", opts);
    cleanup_attr(&mut elem.attributes, "offset", opts);
}

/// The whole tree with every element's numeric attributes cleaned.
pub open spec fn spec_cleanup_nodes(
    nodes: Seq<NodeView>,
    p: nat,
    px: bool,
    strip: bool,
) -> Seq<NodeView>
    decreases nodes,
{
    if nodes.len() == 0 {
        Seq::empty()
    } else {
        let rest = spec_cleanup_nodes(nodes.subrange(1, nodes.len() as int), p, px, strip);
        match nodes[0] {
            NodeView::Element { name, attrs, children } => seq![
                NodeView::Element {
                    name,
                    attrs: spec_cleanup_elem_attrs(attrs, p, px, strip),
                    children: spec_cleanup_nodes(children, p, px, strip),
                }
            ] + rest,
            other => seq![other] + rest,
        }
    }
}

#[verifier::loop_isolation(false)]
fn cleanup_vec(mut nodes: Vec<Node>, opts: &CleanupNumericValues) -> (r: Vec<Node>)
    ensures
        nodes_view(r@) == spec_cleanup_nodes(
            nodes_view(nodes@),
            opts.float_precision as nat,
            opts.remove_px,
            opts.leading_zero,
        ),
    decreases nodes,
{
    broadcast use nodes_view_len, nodes_view_index;

    let ghost orig = nodes;
    let ghost p = opts.float_precision as nat;
    let mut out: Vec<Node> = Vec::new();
    let ghost mut i: int = 0;
    while nodes.len() > 0
        invariant
            0 <= i <= orig@.len(),
            nodes@ =~= orig@.subrange(i, orig@.len() as int),
            nodes_view(out@) + spec_cleanup_nodes(
                nodes_view(nodes@),
                p,
                opts.remove_px,
                opts.leading_zero,
            ) =~= spec_cleanup_nodes(nodes_view(orig@), p, opts.remove_px, opts.leading_zero),
        decreases nodes@.len(),
    {
        proof {
            assert(nodes_view(nodes@).subrange(1, nodes_view(nodes@).len() as int) =~= nodes_view(
                nodes@.subrange(1, nodes@.len() as int),
            ));
        }
        let ghost prev_out = out@;
        let node = nodes.remove(0);
        proof {
            assert(node == orig@[i]);
            assert(decreases_to!(orig => orig@));
            assert(decreases_to!(orig@ => orig@[i]));
        }
        match node {
            Node::Element(e) => {
                proof {
                    assert(orig@[i] == Node::Element(e));
                    assert(decreases_to!(orig@[i] => e.children));
                    assert(decreases_to!(orig => e.children));
                }
                let Element { name, attributes, children } = e;
                let mut e2 = Element { name, attributes, children: Vec::new() };
                cleanup_element_numeric(&mut e2, opts);
                let kids = cleanup_vec(children, opts);
                let e3 = Element { name: e2.name, attributes: e2.attributes, children: kids };
                out.push(Node::Element(e3));
                proof {
                    assert(nodes_view(out@) =~= nodes_view(prev_out).push(node_view(
                        Node::Element(e3),
                    )));
                }
            },
            other => {
                out.push(other);
                proof {
                    assert(nodes_view(out@) =~= nodes_view(prev_out).push(node_view(
                        out@.last(),
                    )));
                }
            },
        }
        proof {
            i = i + 1;
        }
    }
    proof {
        assert(nodes_view(nodes@) =~= Seq::<NodeView>::empty());
    }
    out
}

/// Clean numeric attribute values below `nodes`, in place.
pub fn cleanup_numeric_in_nodes(nodes: &mut Vec<Node>, opts: &CleanupNumericValues)
    ensures
        nodes_view(final (nodes)@) == spec_cleanup_nodes(
            nodes_view(old(nodes)@),
            opts.float_precision as nat,
            opts.remove_px,
            opts.leading_zero,
        ),
{
    let mut v: Vec<Node> = Vec::new();
    core::mem::swap(nodes, &mut v);
    let mut v2 = cleanup_vec(v, opts);
    core::mem::swap(nodes, &mut v2);
}

impl Plugin for CleanupNumericValues {
    fn apply(&self, doc: &mut Document) {
        cleanup_numeric_in_nodes(&mut doc.root, self);
    }
}


/// Cleaning a value twice gives what cleaning it once gives: the pass
/// reaches its fixed point on every value in one application.
pub proof fn lemma_cleanup_number_idempotent(s: Seq<char>, p: nat, px: bool, strip: bool)
    ensures
        spec_cleanup_number(spec_cleanup_number(s, p, px, strip), p, px, strip)
            == spec_cleanup_number(s, p, px, strip),
{
    let a = skip_ws(s, 0);
    let b = last_non_space(s);
    let core: Seq<char> = if a < b {
        s.subrange(a, b)
    } else {
        Seq::empty()
    };
    let core2: Seq<char> = if px && core.len() >= 2 && core[core.len() - 2] == 'p' && core[
        core.len() - 1] == 'x' {
        core.subrange(0, core.len() - 2)
    } else {
        core
    };
    match crate::num::spec_parse_dec(core2) {
        None => {
            assert(spec_cleanup_number(s, p, px, strip) == s);
        },
        Some(d0) => {
            crate::num::lemma_parse_dec_wf(core2);
            let r = crate::num::spec_dec_round(d0, p);
            let n = crate::num::spec_dec_norm(r);
            let out = crate::num::spec_fmt_dec(n, strip);
            assert(spec_cleanup_number(s, p, px, strip) == out);
            crate::num::lemma_norm_props(r);
            crate::num::lemma_round_scale(d0, p);
            assert(n.scale <= p);
            assert(crate::num::dec_wf(n)) by {
                assert(crate::num::dec_wf(r)) by {
                    if d0.scale <= p {
                    } else {
                        crate::num::lemma_round_small(d0, p);
                    }
                }
            }
            crate::num::lemma_fmt_chars(n, strip);
            // the printed number has no whitespace and no px suffix
            assert(!crate::text::is_space_char(out[0]));
            assert(out.subrange(0, out.len() as int).last() == out[out.len() - 1]);
            assert(!crate::text::is_space_char(out[out.len() - 1]));
            assert(skip_ws(out, 0) == 0);
            assert(last_non_space(out) == out.len()) by {
                assert(out.drop_last() == out.subrange(0, out.len() - 1));
            }
            let core_b = out.subrange(0, out.len() as int);
            assert(core_b =~= out);
            assert(out[out.len() - 1] != 'x');
            crate::num::lemma_fmt_parse_roundtrip(n, strip);
            assert(crate::num::spec_parse_dec(out) == Some(n));
            assert(crate::num::spec_dec_round(n, p) == n);
            assert(crate::num::spec_dec_norm(n) == n);
            assert(spec_cleanup_number(out, p, px, strip) == out);
        },
    }
}


/// The attribute names of the pass, in application order.
pub open spec fn cleanup_keys() -> Seq<Seq<char>> {
    seq!["x"@, "y"@, "width"@, "height"@, "r"@, "cx"@, "cy"@, "rx"@, "ry"@, "opacity"@, "fill-opacity"@, "stroke-opacity"@, "stroke-width"@, "font-size"@, "offset"@]
}

/// The chained per-key cleanings are the fold of `spec_cleanup_one` over the
/// key list.
pub open spec fn spec_cleanup_fold(
    a: Seq<(Seq<char>, Seq<char>)>,
    ks: Seq<Seq<char>>,
    p: nat,
    px: bool,
    strip: bool,
) -> Seq<(Seq<char>, Seq<char>)>
    decreases ks.len(),
{
    if ks.len() == 0 {
        a
    } else {
        spec_cleanup_fold(
            spec_cleanup_one(a, ks[0], p, px, strip),
            ks.subrange(1, ks.len() as int),
            p,
            px,
            strip,
        )
    }
}

pub proof fn lemma_elem_attrs_is_fold(
    a: Seq<(Seq<char>, Seq<char>)>,
    p: nat,
    px: bool,
    strip: bool,
)
    ensures
        spec_cleanup_elem_attrs(a, p, px, strip) == spec_cleanup_fold(
            a,
            cleanup_keys(),
            p,
            px,
            strip,
        ),
{
    let a0 = a;
    let ks0 = seq!["x"@, "y"@, "width"@, "height"@, "r"@, "cx"@, "cy"@, "rx"@, "ry"@, "opacity"@, "fill-opacity"@, "stroke-opacity"@, "stroke-width"@, "font-size"@, "offset"@];
    let a1 = spec_cleanup_one(a0, "x"@, p, px, strip);
    assert(ks0[0] == "x"@);
    assert(ks0.subrange(1, ks0.len() as int) =~= seq!["y"@, "width"@, "height"@, "r"@, "cx"@, "cy"@, "rx"@, "ry"@, "opacity"@, "fill-opacity"@, "stroke-opacity"@, "stroke-width"@, "font-size"@, "offset"@]);
    assert(spec_cleanup_fold(a0, ks0, p, px, strip) == spec_cleanup_fold(
        a1,
        seq!["y"@, "width"@, "height"@, "r"@, "cx"@, "cy"@, "rx"@, "ry"@, "opacity"@, "fill-opacity"@, "stroke-opacity"@, "stroke-width"@, "font-size"@, "offset"@],
        p,
        px,
        strip,
    ));
    let ks1 = seq!["y"@, "width"@, "height"@, "r"@, "cx"@, "cy"@, "rx"@, "ry"@, "opacity"@, "fill-opacity"@, "stroke-opacity"@, "stroke-width"@, "font-size"@, "offset"@];
    let a2 = spec_cleanup_one(a1, "y"@, p, px, strip);
    assert(ks1[0] == "y"@);
    assert(ks1.subrange(1, ks1.len() as int) =~= seq!["width"@, "height"@, "r"@, "cx"@, "cy"@, "rx"@, "ry"@, "opacity"@, "fill-opacity"@, "stroke-opacity"@, "stroke-width"@, "font-size"@, "offset"@]);
    assert(spec_cleanup_fold(a1, ks1, p, px, strip) == spec_cleanup_fold(
        a2,
        seq!["width"@, "height"@, "r"@, "cx"@, "cy"@, "rx"@, "ry"@, "opacity"@, "fill-opacity"@, "stroke-opacity"@, "stroke-width"@, "font-size"@, "offset"@],
        p,
        px,
        strip,
    ));
    let ks2 = seq!["width"@, "height"@, "r"@, "cx"@, "cy"@, "rx"@, "ry"@, "opacity"@, "fill-opacity"@, "stroke-opacity"@, "stroke-width"@, "font-size"@, "offset"@];
    let a3 = spec_cleanup_one(a2, "width"@, p, px, strip);
    assert(ks2[0] == "width"@);
    assert(ks2.subrange(1, ks2.len() as int) =~= seq!["height"@, "r"@, "cx"@, "cy"@, "rx"@, "ry"@, "opacity"@, "fill-opacity"@, "stroke-opacity"@, "stroke-width"@, "font-size"@, "offset"@]);
    assert(spec_cleanup_fold(a2, ks2, p, px, strip) == spec_cleanup_fold(
        a3,
        seq!["height"@, "r"@, "cx"@, "cy"@, "rx"@, "ry"@, "opacity"@, "fill-opacity"@, "stroke-opacity"@, "stroke-width"@, "font-size"@, "offset"@],
        p,
        px,
        strip,
    ));
    let ks3 = seq!["height"@, "r"@, "cx"@, "cy"@, "rx"@, "ry"@, "opacity"@, "fill-opacity"@, "stroke-opacity"@, "stroke-width"@, "font-size"@, "offset"@];
    let a4 = spec_cleanup_one(a3, "height"@, p, px, strip);
    assert(ks3[0] == "height"@);
    assert(ks3.subrange(1, ks3.len() as int) =~= seq!["r"@, "cx"@, "cy"@, "rx"@, "ry"@, "opacity"@, "fill-opacity"@, "stroke-opacity"@, "stroke-width"@, "font-size"@, "offset"@]);
    assert(spec_cleanup_fold(a3, ks3, p, px, strip) == spec_cleanup_fold(
        a4,
        seq!["r"@, "cx"@, "cy"@, "rx"@, "ry"@, "opacity"@, "fill-opacity"@, "stroke-opacity"@, "stroke-width"@, "font-size"@, "offset"@],
        p,
        px,
        strip,
    ));
    let ks4 = seq!["r"@, "cx"@, "cy"@, "rx"@, "ry"@, "opacity"@, "fill-opacity"@, "stroke-opacity"@, "stroke-width"@, "font-size"@, "offset"@];
    let a5 = spec_cleanup_one(a4, "r"@, p, px, strip);
    assert(ks4[0] == "r"@);
    assert(ks4.subrange(1, ks4.len() as int) =~= seq!["cx"@, "cy"@, "rx"@, "ry"@, "opacity"@, "fill-opacity"@, "stroke-opacity"@, "stroke-width"@, "font-size"@, "offset"@]);
    assert(spec_cleanup_fold(a4, ks4, p, px, strip) == spec_cleanup_fold(
        a5,
        seq!["cx"@, "cy"@, "rx"@, "ry"@, "opacity"@, "fill-opacity"@, "stroke-opacity"@, "stroke-width"@, "font-size"@, "offset"@],
        p,
        px,
        strip,
    ));
    let ks5 = seq!["cx"@, "cy"@, "rx"@, "ry"@, "opacity"@, "fill-opacity"@, "stroke-opacity"@, "stroke-width"@, "font-size"@, "offset"@];
    let a6 = spec_cleanup_one(a5, "cx"@, p, px, strip);
    assert(ks5[0] == "cx"@);
    assert(ks5.subrange(1, ks5.len() as int) =~= seq!["cy"@, "rx"@, "ry"@, "opacity"@, "fill-opacity"@, "stroke-opacity"@, "stroke-width"@, "font-size"@, "offset"@]);
    assert(spec_cleanup_fold(a5, ks5, p, px, strip) == spec_cleanup_fold(
        a6,
        seq!["cy"@, "rx"@, "ry"@, "opacity"@, "fill-opacity"@, "stroke-opacity"@, "stroke-width"@, "font-size"@, "offset"@],
        p,
        px,
        strip,
    ));
    let ks6 = seq!["cy"@, "rx"@, "ry"@, "opacity"@, "fill-opacity"@, "stroke-opacity"@, "stroke-width"@, "font-size"@, "offset"@];
    let a7 = spec_cleanup_one(a6, "cy"@, p, px, strip);
    assert(ks6[0] == "cy"@);
    assert(ks6.subrange(1, ks6.len() as int) =~= seq!["rx"@, "ry"@, "opacity"@, "fill-opacity"@, "stroke-opacity"@, "stroke-width"@, "font-size"@, "offset"@]);
    assert(spec_cleanup_fold(a6, ks6, p, px, strip) == spec_cleanup_fold(
        a7,
        seq!["rx"@, "ry"@, "opacity"@, "fill-opacity"@, "stroke-opacity"@, "stroke-width"@, "font-size"@, "offset"@],
        p,
        px,
        strip,
    ));
    let ks7 = seq!["rx"@, "ry"@, "opacity"@, "fill-opacity"@, "stroke-opacity"@, "stroke-width"@, "font-size"@, "offset"@];
    let a8 = spec_cleanup_one(a7, "rx"@, p, px, strip);
    assert(ks7[0] == "rx"@);
    assert(ks7.subrange(1, ks7.len() as int) =~= seq!["ry"@, "opacity"@, "fill-opacity"@, "stroke-opacity"@, "stroke-width"@, "font-size"@, "offset"@]);
    assert(spec_cleanup_fold(a7, ks7, p, px, strip) == spec_cleanup_fold(
        a8,
        seq!["ry"@, "opacity"@, "fill-opacity"@, "stroke-opacity"@, "stroke-width"@, "font-size"@, "offset"@],
        p,
        px,
        strip,
    ));
    let ks8 = seq!["ry"@, "opacity"@, "fill-opacity"@, "stroke-opacity"@, "stroke-width"@, "font-size"@, "offset"@];
    let a9 = spec_cleanup_one(a8, "ry"@, p, px, strip);
    assert(ks8[0] == "ry"@);
    assert(ks8.subrange(1, ks8.len() as int) =~= seq!["opacity"@, "fill-opacity"@, "stroke-opacity"@, "stroke-width"@, "font-size"@, "offset"@]);
    assert(spec_cleanup_fold(a8, ks8, p, px, strip) == spec_cleanup_fold(
        a9,
        seq!["opacity"@, "fill-opacity"@, "stroke-opacity"@, "stroke-width"@, "font-size"@, "offset"@],
        p,
        px,
        strip,
    ));
    let ks9 = seq!["opacity"@, "fill-opacity"@, "stroke-opacity"@, "stroke-width"@, "font-size"@, "offset"@];
    let a10 = spec_cleanup_one(a9, "opacity"@, p, px, strip);
    assert(ks9[0] == "opacity"@);
    assert(ks9.subrange(1, ks9.len() as int) =~= seq!["fill-opacity"@, "stroke-opacity"@, "stroke-width"@, "font-size"@, "offset"@]);
    assert(spec_cleanup_fold(a9, ks9, p, px, strip) == spec_cleanup_fold(
        a10,
        seq!["fill-opacity"@, "stroke-opacity"@, "stroke-width"@, "font-size"@, "offset"@],
        p,
        px,
        strip,
    ));
    let ks10 = seq!["fill-opacity"@, "stroke-opacity"@, "stroke-width"@, "font-size"@, "offset"@];
    let a11 = spec_cleanup_one(a10, "fill-opacity"@, p, px, strip);
    assert(ks10[0] == "fill-opacity"@);
    assert(ks10.subrange(1, ks10.len() as int) =~= seq!["stroke-opacity"@, "stroke-width"@, "font-size"@, "offset"@]);
    assert(spec_cleanup_fold(a10, ks10, p, px, strip) == spec_cleanup_fold(
        a11,
        seq!["stroke-opacity"@, "stroke-width"@, "font-size"@, "offset"@],
        p,
        px,
        strip,
    ));
    let ks11 = seq!["stroke-opacity"@, "stroke-width"@, "font-size"@, "offset"@];
    let a12 = spec_cleanup_one(a11, "stroke-opacity"@, p, px, strip);
    assert(ks11[0] == "stroke-opacity"@);
    assert(ks11.subrange(1, ks11.len() as int) =~= seq!["stroke-width"@, "font-size"@, "offset"@]);
    assert(spec_cleanup_fold(a11, ks11, p, px, strip) == spec_cleanup_fold(
        a12,
        seq!["stroke-width"@, "font-size"@, "offset"@],
        p,
        px,
        strip,
    ));
    let ks12 = seq!["stroke-width"@, "font-size"@, "offset"@];
    let a13 = spec_cleanup_one(a12, "stroke-width"@, p, px, strip);
    assert(ks12[0] == "stroke-width"@);
    assert(ks12.subrange(1, ks12.len() as int) =~= seq!["font-size"@, "offset"@]);
    assert(spec_cleanup_fold(a12, ks12, p, px, strip) == spec_cleanup_fold(
        a13,
        seq!["font-size"@, "offset"@],
        p,
        px,
        strip,
    ));
    let ks13 = seq!["font-size"@, "offset"@];
    let a14 = spec_cleanup_one(a13, "font-size"@, p, px, strip);
    assert(ks13[0] == "font-size"@);
    assert(ks13.subrange(1, ks13.len() as int) =~= seq!["offset"@]);
    assert(spec_cleanup_fold(a13, ks13, p, px, strip) == spec_cleanup_fold(
        a14,
        seq!["offset"@],
        p,
        px,
        strip,
    ));
    let ks14 = seq!["offset"@];
    let a15 = spec_cleanup_one(a14, "offset"@, p, px, strip);
    assert(ks14[0] == "offset"@);
    assert(ks14.subrange(1, ks14.len() as int) =~= Seq::<Seq<char>>::empty());
    assert(spec_cleanup_fold(a14, ks14, p, px, strip) == spec_cleanup_fold(
        a15,
        Seq::<Seq<char>>::empty(),
        p,
        px,
        strip,
    ));
    assert(spec_cleanup_fold(a15, Seq::<Seq<char>>::empty(), p, px, strip) == a15);
    assert(cleanup_keys() =~= ks0);
    assert(spec_cleanup_elem_attrs(a, p, px, strip) == a15);
}

/// The key's value, if any, is a fixed point of the cleaning.
pub open spec fn spec_key_fixed(
    b: Seq<(Seq<char>, Seq<char>)>,
    k: Seq<char>,
    p: nat,
    px: bool,
    strip: bool,
) -> bool {
    match attrs_get(b, k) {
        Some(v) => spec_cleanup_number(v, p, px, strip) == v,
        None => true,
    }
}

/// Cleaning one key keeps uniqueness, keeps the other keys' values, and
/// leaves a fixed-point value behind.
proof fn lemma_cleanup_one_props(
    a: Seq<(Seq<char>, Seq<char>)>,
    k: Seq<char>,
    p: nat,
    px: bool,
    strip: bool,
)
    requires
        crate::tree::attrs_unique(a),
    ensures
        crate::tree::attrs_unique(spec_cleanup_one(a, k, p, px, strip)),
        forall|k2: Seq<char>|
            k2 != k ==> #[trigger] attrs_get(spec_cleanup_one(a, k, p, px, strip), k2)
                == attrs_get(a, k2),
        spec_key_fixed(spec_cleanup_one(a, k, p, px, strip), k, p, px, strip),
{
    match attrs_get(a, k) {
        Some(v) => {
            let w = spec_cleanup_number(v, p, px, strip);
            crate::tree::lemma_set_props(a, k, w);
            lemma_cleanup_number_idempotent(v, p, px, strip);
        },
        None => {},
    }
}

/// After folding over the keys, every folded key's value is a fixed point.
proof fn lemma_fold_props(
    a: Seq<(Seq<char>, Seq<char>)>,
    ks: Seq<Seq<char>>,
    p: nat,
    px: bool,
    strip: bool,
)
    requires
        crate::tree::attrs_unique(a),
    ensures
        crate::tree::attrs_unique(spec_cleanup_fold(a, ks, p, px, strip)),
        forall|k2: Seq<char>|
            !ks.contains(k2) ==> #[trigger] attrs_get(spec_cleanup_fold(a, ks, p, px, strip), k2)
                == attrs_get(a, k2),
        forall|k: Seq<char>|
            #[trigger] ks.contains(k) ==> spec_key_fixed(
                spec_cleanup_fold(a, ks, p, px, strip),
                k,
                p,
                px,
                strip,
            ),
    decreases ks.len(),
{
    if ks.len() > 0 {
        let k0 = ks[0];
        let a1 = spec_cleanup_one(a, k0, p, px, strip);
        let rest = ks.subrange(1, ks.len() as int);
        lemma_cleanup_one_props(a, k0, p, px, strip);
        lemma_fold_props(a1, rest, p, px, strip);
        let fold = spec_cleanup_fold(a, ks, p, px, strip);
        assert(fold == spec_cleanup_fold(a1, rest, p, px, strip));
        assert forall|k2: Seq<char>| !ks.contains(k2) implies #[trigger] attrs_get(fold, k2)
            == attrs_get(a, k2) by {
            assert(!rest.contains(k2)) by {
                if rest.contains(k2) {
                    let i = choose|i: int| 0 <= i < rest.len() && rest[i] == k2;
                    assert(ks[i + 1] == k2);
                }
            }
            assert(k2 != k0) by {
                assert(ks[0] == k0);
            }
        }
        assert forall|k: Seq<char>| #[trigger] ks.contains(k) implies spec_key_fixed(
            fold,
            k,
            p,
            px,
            strip,
        ) by {
            if rest.contains(k) {
            } else {
                let i = choose|i: int| 0 <= i < ks.len() && ks[i] == k;
                if i > 0 {
                    assert(rest[i - 1] == k);
                    assert(rest.contains(k));
                }
                assert(k == k0);
                assert(attrs_get(fold, k0) == attrs_get(a1, k0));
            }
        }
    }
}

/// On values that are already fixed points the fold changes nothing.
proof fn lemma_fold_stable(
    b: Seq<(Seq<char>, Seq<char>)>,
    ks: Seq<Seq<char>>,
    p: nat,
    px: bool,
    strip: bool,
)
    requires
        forall|k: Seq<char>|
            #[trigger] ks.contains(k) ==> spec_key_fixed(b, k, p, px, strip),
    ensures
        spec_cleanup_fold(b, ks, p, px, strip) == b,
    decreases ks.len(),
{
    if ks.len() > 0 {
        let k0 = ks[0];
        assert(ks.contains(k0)) by {
            assert(ks[0] == k0);
        }
        assert(spec_cleanup_one(b, k0, p, px, strip) == b) by {
            match attrs_get(b, k0) {
                Some(v) => {
                    assert(spec_cleanup_number(v, p, px, strip) == v);
                    crate::tree::lemma_set_same(b, k0, v);
                },
                None => {},
            }
        }
        let rest = ks.subrange(1, ks.len() as int);
        assert(forall|k: Seq<char>|
            #[trigger] rest.contains(k) ==> ks.contains(k)) by {
            assert forall|k: Seq<char>| #[trigger] rest.contains(k) implies ks.contains(k) by {
                let i = choose|i: int| 0 <= i < rest.len() && rest[i] == k;
                assert(ks[i + 1] == k);
            }
        }
        lemma_fold_stable(b, rest, p, px, strip);
    }
}

/// Cleaning an element's numeric attributes twice gives what cleaning once
/// gives, when its keys are unique.
pub proof fn lemma_cleanup_elem_attrs_idempotent(
    a: Seq<(Seq<char>, Seq<char>)>,
    p: nat,
    px: bool,
    strip: bool,
)
    requires
        crate::tree::attrs_unique(a),
    ensures
        spec_cleanup_elem_attrs(spec_cleanup_elem_attrs(a, p, px, strip), p, px, strip)
            == spec_cleanup_elem_attrs(a, p, px, strip),
        crate::tree::attrs_unique(spec_cleanup_elem_attrs(a, p, px, strip)),
{
    lemma_elem_attrs_is_fold(a, p, px, strip);
    lemma_fold_props(a, cleanup_keys(), p, px, strip);
    let b = spec_cleanup_elem_attrs(a, p, px, strip);
    lemma_elem_attrs_is_fold(b, p, px, strip);
    lemma_fold_stable(b, cleanup_keys(), p, px, strip);
}

/// The whole pass is idempotent on a tree with unique attribute keys.
pub proof fn lemma_cleanup_nodes_idempotent(
    nodes: Seq<NodeView>,
    p: nat,
    px: bool,
    strip: bool,
)
    requires
        crate::tree::spec_unique_tree(nodes),
    ensures
        spec_cleanup_nodes(spec_cleanup_nodes(nodes, p, px, strip), p, px, strip)
            == spec_cleanup_nodes(nodes, p, px, strip),
    decreases nodes,
{
    if nodes.len() > 0 {
        let tail = nodes.subrange(1, nodes.len() as int);
        lemma_cleanup_nodes_idempotent(tail, p, px, strip);
        let rest = spec_cleanup_nodes(tail, p, px, strip);
        let rest2 = spec_cleanup_nodes(rest, p, px, strip);
        match nodes[0] {
            NodeView::Element { name, attrs, children } => {
                lemma_cleanup_nodes_idempotent(children, p, px, strip);
                lemma_cleanup_elem_attrs_idempotent(attrs, p, px, strip);
                let head = NodeView::Element {
                    name,
                    attrs: spec_cleanup_elem_attrs(attrs, p, px, strip),
                    children: spec_cleanup_nodes(children, p, px, strip),
                };
                let once = seq![head] + rest;
                assert(once[0] == head);
                assert(once.subrange(1, once.len() as int) =~= rest);
                assert(spec_cleanup_nodes(once, p, px, strip) =~= once);
            },
            other => {
                let once = seq![other] + rest;
                assert(once[0] == other);
                assert(once.subrange(1, once.len() as int) =~= rest);
                assert(spec_cleanup_nodes(once, p, px, strip) =~= once);
            },
        }
    }
}

} // verus!
