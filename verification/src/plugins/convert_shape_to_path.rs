//! Converts basic shapes (`rect`, `circle`, `ellipse`, `line`, `polygon`,
//! `polyline`) into `path` elements with equivalent path data.
use vstd::prelude::*;
use vstd::string::StringExecFns;

use crate::plugins::Plugin;
use crate::tree::{Document, Element, Node, NodeView, node_view, nodes_view, nodes_view_len,
    nodes_view_index, attrs_get, attrs_set, attrs_remove, attrs_view};
use crate::text::{is_space_char, to_char_vec, range_to_string, string_is};
use crate::num::{Dec, dec_zero, dec_wf, spec_parse_dec, parse_dec, spec_dec_norm, dec_norm,
    spec_fmt_dec, fmt_dec, spec_dec_add, dec_add, spec_dec_sub, dec_sub, spec_dec_is_zero,
    dec_is_zero, spec_dec_le_zero, dec_le_zero};

verus! {

pub struct ConvertShapeToPath;

/// The numeric value of an attribute, zero when absent or not a number.
pub open spec fn spec_attr_dec(attrs: Seq<(Seq<char>, Seq<char>)>, k: Seq<char>) -> Dec {
    match attrs_get(attrs, k) {
        Some(v) => match spec_parse_dec(v) {
            Some(d) => d,
            None => dec_zero(),
        },
        None => dec_zero(),
    }
}

/// The numeric value of an attribute, when present and a number.
pub open spec fn spec_attr_dec_opt(attrs: Seq<(Seq<char>, Seq<char>)>, k: Seq<char>) -> Option<
    Dec,
> {
    match attrs_get(attrs, k) {
        Some(v) => spec_parse_dec(v),
        None => None,
    }
}

/// A number as written into path data: normalized shortest form.
pub open spec fn nfmt(d: Dec) -> Seq<char> {
    spec_fmt_dec(spec_dec_norm(d), false)
}

/// Path data for a plain rectangle; `None` for a zero-sized or rounded one.
pub open spec fn spec_convert_rect(attrs: Seq<(Seq<char>, Seq<char>)>) -> Option<Seq<char>> {
    let w = spec_attr_dec(attrs, "width"@);
    let h = spec_attr_dec(attrs, "height"@);
    let x = spec_attr_dec(attrs, "x"@);
    let y = spec_attr_dec(attrs, "y"@);
    if spec_dec_is_zero(w) || spec_dec_is_zero(h) {
        None
    } else if spec_attr_dec_opt(attrs, "rx"@) is None && spec_attr_dec_opt(attrs, "ry"@)
        is None {
        Some(
            "M"@ + nfmt(x) + " "@ + nfmt(y) + "h"@ + nfmt(w) + "v"@ + nfmt(h) + "h-"@ + nfmt(w)
                + "z"@,
        )
    } else {
        None
    }
}

/// Path data for a circle as two arcs; `None` for a non-positive radius.
pub open spec fn spec_convert_circle(attrs: Seq<(Seq<char>, Seq<char>)>) -> Option<Seq<char>> {
    let r = spec_attr_dec(attrs, "r"@);
    if spec_dec_le_zero(r) {
        None
    } else {
        let cx = spec_attr_dec(attrs, "cx"@);
        let cy = spec_attr_dec(attrs, "cy"@);
        let a = nfmt(spec_dec_sub(cx, r));
        let b = nfmt(spec_dec_add(cx, r));
        let c = nfmt(cy);
        let rr = nfmt(r);
        Some(
            "M"@ + a + " "@ + c + "A"@ + rr + " "@ + rr + " 0 1 0 "@ + b + " "@ + c + "A"@ + rr
                + " "@ + rr + " 0 1 0 "@ + a + " "@ + c + "z"@,
        )
    }
}

/// Path data for an ellipse as two arcs; `None` for non-positive radii.
pub open spec fn spec_convert_ellipse(attrs: Seq<(Seq<char>, Seq<char>)>) -> Option<Seq<char>> {
    let rx = spec_attr_dec(attrs, "rx"@);
    let ry = spec_attr_dec(attrs, "ry"@);
    if spec_dec_le_zero(rx) || spec_dec_le_zero(ry) {
        None
    } else {
        let cx = spec_attr_dec(attrs, "cx"@);
        let cy = spec_attr_dec(attrs, "cy"@);
        let a = nfmt(spec_dec_sub(cx, rx));
        let b = nfmt(spec_dec_add(cx, rx));
        let c = nfmt(cy);
        Some(
            "M"@ + a + " "@ + c + "A"@ + nfmt(rx) + " "@ + nfmt(ry) + " 0 1 0 "@ + b + " "@ + c
                + "A"@ + nfmt(rx) + " "@ + nfmt(ry) + " 0 1 0 "@ + a + " "@ + c + "z"@,
        )
    }
}

/// Path data for a line segment.
pub open spec fn spec_convert_line(attrs: Seq<(Seq<char>, Seq<char>)>) -> Option<Seq<char>> {
    let x1 = spec_attr_dec(attrs, "x1"@);
    let y1 = spec_attr_dec(attrs, "y1"@);
    let x2 = spec_attr_dec(attrs, "x2"@);
    let y2 = spec_attr_dec(attrs, "y2"@);
    Some("M"@ + nfmt(x1) + " "@ + nfmt(y1) + "L"@ + nfmt(x2) + " "@ + nfmt(y2))
}

// ----- point-list tokenization -----

/// A separator in a point list: whitespace or a comma.
pub open spec fn is_sep_char(c: char) -> bool {
    is_space_char(c) || c == ','
}

pub open spec fn skip_seps(s: Seq<char>, i: int) -> int
    decreases s.len() - i,
    when 0 <= i <= s.len()
{
    if i == s.len() || !is_sep_char(s[i]) {
        i
    } else {
        skip_seps(s, i + 1)
    }
}

pub open spec fn scan_tok_end(s: Seq<char>, i: int) -> int
    decreases s.len() - i,
    when 0 <= i <= s.len()
{
    if i == s.len() || is_sep_char(s[i]) {
        i
    } else {
        scan_tok_end(s, i + 1)
    }
}

pub broadcast proof fn skip_seps_bounds(s: Seq<char>, i: int)
    requires
        0 <= i <= s.len(),
    ensures
        i <= #[trigger] skip_seps(s, i) <= s.len(),
    decreases s.len() - i,
{
    if i < s.len() && is_sep_char(s[i]) {
        skip_seps_bounds(s, i + 1);
    }
}

pub broadcast proof fn scan_tok_end_bounds(s: Seq<char>, i: int)
    requires
        0 <= i <= s.len(),
    ensures
        i <= #[trigger] scan_tok_end(s, i) <= s.len(),
    decreases s.len() - i,
{
    if i < s.len() && !is_sep_char(s[i]) {
        scan_tok_end_bounds(s, i + 1);
    }
}

/// The maximal separator-free runs of `s` from position `i` on, in order.
pub open spec fn spec_tokens(s: Seq<char>, i: int) -> Seq<Seq<char>>
    decreases s.len() - i,
    when 0 <= i <= s.len()
{
    let a = skip_seps(s, i);
    proof {
        skip_seps_bounds(s, i);
    }
    if a >= s.len() {
        Seq::empty()
    } else {
        let b = scan_tok_end(s, a + 1);
        proof {
            scan_tok_end_bounds(s, a + 1);
        }
        seq![s.subrange(a, b)] + spec_tokens(s, b)
    }
}

/// The views of a token list.
pub open spec fn toks_view(v: Seq<String>) -> Seq<Seq<char>> {
    Seq::new(v.len(), |i: int| v[i]@)
}

fn exec_skip_seps(v: &Vec<char>, i: usize) -> (r: usize)
    requires
        i <= v@.len(),
    ensures
        r == skip_seps(v@, i as int),
        i <= r <= v@.len(),
    decreases v@.len() - i,
{
    if i == v.len() || !(crate::text::is_space(v[i]) || v[i] == ',') {
        i
    } else {
        exec_skip_seps(v, i + 1)
    }
}

fn exec_scan_tok(v: &Vec<char>, i: usize) -> (r: usize)
    requires
        i <= v@.len(),
    ensures
        r == scan_tok_end(v@, i as int),
        i <= r <= v@.len(),
    decreases v@.len() - i,
{
    if i == v.len() || (crate::text::is_space(v[i]) || v[i] == ',') {
        i
    } else {
        exec_scan_tok(v, i + 1)
    }
}

fn tokenize_from(v: &Vec<char>, i: usize) -> (r: Vec<String>)
    requires
        i <= v@.len(),
    ensures
        toks_view(r@) == spec_tokens(v@, i as int),
    decreases v@.len() - i,
{
    let a = exec_skip_seps(v, i);
    if a >= v.len() {
        let r: Vec<String> = Vec::new();
        proof {
            assert(toks_view(r@) =~= spec_tokens(v@, i as int));
        }
        r
    } else {
        let b = exec_scan_tok(v, a + 1);
        let tok = range_to_string(v, a, b);
        let rest = tokenize_from(v, b);
        let mut r = rest;
        let ghost old_r = r@;
        r.insert(0, tok);
        proof {
            assert(toks_view(r@) =~= seq![v@.subrange(a as int, b as int)] + toks_view(old_r));
        }
        r
    }
}

/// The `L x y` chunks for the pairs of tokens from position `i` on.
pub open spec fn spec_poly_pairs(toks: Seq<Seq<char>>, i: int) -> Seq<char>
    decreases toks.len() - i,
    when 0 <= i
{
    if i >= toks.len() {
        Seq::empty()
    } else if i + 1 < toks.len() {
        "L"@ + toks[i] + " "@ + toks[i + 1] + spec_poly_pairs(toks, i + 2)
    } else {
        Seq::empty()
    }
}

/// Path data for a polygon or polyline; `None` without at least two
/// coordinate tokens.
pub open spec fn spec_convert_poly(attrs: Seq<(Seq<char>, Seq<char>)>, close: bool) -> Option<
    Seq<char>,
> {
    match attrs_get(attrs, "points"@) {
        None => None,
        Some(points) => {
            let toks = spec_tokens(points, 0);
            if toks.len() < 2 {
                None
            } else {
                Some(
                    "M"@ + toks[0] + " "@ + toks[1] + spec_poly_pairs(toks, 2) + (if close {
                        "z"@
                    } else {
                        Seq::empty()
                    }),
                )
            }
        },
    }
}

// ----- executable conversions -----

fn attr_dec(a: &Vec<(String, String)>, key: &str) -> (r: Dec)
    ensures
        r == spec_attr_dec(attrs_view(a@), key@),
        dec_wf(r),
{
    proof {
        crate::num::pow10_30();
    }
    match crate::tree::attrs_lookup(a, key) {
        Some(v) => {
            let w = to_char_vec(v.as_str());
            match parse_dec(&w) {
                Some(d) => d,
                None => Dec { neg: false, mant: 0, scale: 0 },
            }
        },
        None => Dec { neg: false, mant: 0, scale: 0 },
    }
}

fn attr_dec_opt(a: &Vec<(String, String)>, key: &str) -> (r: Option<Dec>)
    ensures
        r == spec_attr_dec_opt(attrs_view(a@), key@),
{
    match crate::tree::attrs_lookup(a, key) {
        Some(v) => {
            let w = to_char_vec(v.as_str());
            parse_dec(&w)
        },
        None => None,
    }
}

/// Convert a `rect` element's geometry.
pub fn convert_rect(elem: &Element) -> (r: Option<String>)
    ensures
        match r {
            Some(s) => spec_convert_rect(attrs_view(elem.attributes@)) == Some(s@),
            None => spec_convert_rect(attrs_view(elem.attributes@)) is None,
        },
{
    let w = attr_dec(&elem.attributes, "width");
    let h = attr_dec(&elem.attributes, "height");
    let x = attr_dec(&elem.attributes, "x");
    let y = attr_dec(&elem.attributes, "y");
    if dec_is_zero(w) || dec_is_zero(h) {
        return None;
    }
    if attr_dec_opt(&elem.attributes, "rx").is_none() && attr_dec_opt(
        &elem.attributes,
        "ry",
    ).is_none() {
        let mut out = String::new();
        out.append("M");
        out.append(fmt_dec(dec_norm(x), false).as_str());
        out.append(" ");
        out.append(fmt_dec(dec_norm(y), false).as_str());
        out.append("h");
        out.append(fmt_dec(dec_norm(w), false).as_str());
        out.append("v");
        out.append(fmt_dec(dec_norm(h), false).as_str());
        out.append("h-");
        out.append(fmt_dec(dec_norm(w), false).as_str());
        out.append("z");
        proof {
            assert(out@ =~= spec_convert_rect(attrs_view(elem.attributes@))->0);
        }
        Some(out)
    } else {
        None
    }
}

/// Convert a `circle` element's geometry.
pub fn convert_circle(elem: &Element) -> (r: Option<String>)
    ensures
        match r {
            Some(s) => spec_convert_circle(attrs_view(elem.attributes@)) == Some(s@),
            None => spec_convert_circle(attrs_view(elem.attributes@)) is None,
        },
{
    let rad = attr_dec(&elem.attributes, "r");
    if dec_le_zero(rad) {
        return None;
    }
    let cx = attr_dec(&elem.attributes, "cx");
    let cy = attr_dec(&elem.attributes, "cy");
    let a = fmt_dec(dec_norm(dec_sub(cx, rad)), false);
    let b = fmt_dec(dec_norm(dec_add(cx, rad)), false);
    let c = fmt_dec(dec_norm(cy), false);
    let rr = fmt_dec(dec_norm(rad), false);
    let mut out = String::new();
    out.append("M");
    out.append(a.as_str());
    out.append(" ");
    out.append(c.as_str());
    out.append("A");
    out.append(rr.as_str());
    out.append(" ");
    out.append(rr.as_str());
    out.append(" 0 1 0 ");
    out.append(b.as_str());
    out.append(" ");
    out.append(c.as_str());
    out.append("A");
    out.append(rr.as_str());
    out.append(" ");
    out.append(rr.as_str());
    out.append(" 0 1 0 ");
    out.append(a.as_str());
    out.append(" ");
    out.append(c.as_str());
    out.append("z");
    proof {
        assert(out@ =~= spec_convert_circle(attrs_view(elem.attributes@))->0);
    }
    Some(out)
}

/// Convert an `ellipse` element's geometry.
pub fn convert_ellipse(elem: &Element) -> (r: Option<String>)
    ensures
        match r {
            Some(s) => spec_convert_ellipse(attrs_view(elem.attributes@)) == Some(s@),
            None => spec_convert_ellipse(attrs_view(elem.attributes@)) is None,
        },
{
    let rx = attr_dec(&elem.attributes, "rx");
    let ry = attr_dec(&elem.attributes, "ry");
    if dec_le_zero(rx) || dec_le_zero(ry) {
        return None;
    }
    let cx = attr_dec(&elem.attributes, "cx");
    let cy = attr_dec(&elem.attributes, "cy");
    let a = fmt_dec(dec_norm(dec_sub(cx, rx)), false);
    let b = fmt_dec(dec_norm(dec_add(cx, rx)), false);
    let c = fmt_dec(dec_norm(cy), false);
    let fx = fmt_dec(dec_norm(rx), false);
    let fy = fmt_dec(dec_norm(ry), false);
    let mut out = String::new();
    out.append("M");
    out.append(a.as_str());
    out.append(" ");
    out.append(c.as_str());
    out.append("A");
    out.append(fx.as_str());
    out.append(" ");
    out.append(fy.as_str());
    out.append(" 0 1 0 ");
    out.append(b.as_str());
    out.append(" ");
    out.append(c.as_str());
    out.append("A");
    out.append(fx.as_str());
    out.append(" ");
    out.append(fy.as_str());
    out.append(" 0 1 0 ");
    out.append(a.as_str());
    out.append(" ");
    out.append(c.as_str());
    out.append("z");
    proof {
        assert(out@ =~= spec_convert_ellipse(attrs_view(elem.attributes@))->0);
    }
    Some(out)
}

/// Convert a `line` element's geometry.
pub fn convert_line(elem: &Element) -> (r: Option<String>)
    ensures
        match r {
            Some(s) => spec_convert_line(attrs_view(elem.attributes@)) == Some(s@),
            None => spec_convert_line(attrs_view(elem.attributes@)) is None,
        },
{
    let x1 = attr_dec(&elem.attributes, "x1");
    let y1 = attr_dec(&elem.attributes, "y1");
    let x2 = attr_dec(&elem.attributes, "x2");
    let y2 = attr_dec(&elem.attributes, "y2");
    let mut out = String::new();
    out.append("M");
    out.append(fmt_dec(dec_norm(x1), false).as_str());
    out.append(" ");
    out.append(fmt_dec(dec_norm(y1), false).as_str());
    out.append("L");
    out.append(fmt_dec(dec_norm(x2), false).as_str());
    out.append(" ");
    out.append(fmt_dec(dec_norm(y2), false).as_str());
    proof {
        assert(out@ =~= spec_convert_line(attrs_view(elem.attributes@))->0);
    }
    Some(out)
}

/// Convert a `polygon` or `polyline` element's point list.
pub fn convert_poly(elem: &Element, close: bool) -> (r: Option<String>)
    ensures
        match r {
            Some(s) => spec_convert_poly(attrs_view(elem.attributes@), close) == Some(s@),
            None => spec_convert_poly(attrs_view(elem.attributes@), close) is None,
        },
{
    let points = match crate::tree::attrs_lookup(&elem.attributes, "points") {
        Some(p) => p,
        None => {
            return None;
        },
    };
    let v = to_char_vec(points.as_str());
    let toks = tokenize_from(&v, 0);
    proof {
        assert(toks_view(toks@).len() == toks@.len());
    }
    if toks.len() < 2 {
        return None;
    }
    let ghost tv = toks_view(toks@);
    let mut out = String::new();
    out.append("M");
    out.append(toks[0].as_str());
    out.append(" ");
    out.append(toks[1].as_str());
    let ghost head = out@;
    let mut i: usize = 2;
    let ghost mut done: Seq<char> = Seq::empty();
    while i < toks.len() && i + 1 < toks.len()
        invariant
            2 <= i <= toks@.len() + 1,
            tv == toks_view(toks@),
            tv.len() == toks@.len(),
            out@ == head + done,
            spec_poly_pairs(tv, 2) == done + spec_poly_pairs(tv, i as int),
        decreases toks@.len() - i,
    {
        out.append("L");
        out.append(toks[i].as_str());
        out.append(" ");
        out.append(toks[i + 1].as_str());
        proof {
            done = done + "L"@ + tv[i as int] + " "@ + tv[i + 1];
            assert(out@ =~= head + done);
        }
        i += 2;
    }
    proof {
        assert(spec_poly_pairs(tv, i as int) =~= Seq::<char>::empty());
        assert(done =~= spec_poly_pairs(tv, 2));
    }
    if close {
        out.append("z");
    }
    proof {
        assert(out@ =~= spec_convert_poly(attrs_view(elem.attributes@), close)->0);
    }
    Some(out)
}

/// The geometric attributes dropped when a shape becomes a path.
pub open spec fn spec_remove_shape_attrs(a: Seq<(Seq<char>, Seq<char>)>) -> Seq<
    (Seq<char>, Seq<char>),
> {
    let a1 = attrs_remove(a, "x"@);
    let a2 = attrs_remove(a1, "y"@);
    let a3 = attrs_remove(a2, "width"@);
    let a4 = attrs_remove(a3, "height"@);
    let a5 = attrs_remove(a4, "rx"@);
    let a6 = attrs_remove(a5, "ry"@);
    let a7 = attrs_remove(a6, "r"@);
    let a8 = attrs_remove(a7, "cx"@);
    let a9 = attrs_remove(a8, "cy"@);
    let a10 = attrs_remove(a9, "x1"@);
    let a11 = attrs_remove(a10, "y1"@);
    let a12 = attrs_remove(a11, "x2"@);
    let a13 = attrs_remove(a12, "y2"@);
    attrs_remove(a13, "points"@)
}

/// Drop the geometric attributes of a converted shape.
pub fn remove_shape_attrs(elem: &mut Element)
    ensures
        attrs_view(final (elem).attributes@) == spec_remove_shape_attrs(
            attrs_view(old(elem).attributes@),
        ),
        final (elem).name == old(elem).name,
        final (elem).children == old(elem).children,
{
    crate::tree::attrs_delete(&mut elem.attributes, "x");
    crate::tree::attrs_delete(&mut elem.attributes, "y");
    crate::tree::attrs_delete(&mut elem.attributes, "width");
    crate::tree::attrs_delete(&mut elem.attributes, "height");
    crate::tree::attrs_delete(&mut elem.attributes, "rx");
    crate::tree::attrs_delete(&mut elem.attributes, "ry");
    crate::tree::attrs_delete(&mut elem.attributes, "r");
    crate::tree::attrs_delete(&mut elem.attributes, "cx");
    crate::tree::attrs_delete(&mut elem.attributes, "cy");
    crate::tree::attrs_delete(&mut elem.attributes, "x1");
    crate::tree::attrs_delete(&mut elem.attributes, "y1");
    crate::tree::attrs_delete(&mut elem.attributes, "x2");
    crate::tree::attrs_delete(&mut elem.attributes, "y2");
    crate::tree::attrs_delete(&mut elem.attributes, "points");
}

/// What becomes of one element's name and attributes under this pass.
pub open spec fn spec_convert_elem(name: Seq<char>, attrs: Seq<(Seq<char>, Seq<char>)>) -> (
    Seq<char>,
    Seq<(Seq<char>, Seq<char>)>,
) {
    let d: Option<Seq<char>> = if name == "rect"@ {
        spec_convert_rect(attrs)
    } else if name == "circle"@ {
        spec_convert_circle(attrs)
    } else if name == "ellipse"@ {
        spec_convert_ellipse(attrs)
    } else if name == "line"@ {
        spec_convert_line(attrs)
    } else if name == "polygon"@ {
        spec_convert_poly(attrs, true)
    } else if name == "polyline"@ {
        spec_convert_poly(attrs, false)
    } else {
        None
    };
    match d {
        Some(path_data) => ("path"@, attrs_set(spec_remove_shape_attrs(attrs), "d"@, path_data)),
        None => (name, attrs),
    }
}

/// Convert one element in place when it is a recognized shape.
pub fn convert_element(elem: &mut Element)
    ensures
        (final (elem).name@, attrs_view(final (elem).attributes@)) == spec_convert_elem(
            old(elem).name@,
            attrs_view(old(elem).attributes@),
        ),
        final (elem).children == old(elem).children,
{
    let d: Option<String> = if string_is(&elem.name, "rect") {
        convert_rect(elem)
    } else if string_is(&elem.name, "circle") {
        convert_circle(elem)
    } else if string_is(&elem.name, "ellipse") {
        convert_ellipse(elem)
    } else if string_is(&elem.name, "line") {
        convert_line(elem)
    } else if string_is(&elem.name, "polygon") {
        convert_poly(elem, true)
    } else if string_is(&elem.name, "polyline") {
        convert_poly(elem, false)
    } else {
        None
    };
    match d {
        Some(path_data) => {
            elem.name = String::from_str("path");
            remove_shape_attrs(elem);
            crate::tree::attrs_put(&mut elem.attributes, String::from_str("d"), path_data);
        },
        None => {},
    }
}

/// The whole tree with every recognized shape converted to a path.
pub open spec fn spec_convert_shapes(nodes: Seq<NodeView>) -> Seq<NodeView>
    decreases nodes,
{
    if nodes.len() == 0 {
        Seq::empty()
    } else {
        let rest = spec_convert_shapes(nodes.subrange(1, nodes.len() as int));
        match nodes[0] {
            NodeView::Element { name, attrs, children } => {
                let p = spec_convert_elem(name, attrs);
                seq![
                    NodeView::Element {
                        name: p.0,
                        attrs: p.1,
                        children: spec_convert_shapes(children),
                    }
                ] + rest
            },
            other => seq![other] + rest,
        }
    }
}

#[verifier::loop_isolation(false)]
fn convert_vec(mut nodes: Vec<Node>) -> (r: Vec<Node>)
    ensures
        nodes_view(r@) == spec_convert_shapes(nodes_view(nodes@)),
    decreases nodes,
{
    broadcast use nodes_view_len, nodes_view_index;

    let ghost orig = nodes;
    let mut out: Vec<Node> = Vec::new();
    let ghost mut i: int = 0;
    while nodes.len() > 0
        invariant
            0 <= i <= orig@.len(),
            nodes@ =~= orig@.subrange(i, orig@.len() as int),
            nodes_view(out@) + spec_convert_shapes(nodes_view(nodes@)) =~= spec_convert_shapes(
                nodes_view(orig@),
            ),
        decreases nodes@.len(),
    {
        proof {
            assert(nodes_view(nodes@).subrange(1, nodes_view(nodes@).len() as int) =~= nodes_view(
                nodes@.subrange(1, nodes@.len() as int),
            ));
        }
        let ghost prev_out = out@;
        let node = nodes.remove(0);
        proof {
            assert(node == orig@[i]);
            assert(decreases_to!(orig => orig@));
            assert(decreases_to!(orig@ => orig@[i]));
        }
        match node {
            Node::Element(e) => {
                proof {
                    assert(orig@[i] == Node::Element(e));
                    assert(decreases_to!(orig@[i] => e.children));
                    assert(decreases_to!(orig => e.children));
                }
                let Element { name, attributes, children } = e;
                let mut e2 = Element { name, attributes, children: Vec::new() };
                convert_element(&mut e2);
                let kids = convert_vec(children);
                let e3 = Element { name: e2.name, attributes: e2.attributes, children: kids };
                out.push(Node::Element(e3));
                proof {
                    assert(nodes_view(out@) =~= nodes_view(prev_out).push(node_view(
                        Node::Element(e3),
                    )));
                }
            },
            other => {
                out.push(other);
                proof {
                    assert(nodes_view(out@) =~= nodes_view(prev_out).push(node_view(
                        out@.last(),
                    )));
                }
            },
        }
        proof {
            i = i + 1;
        }
    }
    proof {
        assert(nodes_view(nodes@) =~= Seq::<NodeView>::empty());
    }
    out
}

/// Convert every recognized shape below `nodes`, in place.
pub fn convert_shapes_in_nodes(nodes: &mut Vec<Node>)
    ensures
        nodes_view(final (nodes)@) == spec_convert_shapes(nodes_view(old(nodes)@)),
{
    let mut v: Vec<Node> = Vec::new();
    core::mem::swap(nodes, &mut v);
    let mut v2 = convert_vec(v);
    core::mem::swap(nodes, &mut v2);
}

impl Plugin for ConvertShapeToPath {
    fn apply(&self, doc: &mut Document) {
        convert_shapes_in_nodes(&mut doc.root);
    }
}


/// Converting is stable per element: what one application produces, a
/// second application leaves alone.
pub proof fn lemma_convert_elem_stable(name: Seq<char>, attrs: Seq<(Seq<char>, Seq<char>)>)
    ensures
        spec_convert_elem(
            spec_convert_elem(name, attrs).0,
            spec_convert_elem(name, attrs).1,
        ) == spec_convert_elem(name, attrs),
{
    reveal_strlit("path");
    reveal_strlit("rect");
    reveal_strlit("circle");
    reveal_strlit("ellipse");
    reveal_strlit("line");
    reveal_strlit("polygon");
    reveal_strlit("polyline");
    assert("path"@ =~= seq!['p', 'a', 't', 'h']);
    assert("rect"@ =~= seq!['r', 'e', 'c', 't']);
    assert("circle"@ =~= seq!['c', 'i', 'r', 'c', 'l', 'e']);
    assert("ellipse"@ =~= seq!['e', 'l', 'l', 'i', 'p', 's', 'e']);
    assert("line"@ =~= seq!['l', 'i', 'n', 'e']);
    assert("polygon"@ =~= seq!['p', 'o', 'l', 'y', 'g', 'o', 'n']);
    assert("polyline"@ =~= seq!['p', 'o', 'l', 'y', 'l', 'i', 'n', 'e']);
}

/// Every element of the tree is one the pass would leave alone.
pub open spec fn spec_shapes_converted(nodes: Seq<NodeView>) -> bool
    decreases nodes,
{
    if nodes.len() == 0 {
        true
    } else {
        let rest = spec_shapes_converted(nodes.subrange(1, nodes.len() as int));
        match nodes[0] {
            NodeView::Element { name, attrs, children } => spec_convert_elem(name, attrs) == (
                name,
                attrs,
            ) && spec_shapes_converted(children) && rest,
            _ => rest,
        }
    }
}

/// After the pass, every element is stable under it.
pub proof fn lemma_convert_shapes_complete(nodes: Seq<NodeView>)
    ensures
        spec_shapes_converted(spec_convert_shapes(nodes)),
    decreases nodes,
{
    if nodes.len() > 0 {
        let tail = nodes.subrange(1, nodes.len() as int);
        lemma_convert_shapes_complete(tail);
        let rest = spec_convert_shapes(tail);
        match nodes[0] {
            NodeView::Element { name, attrs, children } => {
                lemma_convert_shapes_complete(children);
                lemma_convert_elem_stable(name, attrs);
                let p = spec_convert_elem(name, attrs);
                let head = NodeView::Element {
                    name: p.0,
                    attrs: p.1,
                    children: spec_convert_shapes(children),
                };
                let whole = seq![head] + rest;
                assert(whole[0] == head);
                assert(whole.subrange(1, whole.len() as int) =~= rest);
            },
            other => {
                let whole = seq![other] + rest;
                assert(whole[0] == other);
                assert(whole.subrange(1, whole.len() as int) =~= rest);
            },
        }
    }
}

/// On a converted tree the pass changes nothing.
pub proof fn lemma_convert_shapes_stable(nodes: Seq<NodeView>)
    requires
        spec_shapes_converted(nodes),
    ensures
        spec_convert_shapes(nodes) == nodes,
    decreases nodes,
{
    if nodes.len() > 0 {
        let tail = nodes.subrange(1, nodes.len() as int);
        lemma_convert_shapes_stable(tail);
        match nodes[0] {
            NodeView::Element { name, attrs, children } => {
                lemma_convert_shapes_stable(children);
                assert(spec_convert_shapes(nodes) =~= nodes);
            },
            other => {
                assert(spec_convert_shapes(nodes) =~= nodes);
            },
        }
    }
}

/// The pass is idempotent: a second run returns its input unchanged.
pub proof fn lemma_convert_shapes_idempotent(nodes: Seq<NodeView>)
    ensures
        spec_convert_shapes(spec_convert_shapes(nodes)) == spec_convert_shapes(nodes),
{
    lemma_convert_shapes_complete(nodes);
    lemma_convert_shapes_stable(spec_convert_shapes(nodes));
}

} // verus!
