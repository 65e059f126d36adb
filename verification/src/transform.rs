//! The transform mini-language codec: parses a transform list
//! (`matrix`, `translate`, `scale`, `rotate`, `skewX`, `skewY`), composes it
//! into one affine matrix by exact decimal arithmetic, and re-serializes a
//! matrix in its shortest named form. Rotations and skews compose exactly
//! for the angles whose sine, cosine or tangent is exactly representable
//! (quarter turns, and the odd multiples of 45 degrees for skews); a list
//! with any other angle is left for its caller to pass through unchanged.
use vstd::prelude::*;
use vstd::string::StringExecFns;

use crate::text::{is_space_char, to_char_vec, range_to_string, range_to_vec};
use crate::num::{Dec, dec_wf, dec_zero, spec_parse_dec, parse_dec, spec_dec_norm, dec_norm,
    spec_dec_round, dec_round, spec_fmt_dec, fmt_dec, pow10, pow10_u128, pow10_30, pow10_mono,
    pow10_pos};
use crate::path_data::{is_psep, skip_pseps, skip_pseps_bounds, num_token_end,
    num_token_end_bounds};

verus! {

// ----- checked, normalizing decimal arithmetic -----

/// The exact product, normalized; `None` when it cannot be represented.
pub open spec fn spec_dec_mul(a: Dec, b: Dec) -> Option<Dec> {
    if a.mant as int * b.mant as int <= u128::MAX as int && a.scale as int + b.scale as int
        <= 1000 {
        Some(
            spec_dec_norm(
                Dec {
                    neg: a.neg != b.neg,
                    mant: (a.mant as int * b.mant as int) as u128,
                    scale: (a.scale + b.scale) as u32,
                },
            ),
        )
    } else {
        None
    }
}

pub fn dec_mul(a: Dec, b: Dec) -> (r: Option<Dec>)
    ensures
        r == spec_dec_mul(a, b),
{
    match a.mant.checked_mul(b.mant) {
        Some(m) => {
            let ssum: u64 = (a.scale as u64) + (b.scale as u64);
            if ssum <= 1000 {
                Some(dec_norm(Dec { neg: a.neg != b.neg, mant: m, scale: ssum as u32 }))
            } else {
                None
            }
        },
        None => None,
    }
}

/// The exact sum, normalized; `None` when it cannot be represented.
pub open spec fn spec_dec_add_chk(a: Dec, b: Dec) -> Option<Dec> {
    let s: u32 = if a.scale >= b.scale {
        a.scale
    } else {
        b.scale
    };
    if s - a.scale > 30 || s - b.scale > 30 {
        None
    } else {
        let am = a.mant as int * pow10((s - a.scale) as nat);
        let bm = b.mant as int * pow10((s - b.scale) as nat);
        if am > u128::MAX as int || bm > u128::MAX as int {
            None
        } else if a.neg == b.neg {
            if am + bm > u128::MAX as int {
                None
            } else {
                Some(spec_dec_norm(Dec { neg: a.neg, mant: (am + bm) as u128, scale: s }))
            }
        } else if am >= bm {
            Some(spec_dec_norm(Dec { neg: a.neg, mant: (am - bm) as u128, scale: s }))
        } else {
            Some(spec_dec_norm(Dec { neg: b.neg, mant: (bm - am) as u128, scale: s }))
        }
    }
}

pub fn dec_add_chk(a: Dec, b: Dec) -> (r: Option<Dec>)
    ensures
        r == spec_dec_add_chk(a, b),
{
    let s: u32 = if a.scale >= b.scale {
        a.scale
    } else {
        b.scale
    };
    if s - a.scale > 30 || s - b.scale > 30 {
        return None;
    }
    let pa = pow10_u128(s - a.scale);
    let pb = pow10_u128(s - b.scale);
    let am = match a.mant.checked_mul(pa) {
        Some(v) => v,
        None => {
            return None;
        },
    };
    let bm = match b.mant.checked_mul(pb) {
        Some(v) => v,
        None => {
            return None;
        },
    };
    if a.neg == b.neg {
        match am.checked_add(bm) {
            Some(m) => Some(dec_norm(Dec { neg: a.neg, mant: m, scale: s })),
            None => None,
        }
    } else if am >= bm {
        proof {
            assert(am as int + bm as int <= u128::MAX as int || true);
        }
        Some(dec_norm(Dec { neg: a.neg, mant: am - bm, scale: s }))
    } else {
        Some(dec_norm(Dec { neg: b.neg, mant: bm - am, scale: s }))
    }
}

// ----- matrices -----

/// A 2x3 affine matrix in the usual column order:
/// `x' = a x + c y + e`, `y' = b x + d y + f`.
pub struct Matrix {
    pub a: Dec,
    pub b: Dec,
    pub c: Dec,
    pub d: Dec,
    pub e: Dec,
    pub f: Dec,
}

pub open spec fn dec_one() -> Dec {
    Dec { neg: false, mant: 1, scale: 0 }
}

pub open spec fn dec_neg_one() -> Dec {
    Dec { neg: true, mant: 1, scale: 0 }
}

pub open spec fn spec_identity() -> Matrix {
    Matrix { a: dec_one(), b: dec_zero(), c: dec_zero(), d: dec_one(), e: dec_zero(), f: dec_zero() }
}

pub fn identity() -> (r: Matrix)
    ensures
        r == spec_identity(),
{
    Matrix {
        a: Dec { neg: false, mant: 1, scale: 0 },
        b: Dec { neg: false, mant: 0, scale: 0 },
        c: Dec { neg: false, mant: 0, scale: 0 },
        d: Dec { neg: false, mant: 1, scale: 0 },
        e: Dec { neg: false, mant: 0, scale: 0 },
        f: Dec { neg: false, mant: 0, scale: 0 },
    }
}

/// `m1 * m2`: the transform that applies `m2` first in the local frame of
/// `m1`; `None` when an entry cannot be represented.
pub open spec fn spec_mat_mul(m1: Matrix, m2: Matrix) -> Option<Matrix> {
    let a = spec_sum_prod(m1.a, m2.a, m1.c, m2.b);
    let b = spec_sum_prod(m1.b, m2.a, m1.d, m2.b);
    let c = spec_sum_prod(m1.a, m2.c, m1.c, m2.d);
    let d = spec_sum_prod(m1.b, m2.c, m1.d, m2.d);
    let e = spec_sum_prod_add(m1.a, m2.e, m1.c, m2.f, m1.e);
    let f = spec_sum_prod_add(m1.b, m2.e, m1.d, m2.f, m1.f);
    if a is Some && b is Some && c is Some && d is Some && e is Some && f is Some {
        Some(Matrix { a: a->0, b: b->0, c: c->0, d: d->0, e: e->0, f: f->0 })
    } else {
        None
    }
}

/// `x*y + z*w`, checked.
pub open spec fn spec_sum_prod(x: Dec, y: Dec, z: Dec, w: Dec) -> Option<Dec> {
    match (spec_dec_mul(x, y), spec_dec_mul(z, w)) {
        (Some(p), Some(q)) => spec_dec_add_chk(p, q),
        _ => None,
    }
}

/// `x*y + z*w + v`, checked.
pub open spec fn spec_sum_prod_add(x: Dec, y: Dec, z: Dec, w: Dec, v: Dec) -> Option<Dec> {
    match spec_sum_prod(x, y, z, w) {
        Some(s) => spec_dec_add_chk(s, v),
        None => None,
    }
}

fn sum_prod(x: Dec, y: Dec, z: Dec, w: Dec) -> (r: Option<Dec>)
    ensures
        r == spec_sum_prod(x, y, z, w),
{
    match (dec_mul(x, y), dec_mul(z, w)) {
        (Some(p), Some(q)) => dec_add_chk(p, q),
        _ => None,
    }
}

fn sum_prod_add(x: Dec, y: Dec, z: Dec, w: Dec, v: Dec) -> (r: Option<Dec>)
    ensures
        r == spec_sum_prod_add(x, y, z, w, v),
{
    match sum_prod(x, y, z, w) {
        Some(s) => dec_add_chk(s, v),
        None => None,
    }
}

pub fn mat_mul(m1: &Matrix, m2: &Matrix) -> (r: Option<Matrix>)
    ensures
        r == spec_mat_mul(*m1, *m2),
{
    let a = sum_prod(m1.a, m2.a, m1.c, m2.b);
    let b = sum_prod(m1.b, m2.a, m1.d, m2.b);
    let c = sum_prod(m1.a, m2.c, m1.c, m2.d);
    let d = sum_prod(m1.b, m2.c, m1.d, m2.d);
    let e = sum_prod_add(m1.a, m2.e, m1.c, m2.f, m1.e);
    let f = sum_prod_add(m1.b, m2.e, m1.d, m2.f, m1.f);
    match (a, b, c, d, e, f) {
        (Some(a), Some(b), Some(c), Some(d), Some(e), Some(f)) => Some(
            Matrix { a, b, c, d, e, f },
        ),
        _ => None,
    }
}

/// The image of a point under the matrix, checked.
pub open spec fn spec_apply(m: Matrix, x: Dec, y: Dec) -> Option<(Dec, Dec)> {
    match (
        spec_sum_prod_add(m.a, x, m.c, y, m.e),
        spec_sum_prod_add(m.b, x, m.d, y, m.f),
    ) {
        (Some(px), Some(py)) => Some((px, py)),
        _ => None,
    }
}

pub fn apply(m: &Matrix, x: Dec, y: Dec) -> (r: Option<(Dec, Dec)>)
    ensures
        r == spec_apply(*m, x, y),
{
    match (sum_prod_add(m.a, x, m.c, y, m.e), sum_prod_add(m.b, x, m.d, y, m.f)) {
        (Some(px), Some(py)) => Some((px, py)),
        _ => None,
    }
}



/// One parsed transform function: its name and its numeric arguments.
pub struct TransformCmd {
    pub name: String,
    pub args: Vec<Dec>,
}

pub ghost struct TfCmdView {
    pub name: Seq<char>,
    pub args: Seq<Dec>,
}

pub open spec fn tf_view(c: TransformCmd) -> TfCmdView {
    TfCmdView { name: c.name@, args: c.args@ }
}

pub open spec fn tfs_view(v: Seq<TransformCmd>) -> Seq<TfCmdView> {
    Seq::new(v.len(), |i: int| tf_view(v[i]))
}

/// A known function name with an allowed argument count.
pub open spec fn spec_valid_tf(name: Seq<char>, n: int) -> bool {
    ||| (name == "matrix"@ && n == 6)
    ||| (name == "translate"@ && (n == 1 || n == 2))
    ||| (name == "scale"@ && (n == 1 || n == 2))
    ||| (name == "rotate"@ && (n == 1 || n == 3))
    ||| (name == "skewX"@ && n == 1)
    ||| (name == "skewY"@ && n == 1)
}

fn valid_tf(name: &String, n: usize) -> (r: bool)
    ensures
        r == spec_valid_tf(name@, n as int),
{
    (crate::text::string_is(name, "matrix") && n == 6) || (crate::text::string_is(
        name,
        "translate",
    ) && (n == 1 || n == 2)) || (crate::text::string_is(name, "scale") && (n == 1 || n == 2)) || (
    crate::text::string_is(name, "rotate") && (n == 1 || n == 3)) || (crate::text::string_is(
        name,
        "skewX",
    ) && n == 1) || (crate::text::string_is(name, "skewY") && n == 1)
}

pub open spec fn is_alpha(c: char) -> bool {
    ('a' <= c && c <= 'z') || ('A' <= c && c <= 'Z')
}

pub open spec fn scan_alpha_end(s: Seq<char>, i: int) -> int
    decreases s.len() - i,
    when 0 <= i <= s.len()
{
    if i == s.len() || !is_alpha(s[i]) {
        i
    } else {
        scan_alpha_end(s, i + 1)
    }
}

pub broadcast proof fn scan_alpha_end_bounds(s: Seq<char>, i: int)
    requires
        0 <= i <= s.len(),
    ensures
        i <= #[trigger] scan_alpha_end(s, i) <= s.len(),
    decreases s.len() - i,
{
    if i < s.len() && is_alpha(s[i]) {
        scan_alpha_end_bounds(s, i + 1);
    }
}

fn exec_scan_alpha(v: &Vec<char>, i: usize) -> (r: usize)
    requires
        i <= v@.len(),
    ensures
        r == scan_alpha_end(v@, i as int),
        i <= r <= v@.len(),
    decreases v@.len() - i,
{
    if i == v.len() || !(('a' <= v[i] && v[i] <= 'z') || ('A' <= v[i] && v[i] <= 'Z')) {
        i
    } else {
        exec_scan_alpha(v, i + 1)
    }
}

pub open spec fn tstep(s: Seq<char>, i: int, j: int) -> int {
    if i < j && j <= s.len() {
        j
    } else {
        i + 1
    }
}

/// Parse the arguments of one function up to and past the closing
/// parenthesis.
pub open spec fn spec_parse_tf_args(s: Seq<char>, i: int) -> Option<(Seq<Dec>, int)>
    decreases s.len() - i,
    when 0 <= i <= s.len()
{
    let a = skip_pseps(s, i);
    proof {
        skip_pseps_bounds(s, i);
    }
    if a >= s.len() {
        None
    } else if s[a] == ')' {
        Some((Seq::empty(), a + 1))
    } else {
        let e = num_token_end(s, a);
        proof {
            num_token_end_bounds(s, a);
        }
        if e == a {
            None
        } else {
            match spec_parse_dec(s.subrange(a, e)) {
                None => None,
                Some(d) => match spec_parse_tf_args(s, tstep(s, i, e)) {
                    None => None,
                    Some((rest, end)) => Some((seq![spec_dec_norm(d)] + rest, end)),
                },
            }
        }
    }
}

pub proof fn spec_parse_tf_args_bounds(s: Seq<char>, i: int)
    requires
        0 <= i <= s.len(),
    ensures
        match spec_parse_tf_args(s, i) {
            Some((args, end)) => i < end <= s.len(),
            None => true,
        },
    decreases s.len() - i,
{
    skip_pseps_bounds(s, i);
    let a = skip_pseps(s, i);
    if a < s.len() && s[a] != ')' {
        num_token_end_bounds(s, a);
        let e = num_token_end(s, a);
        if e > a && spec_parse_dec(s.subrange(a, e)) is Some {
            spec_parse_tf_args_bounds(s, tstep(s, i, e));
        }
    }
}

/// Parse a whole transform list: function calls separated by whitespace or
/// commas; `None` for anything that is not a known function with an allowed
/// argument count.
pub open spec fn spec_parse_transforms(s: Seq<char>, i: int) -> Option<Seq<TfCmdView>>
    decreases s.len() - i,
    when 0 <= i <= s.len()
{
    let a = skip_pseps(s, i);
    proof {
        skip_pseps_bounds(s, i);
    }
    if a >= s.len() {
        Some(Seq::empty())
    } else {
        let ne = scan_alpha_end(s, a);
        proof {
            scan_alpha_end_bounds(s, a);
        }
        if ne == a {
            None
        } else {
            let name = s.subrange(a, ne);
            let p = crate::parser::skip_ws(s, ne);
            proof {
                crate::parser::skip_ws_bounds(s, ne);
            }
            if p < s.len() && s[p] == '(' {
                match spec_parse_tf_args(s, p + 1) {
                    None => None,
                    Some((args, end)) => {
                        proof {
                            spec_parse_tf_args_bounds(s, p + 1);
                        }
                        if spec_valid_tf(name, args.len() as int) {
                            match spec_parse_transforms(s, tstep(s, i, end)) {
                                None => None,
                                Some(rest) => Some(seq![TfCmdView { name, args }] + rest),
                            }
                        } else {
                            None
                        }
                    },
                }
            } else {
                None
            }
        }
    }
}

fn exec_parse_tf_args(v: &Vec<char>, i: usize) -> (r: Option<(Vec<Dec>, usize)>)
    requires
        i <= v@.len(),
    ensures
        match r {
            Some((args, end)) => spec_parse_tf_args(v@, i as int) == Some((args@, end as int))
                && i < end <= v@.len(),
            None => spec_parse_tf_args(v@, i as int) is None,
        },
    decreases v@.len() - i,
{
    let a = crate::path_data::exec_skip_pseps2(v, i);
    if a >= v.len() {
        return None;
    }
    if v[a] == ')' {
        return Some((Vec::new(), a + 1));
    }
    let e = crate::path_data::exec_num_token_end(v, a);
    if e == a {
        return None;
    }
    let tok = range_to_vec(v, a, e);
    match parse_dec(&tok) {
        None => None,
        Some(d) => {
            proof {
                assert(tstep(v@, i as int, e as int) == e as int);
            }
            match exec_parse_tf_args(v, e) {
                None => None,
                Some((rest, end)) => {
                    let mut args = rest;
                    let ghost old_args = args@;
                    args.insert(0, dec_norm(d));
                    proof {
                        assert(args@ =~= seq![spec_dec_norm(d)] + old_args);
                    }
                    Some((args, end))
                },
            }
        },
    }
}

fn exec_parse_transforms(v: &Vec<char>, i: usize) -> (r: Option<Vec<TransformCmd>>)
    requires
        i <= v@.len(),
    ensures
        match r {
            Some(cmds) => spec_parse_transforms(v@, i as int) == Some(tfs_view(cmds@)),
            None => spec_parse_transforms(v@, i as int) is None,
        },
    decreases v@.len() - i,
{
    let a = crate::path_data::exec_skip_pseps2(v, i);
    if a >= v.len() {
        let r: Vec<TransformCmd> = Vec::new();
        proof {
            assert(tfs_view(r@) =~= Seq::<TfCmdView>::empty());
        }
        return Some(r);
    }
    let ne = exec_scan_alpha(v, a);
    if ne == a {
        return None;
    }
    let name = range_to_string(v, a, ne);
    let p = crate::parser::skip_spaces(v, ne);
    if p < v.len() && v[p] == '(' {
        match exec_parse_tf_args(v, p + 1) {
            None => None,
            Some((args, end)) => {
                if valid_tf(&name, args.len()) {
                    proof {
                        assert(tstep(v@, i as int, end as int) == end as int);
                    }
                    match exec_parse_transforms(v, end) {
                        None => None,
                        Some(rest) => {
                            let mut cmds = rest;
                            let ghost old_cmds = cmds@;
                            cmds.insert(0, TransformCmd { name, args });
                            proof {
                                assert(tfs_view(cmds@) =~= seq![tf_view(cmds@[0])] + tfs_view(
                                    old_cmds,
                                ));
                            }
                            Some(cmds)
                        },
                    }
                } else {
                    None
                }
            },
        }
    } else {
        None
    }
}

/// Parse a transform list, or `None` when it is not one.
pub fn parse_transform(value: &str) -> (r: Option<Vec<TransformCmd>>)
    ensures
        match r {
            Some(cmds) => spec_parse_transforms(value@, 0) == Some(tfs_view(cmds@)),
            None => spec_parse_transforms(value@, 0) is None,
        },
{
    let v = to_char_vec(value);
    exec_parse_transforms(&v, 0)
}


// ----- composing -----

/// The cosine and sine of an angle in degrees, exactly, for quarter turns.
pub open spec fn spec_quarter_cos_sin(angle: Dec) -> Option<(Dec, Dec)> {
    let n = spec_dec_norm(angle);
    if n.scale != 0 {
        None
    } else {
        let m = n.mant % 360;
        let deg: u128 = if n.neg && m != 0 {
            (360 - m) as u128
        } else {
            m as u128
        };
        if deg == 0 {
            Some((dec_one(), dec_zero()))
        } else if deg == 90 {
            Some((dec_zero(), dec_one()))
        } else if deg == 180 {
            Some((dec_neg_one(), dec_zero()))
        } else if deg == 270 {
            Some((dec_zero(), dec_neg_one()))
        } else {
            None
        }
    }
}

fn quarter_cos_sin(angle: Dec) -> (r: Option<(Dec, Dec)>)
    ensures
        r == spec_quarter_cos_sin(angle),
{
    let n = dec_norm(angle);
    if n.scale != 0 {
        return None;
    }
    let m = n.mant % 360;
    let deg: u128 = if n.neg && m != 0 {
        360 - m
    } else {
        m
    };
    if deg == 0 {
        Some((Dec { neg: false, mant: 1, scale: 0 }, Dec { neg: false, mant: 0, scale: 0 }))
    } else if deg == 90 {
        Some((Dec { neg: false, mant: 0, scale: 0 }, Dec { neg: false, mant: 1, scale: 0 }))
    } else if deg == 180 {
        Some((Dec { neg: true, mant: 1, scale: 0 }, Dec { neg: false, mant: 0, scale: 0 }))
    } else if deg == 270 {
        Some((Dec { neg: false, mant: 0, scale: 0 }, Dec { neg: true, mant: 1, scale: 0 }))
    } else {
        None
    }
}

/// The tangent of an angle in degrees, exactly, where it is a whole number.
pub open spec fn spec_exact_tan(angle: Dec) -> Option<Dec> {
    let n = spec_dec_norm(angle);
    if n.scale != 0 {
        None
    } else {
        let m = n.mant % 180;
        let deg: u128 = if n.neg && m != 0 {
            (180 - m) as u128
        } else {
            m as u128
        };
        if deg == 0 {
            Some(dec_zero())
        } else if deg == 45 {
            Some(dec_one())
        } else if deg == 135 {
            Some(dec_neg_one())
        } else {
            None
        }
    }
}

fn exact_tan(angle: Dec) -> (r: Option<Dec>)
    ensures
        r == spec_exact_tan(angle),
{
    let n = dec_norm(angle);
    if n.scale != 0 {
        return None;
    }
    let m = n.mant % 180;
    let deg: u128 = if n.neg && m != 0 {
        180 - m
    } else {
        m
    };
    if deg == 0 {
        Some(Dec { neg: false, mant: 0, scale: 0 })
    } else if deg == 45 {
        Some(Dec { neg: false, mant: 1, scale: 0 })
    } else if deg == 135 {
        Some(Dec { neg: true, mant: 1, scale: 0 })
    } else {
        None
    }
}

/// The negation, normalized so that zero keeps its canonical form.
pub open spec fn spec_neg_norm(d: Dec) -> Dec {
    spec_dec_norm(Dec { neg: !d.neg, mant: d.mant, scale: d.scale })
}

fn neg_norm(d: Dec) -> (r: Dec)
    ensures
        r == spec_neg_norm(d),
{
    dec_norm(Dec { neg: !d.neg, mant: d.mant, scale: d.scale })
}

/// The matrix of one transform function; `None` when the function's angle
/// has no exact matrix.
pub open spec fn spec_op_matrix(c: TfCmdView) -> Option<Matrix> {
    if c.name == "matrix"@ {
        Some(
            Matrix {
                a: c.args[0],
                b: c.args[1],
                c: c.args[2],
                d: c.args[3],
                e: c.args[4],
                f: c.args[5],
            },
        )
    } else if c.name == "translate"@ {
        let y: Dec = if c.args.len() == 2 {
            c.args[1]
        } else {
            dec_zero()
        };
        Some(
            Matrix {
                a: dec_one(),
                b: dec_zero(),
                c: dec_zero(),
                d: dec_one(),
                e: c.args[0],
                f: y,
            },
        )
    } else if c.name == "scale"@ {
        let sy: Dec = if c.args.len() == 2 {
            c.args[1]
        } else {
            c.args[0]
        };
        Some(
            Matrix {
                a: c.args[0],
                b: dec_zero(),
                c: dec_zero(),
                d: sy,
                e: dec_zero(),
                f: dec_zero(),
            },
        )
    } else if c.name == "rotate"@ {
        match spec_quarter_cos_sin(c.args[0]) {
            None => None,
            Some((cs, sn)) => {
                let r = Matrix {
                    a: cs,
                    b: sn,
                    c: spec_neg_norm(sn),
                    d: cs,
                    e: dec_zero(),
                    f: dec_zero(),
                };
                if c.args.len() == 3 {
                    let t1 = Matrix {
                        a: dec_one(),
                        b: dec_zero(),
                        c: dec_zero(),
                        d: dec_one(),
                        e: c.args[1],
                        f: c.args[2],
                    };
                    let t2 = Matrix {
                        a: dec_one(),
                        b: dec_zero(),
                        c: dec_zero(),
                        d: dec_one(),
                        e: spec_neg_norm(c.args[1]),
                        f: spec_neg_norm(c.args[2]),
                    };
                    match spec_mat_mul(t1, r) {
                        None => None,
                        Some(m1) => spec_mat_mul(m1, t2),
                    }
                } else {
                    Some(r)
                }
            },
        }
    } else if c.name == "skewX"@ {
        match spec_exact_tan(c.args[0]) {
            None => None,
            Some(t) => Some(
                Matrix {
                    a: dec_one(),
                    b: dec_zero(),
                    c: t,
                    d: dec_one(),
                    e: dec_zero(),
                    f: dec_zero(),
                },
            ),
        }
    } else if c.name == "skewY"@ {
        match spec_exact_tan(c.args[0]) {
            None => None,
            Some(t) => Some(
                Matrix {
                    a: dec_one(),
                    b: t,
                    c: dec_zero(),
                    d: dec_one(),
                    e: dec_zero(),
                    f: dec_zero(),
                },
            ),
        }
    } else {
        None
    }
}

fn op_matrix(c: &TransformCmd) -> (r: Option<Matrix>)
    requires
        spec_valid_tf(c.name@, c.args@.len() as int),
    ensures
        r == spec_op_matrix(tf_view(*c)),
{
    broadcast use vstd::string::group_string_axioms;

    proof {
        reveal_strlit("matrix");
        reveal_strlit("translate");
        reveal_strlit("scale");
        reveal_strlit("rotate");
        reveal_strlit("skewX");
        reveal_strlit("skewY");
        assert("matrix"@ =~= seq!['m', 'a', 't', 'r', 'i', 'x']);
        assert("translate"@ =~= seq!['t', 'r', 'a', 'n', 's', 'l', 'a', 't', 'e']);
        assert("scale"@ =~= seq!['s', 'c', 'a', 'l', 'e']);
        assert("rotate"@ =~= seq!['r', 'o', 't', 'a', 't', 'e']);
        assert("skewX"@ =~= seq!['s', 'k', 'e', 'w', 'X']);
        assert("skewY"@ =~= seq!['s', 'k', 'e', 'w', 'Y']);
        assert("matrix"@ != "translate"@ && "matrix"@ != "scale"@ && "matrix"@ != "rotate"@
            && "matrix"@ != "skewX"@ && "matrix"@ != "skewY"@);
        assert("translate"@ != "scale"@ && "translate"@ != "rotate"@ && "translate"@
            != "skewX"@ && "translate"@ != "skewY"@);
        assert("scale"@ != "rotate"@ && "scale"@ != "skewX"@ && "scale"@ != "skewY"@);
        assert("rotate"@ != "skewX"@ && "rotate"@ != "skewY"@);
        assert("skewX"@ != "skewY"@);
    }
    let zero = Dec { neg: false, mant: 0, scale: 0 };
    let one = Dec { neg: false, mant: 1, scale: 0 };
    if crate::text::string_is(&c.name, "matrix") {
        Some(
            Matrix {
                a: c.args[0],
                b: c.args[1],
                c: c.args[2],
                d: c.args[3],
                e: c.args[4],
                f: c.args[5],
            },
        )
    } else if crate::text::string_is(&c.name, "translate") {
        let y: Dec = if c.args.len() == 2 {
            c.args[1]
        } else {
            zero
        };
        Some(Matrix { a: one, b: zero, c: zero, d: one, e: c.args[0], f: y })
    } else if crate::text::string_is(&c.name, "scale") {
        let sy: Dec = if c.args.len() == 2 {
            c.args[1]
        } else {
            c.args[0]
        };
        Some(Matrix { a: c.args[0], b: zero, c: zero, d: sy, e: zero, f: zero })
    } else if crate::text::string_is(&c.name, "rotate") {
        match quarter_cos_sin(c.args[0]) {
            None => None,
            Some((cs, sn)) => {
                let r = Matrix { a: cs, b: sn, c: neg_norm(sn), d: cs, e: zero, f: zero };
                if c.args.len() == 3 {
                    let t1 = Matrix { a: one, b: zero, c: zero, d: one, e: c.args[1], f: c.args[2] };
                    let t2 = Matrix {
                        a: one,
                        b: zero,
                        c: zero,
                        d: one,
                        e: neg_norm(c.args[1]),
                        f: neg_norm(c.args[2]),
                    };
                    match mat_mul(&t1, &r) {
                        None => None,
                        Some(m1) => mat_mul(&m1, &t2),
                    }
                } else {
                    Some(r)
                }
            },
        }
    } else if crate::text::string_is(&c.name, "skewX") {
        match exact_tan(c.args[0]) {
            None => None,
            Some(t) => Some(Matrix { a: one, b: zero, c: t, d: one, e: zero, f: zero }),
        }
    } else {
        match exact_tan(c.args[0]) {
            None => None,
            Some(t) => Some(Matrix { a: one, b: t, c: zero, d: one, e: zero, f: zero }),
        }
    }
}

/// The composition of the functions from position `i` on, applied to the
/// left of an accumulated matrix.
pub open spec fn spec_compose_from(cmds: Seq<TfCmdView>, i: int, m: Matrix) -> Option<Matrix>
    decreases cmds.len() - i,
    when 0 <= i
{
    if i >= cmds.len() {
        Some(m)
    } else {
        match spec_op_matrix(cmds[i]) {
            None => None,
            Some(om) => match spec_mat_mul(m, om) {
                None => None,
                Some(m2) => spec_compose_from(cmds, i + 1, m2),
            },
        }
    }
}

/// The single matrix of a whole transform list, composed left to right.
pub open spec fn spec_compose(cmds: Seq<TfCmdView>) -> Option<Matrix> {
    spec_compose_from(cmds, 0, spec_identity())
}

fn compose_from(cmds: &Vec<TransformCmd>, i: usize, m: Matrix) -> (r: Option<Matrix>)
    requires
        i <= cmds@.len(),
        forall|j: int|
            0 <= j < cmds@.len() ==> spec_valid_tf(
                #[trigger] tfs_view(cmds@)[j].name,
                tfs_view(cmds@)[j].args.len() as int,
            ),
    ensures
        r == spec_compose_from(tfs_view(cmds@), i as int, m),
    decreases cmds@.len() - i,
{
    if i == cmds.len() {
        Some(m)
    } else {
        proof {
            assert(tfs_view(cmds@)[i as int] == tf_view(cmds@[i as int]));
        }
        match op_matrix(&cmds[i]) {
            None => None,
            Some(om) => match mat_mul(&m, &om) {
                None => None,
                Some(m2) => compose_from(cmds, i + 1, m2),
            },
        }
    }
}

/// Every parsed function has a known name and an allowed argument count.
pub open spec fn tfs_all_valid(cmds: Seq<TfCmdView>) -> bool {
    forall|j: int|
        0 <= j < cmds.len() ==> spec_valid_tf(
            #[trigger] cmds[j].name,
            cmds[j].args.len() as int,
        )
}

/// Whatever the transform grammar accepts is a list of known functions with
/// allowed argument counts, so it can be composed.
pub proof fn lemma_parse_transforms_valid(s: Seq<char>, i: int)
    requires
        0 <= i <= s.len(),
    ensures
        match spec_parse_transforms(s, i) {
            Some(cmds) => tfs_all_valid(cmds),
            None => true,
        },
    decreases s.len() - i,
{
    skip_pseps_bounds(s, i);
    let a = skip_pseps(s, i);
    if a < s.len() {
        scan_alpha_end_bounds(s, a);
        let ne = scan_alpha_end(s, a);
        if ne > a {
            crate::parser::skip_ws_bounds(s, ne);
            let p = crate::parser::skip_ws(s, ne);
            if p < s.len() && s[p] == '(' {
                if spec_parse_tf_args(s, p + 1) is Some {
                    spec_parse_tf_args_bounds(s, p + 1);
                    let (args, end) = spec_parse_tf_args(s, p + 1)->0;
                    if spec_valid_tf(s.subrange(a, ne), args.len() as int) {
                        lemma_parse_transforms_valid(s, tstep(s, i, end));
                    }
                }
            }
        }
    }
}

/// Compose a parsed transform list into one matrix; `None` when some
/// function's angle has no exact matrix or an entry cannot be represented.
pub fn compose(cmds: &Vec<TransformCmd>) -> (r: Option<Matrix>)
    requires
        tfs_all_valid(tfs_view(cmds@)),
    ensures
        r == spec_compose(tfs_view(cmds@)),
{
    compose_from(cmds, 0, identity())
}


// ----- serializing -----

/// Serialization options: the precision for linear terms, a separate one
/// for rotation angles, and whether a fraction's leading zero is dropped.
pub struct TransformOptions {
    pub precision: usize,
    pub deg_precision: usize,
    pub leading_zero: bool,
}

/// An entry rounded for output.
pub open spec fn spec_tf_round(d: Dec, p: nat) -> Dec {
    spec_dec_norm(spec_dec_round(d, p))
}

pub open spec fn spec_is_one(d: Dec) -> bool {
    !d.neg && d.mant == 1 && d.scale == 0
}

pub open spec fn spec_is_neg_one(d: Dec) -> bool {
    d.neg && d.mant == 1 && d.scale == 0
}

pub open spec fn spec_is_zero_c(d: Dec) -> bool {
    d.mant == 0
}

/// The shortest of the textually valid forms of a rounded matrix, preferring
/// the named forms on a tie: `translate` when it is a pure translation,
/// `scale` when a pure scale, `rotate` when an exact quarter turn, and the
/// full `matrix(...)` otherwise.
pub open spec fn spec_encode_matrix(m: Matrix, p: nat, dp: nat, strip: bool) -> Seq<char> {
    let a = spec_tf_round(m.a, p);
    let b = spec_tf_round(m.b, p);
    let c = spec_tf_round(m.c, p);
    let d = spec_tf_round(m.d, p);
    let e = spec_tf_round(m.e, p);
    let f = spec_tf_round(m.f, p);
    let mx = "matrix("@ + spec_fmt_dec(a, strip) + " "@ + spec_fmt_dec(b, strip) + " "@
        + spec_fmt_dec(c, strip) + " "@ + spec_fmt_dec(d, strip) + " "@ + spec_fmt_dec(e, strip)
        + " "@ + spec_fmt_dec(f, strip) + ")"@;
    let tr: Option<Seq<char>> = if spec_is_one(a) && spec_is_zero_c(b) && spec_is_zero_c(c)
        && spec_is_one(d) {
        Some(
            "translate("@ + spec_fmt_dec(e, strip) + (if spec_is_zero_c(f) {
                ")"@
            } else {
                " "@ + spec_fmt_dec(f, strip) + ")"@
            }),
        )
    } else {
        None
    };
    let sc: Option<Seq<char>> = if spec_is_zero_c(b) && spec_is_zero_c(c) && spec_is_zero_c(e)
        && spec_is_zero_c(f) {
        Some(
            "scale("@ + spec_fmt_dec(a, strip) + (if d == a {
                ")"@
            } else {
                " "@ + spec_fmt_dec(d, strip) + ")"@
            }),
        )
    } else {
        None
    };
    let ro: Option<Seq<char>> = if spec_is_zero_c(e) && spec_is_zero_c(f) {
        if spec_is_zero_c(a) && spec_is_one(b) && spec_is_neg_one(c) && spec_is_zero_c(d) {
            Some("rotate("@ + spec_rot_angle(90, dp, strip) + ")"@)
        } else if spec_is_neg_one(a) && spec_is_zero_c(b) && spec_is_zero_c(c) && spec_is_neg_one(
            d,
        ) {
            Some("rotate("@ + spec_rot_angle(180, dp, strip) + ")"@)
        } else if spec_is_zero_c(a) && spec_is_neg_one(b) && spec_is_one(c) && spec_is_zero_c(d) {
            Some("rotate("@ + spec_rot_angle(270, dp, strip) + ")"@)
        } else {
            None
        }
    } else {
        None
    };
    let best0 = mx;
    let best1: Seq<char> = match ro {
        Some(t) => if t.len() <= best0.len() {
            t
        } else {
            best0
        },
        None => best0,
    };
    let best2: Seq<char> = match sc {
        Some(t) => if t.len() <= best1.len() {
            t
        } else {
            best1
        },
        None => best1,
    };
    match tr {
        Some(t) => if t.len() <= best2.len() {
            t
        } else {
            best2
        },
        None => best2,
    }
}

/// A whole-degree rotation angle as printed at the angular precision.
pub open spec fn spec_rot_angle(deg: u128, dp: nat, strip: bool) -> Seq<char> {
    spec_fmt_dec(
        spec_dec_norm(spec_dec_round(Dec { neg: false, mant: deg, scale: 0 }, dp)),
        strip,
    )
}

fn rot_angle(deg: u128, opts: &TransformOptions) -> (r: String)
    ensures
        r@ == spec_rot_angle(deg, opts.deg_precision as nat, opts.leading_zero),
{
    fmt_dec(
        dec_norm(crate::num::dec_round_any(Dec { neg: false, mant: deg, scale: 0 },
            opts.deg_precision)),
        opts.leading_zero,
    )
}

fn is_one(d: Dec) -> (r: bool)
    ensures
        r == spec_is_one(d),
{
    !d.neg && d.mant == 1 && d.scale == 0
}

fn is_neg_one(d: Dec) -> (r: bool)
    ensures
        r == spec_is_neg_one(d),
{
    d.neg && d.mant == 1 && d.scale == 0
}

fn is_zero_c(d: Dec) -> (r: bool)
    ensures
        r == spec_is_zero_c(d),
{
    d.mant == 0
}

fn dec_same(a: Dec, b: Dec) -> (r: bool)
    ensures
        r == (a == b),
{
    a.neg == b.neg && a.mant == b.mant && a.scale == b.scale
}

/// Serialize a composed matrix in its shortest equivalent form at the given
/// precisions.
#[verifier::rlimit(60)]
pub fn encode_matrix(m: &Matrix, opts: &TransformOptions) -> (r: String)
    ensures
        r@ == spec_encode_matrix(
            *m,
            opts.precision as nat,
            opts.deg_precision as nat,
            opts.leading_zero,
        ),
{
    let strip = opts.leading_zero;
    let a = dec_norm(crate::num::dec_round_any(m.a, opts.precision));
    let b = dec_norm(crate::num::dec_round_any(m.b, opts.precision));
    let c = dec_norm(crate::num::dec_round_any(m.c, opts.precision));
    let d = dec_norm(crate::num::dec_round_any(m.d, opts.precision));
    let e = dec_norm(crate::num::dec_round_any(m.e, opts.precision));
    let f = dec_norm(crate::num::dec_round_any(m.f, opts.precision));
    let mut mx = String::new();
    mx.append("matrix(");
    mx.append(fmt_dec(a, strip).as_str());
    mx.append(" ");
    mx.append(fmt_dec(b, strip).as_str());
    mx.append(" ");
    mx.append(fmt_dec(c, strip).as_str());
    mx.append(" ");
    mx.append(fmt_dec(d, strip).as_str());
    mx.append(" ");
    mx.append(fmt_dec(e, strip).as_str());
    mx.append(" ");
    mx.append(fmt_dec(f, strip).as_str());
    mx.append(")");
    let tr: Option<String> = if is_one(a) && is_zero_c(b) && is_zero_c(c) && is_one(d) {
        let mut t = String::new();
        t.append("translate(");
        t.append(fmt_dec(e, strip).as_str());
        if is_zero_c(f) {
            t.append(")");
        } else {
            t.append(" ");
            t.append(fmt_dec(f, strip).as_str());
            t.append(")");
        }
        Some(t)
    } else {
        None
    };
    let sc: Option<String> = if is_zero_c(b) && is_zero_c(c) && is_zero_c(e) && is_zero_c(f) {
        let mut t = String::new();
        t.append("scale(");
        t.append(fmt_dec(a, strip).as_str());
        if dec_same(d, a) {
            t.append(")");
        } else {
            t.append(" ");
            t.append(fmt_dec(d, strip).as_str());
            t.append(")");
        }
        Some(t)
    } else {
        None
    };
    let ro: Option<String> = if is_zero_c(e) && is_zero_c(f) {
        if is_zero_c(a) && is_one(b) && is_neg_one(c) && is_zero_c(d) {
            let mut t = String::new();
            t.append("rotate(");
            t.append(rot_angle(90, opts).as_str());
            t.append(")");
            Some(t)
        } else if is_neg_one(a) && is_zero_c(b) && is_zero_c(c) && is_neg_one(d) {
            let mut t = String::new();
            t.append("rotate(");
            t.append(rot_angle(180, opts).as_str());
            t.append(")");
            Some(t)
        } else if is_zero_c(a) && is_neg_one(b) && is_one(c) && is_zero_c(d) {
            let mut t = String::new();
            t.append("rotate(");
            t.append(rot_angle(270, opts).as_str());
            t.append(")");
            Some(t)
        } else {
            None
        }
    } else {
        None
    };
    let mut best = mx;
    match ro {
        Some(t) => {
            if t.as_str().unicode_len() <= best.as_str().unicode_len() {
                best = t;
            }
        },
        None => {},
    }
    match sc {
        Some(t) => {
            if t.as_str().unicode_len() <= best.as_str().unicode_len() {
                best = t;
            }
        },
        None => {},
    }
    match tr {
        Some(t) => {
            if t.as_str().unicode_len() <= best.as_str().unicode_len() {
                best = t;
            }
        },
        None => {},
    }
    best
}

} // verus!
