//! Exact decimal numbers: parsing, rounding half-away-from-zero at a given
//! precision, normalization and shortest formatting. A value is held as a
//! sign, an integer mantissa and a decimal scale: `(-1)^neg * mant / 10^scale`.
use vstd::prelude::*;

use crate::text::{is_digit_char, digit_val};
use crate::parser::{char_of, scan_digits_end, scan_digits, dec_value_of};

verus! {

/// Ten to the power `n`.
pub open spec fn pow10(n: nat) -> int
    decreases n,
{
    if n == 0 {
        1
    } else {
        10 * pow10((n - 1) as nat)
    }
}

pub broadcast proof fn pow10_pos(n: nat)
    ensures
        #[trigger] pow10(n) >= 1,
    decreases n,
{
    if n > 0 {
        pow10_pos((n - 1) as nat);
    }
}

pub proof fn pow10_add(m: nat, n: nat)
    ensures
        pow10(m + n) == pow10(m) * pow10(n),
    decreases m,
{
    if m == 0 {
    } else {
        pow10_add((m - 1) as nat, n);
        assert(pow10(m + n) == 10 * pow10((m + n - 1) as nat));
        assert(10 * (pow10((m - 1) as nat) * pow10(n)) == (10 * pow10((m - 1) as nat)) * pow10(n))
            by (nonlinear_arith);
    }
}

pub proof fn pow10_mono(m: nat, n: nat)
    requires
        m <= n,
    ensures
        pow10(m) <= pow10(n),
    decreases n,
{
    broadcast use pow10_pos;

    if m < n {
        pow10_mono(m, (n - 1) as nat);
    }
}

/// The concrete bound used for overflow reasoning.
pub proof fn pow10_30()
    ensures
        pow10(30) == 1000000000000000000000000000000,
        pow10(15) == 1000000000000000,
{
    reveal_with_fuel(pow10, 31);
}

/// Ten to the power `k`, executable.
pub fn pow10_u128(k: u32) -> (r: u128)
    requires
        k <= 30,
    ensures
        r as int == pow10(k as nat),
    decreases k,
{
    proof {
        pow10_30();
        pow10_mono(k as nat, 30);
        broadcast use pow10_pos;

    }
    if k == 0 {
        1
    } else {
        proof {
            pow10_mono((k - 1) as nat, 30);
        }
        let p = pow10_u128(k - 1);
        10 * p
    }
}

/// All characters are decimal digits.
pub open spec fn all_digits(s: Seq<char>) -> bool {
    forall|i: int| 0 <= i < s.len() ==> is_digit_char(s[i])
}

pub proof fn dec_value_bound(s: Seq<char>)
    requires
        all_digits(s),
    ensures
        0 <= dec_value_of(s) < pow10(s.len()),
    decreases s.len(),
{
    if s.len() > 0 {
        assert(all_digits(s.drop_last()));
        dec_value_bound(s.drop_last());
    }
}

/// A decimal value: `(-1)^neg * mant / 10^scale`.
#[derive(Clone, Copy, Debug, PartialEq, Eq, Structural)]
pub struct Dec {
    pub neg: bool,
    pub mant: u128,
    pub scale: u32,
}

/// A freshly parsed decimal: at most fifteen digits.
pub open spec fn dec_wf(d: Dec) -> bool {
    d.mant < pow10(15) && d.scale <= 15
}

/// The signed mantissa.
pub open spec fn dec_num(d: Dec) -> int {
    if d.neg {
        -(d.mant as int)
    } else {
        d.mant as int
    }
}

pub open spec fn dec_zero() -> Dec {
    Dec { neg: false, mant: 0, scale: 0 }
}

// ----- parsing -----


/// First position at or after `i` that does not hold a zero character.
pub open spec fn scan_zeros_end(s: Seq<char>, i: int) -> int
    decreases s.len() - i,
    when 0 <= i <= s.len()
{
    if i == s.len() || s[i] != '0' {
        i
    } else {
        scan_zeros_end(s, i + 1)
    }
}

pub broadcast proof fn scan_zeros_end_bounds(s: Seq<char>, i: int)
    requires
        0 <= i <= s.len(),
    ensures
        i <= #[trigger] scan_zeros_end(s, i) <= s.len(),
        forall|k: int| i <= k < scan_zeros_end(s, i) ==> s[k] == '0',
    decreases s.len() - i,
{
    if i < s.len() && s[i] == '0' {
        scan_zeros_end_bounds(s, i + 1);
    }
}

/// A zero run extends the scan at least to its end.
pub proof fn lemma_scan_zeros_at_least(s: Seq<char>, i: int, j: int)
    requires
        0 <= i <= j <= s.len(),
        forall|k: int| i <= k < j ==> s[k] == '0',
    ensures
        scan_zeros_end(s, i) >= j,
    decreases j - i,
{
    scan_zeros_end_bounds(s, i);
    if i < j {
        lemma_scan_zeros_at_least(s, i + 1, j);
    }
}

fn exec_scan_zeros(v: &Vec<char>, i: usize) -> (r: usize)
    requires
        i <= v@.len(),
    ensures
        r == scan_zeros_end(v@, i as int),
        i <= r <= v@.len(),
    decreases v@.len() - i,
{
    if i == v.len() || v[i] != '0' {
        i
    } else {
        exec_scan_zeros(v, i + 1)
    }
}

/// The decimal grammar: an optional sign, digits, an optional point and more
/// digits; at least one digit in all, at most fifteen of them significant
/// (after any leading zeros), and at most fifteen decimal places. Anything
/// else is not a number.
pub open spec fn spec_parse_dec(s: Seq<char>) -> Option<Dec> {
    let p: int = if s.len() > 0 && (s[0] == '+' || s[0] == '-') {
        1
    } else {
        0
    };
    let neg = s.len() > 0 && s[0] == '-';
    let e1 = scan_digits_end(s, p);
    if e1 < s.len() && s[e1] == '.' {
        let e2 = scan_digits_end(s, e1 + 1);
        let digits = s.subrange(p, e1) + s.subrange(e1 + 1, e2);
        if e2 == s.len() && 1 <= digits.len() && digits.len() - scan_zeros_end(digits, 0) <= 15
            && e2 - e1 - 1 <= 15 {
            Some(Dec { neg, mant: dec_value_of(digits) as u128, scale: (e2 - e1 - 1) as u32 })
        } else {
            None
        }
    } else {
        let digits = s.subrange(p, e1);
        if e1 == s.len() && 1 <= digits.len() && digits.len() - scan_zeros_end(digits, 0) <= 15 {
            Some(Dec { neg, mant: dec_value_of(digits) as u128, scale: 0 })
        } else {
            None
        }
    }
}

/// Exact value of a run of digit characters.
fn dec_value_u128(v: &Vec<char>, from: usize, to: usize) -> (r: u128)
    requires
        from <= to <= v@.len(),
        to - from <= 15,
        forall|k: int| from <= k < to ==> is_digit_char(v@[k]),
    ensures
        r as int == dec_value_of(v@.subrange(from as int, to as int)),
        (r as int) < pow10((to - from) as nat),
{
    proof {
        pow10_30();
    }
    let mut r: u128 = 0;
    let mut i: usize = from;
    proof {
        assert(v@.subrange(from as int, from as int) =~= Seq::<char>::empty());
    }
    while i < to
        invariant
            from <= i <= to <= v@.len(),
            to - from <= 15,
            forall|k: int| from <= k < to ==> is_digit_char(v@[k]),
            r as int == dec_value_of(v@.subrange(from as int, i as int)),
            (r as int) < pow10((i - from) as nat),
        decreases to - i,
    {
        let ghost pre = v@.subrange(from as int, i as int);
        proof {
            pow10_mono((i - from) as nat, 14);
            pow10_30();
            pow10_mono(14, 15);
        }
        let c = v[i];
        let d: u128 = ((c as u32) - ('0' as u32)) as u128;
        r = r * 10 + d;
        i += 1;
        proof {
            let post = v@.subrange(from as int, i as int);
            assert(post.drop_last() =~= pre);
            assert(dec_value_of(post) == dec_value_of(pre) * 10 + digit_val(v@[i - 1]));
        }
    }
    proof {
        assert(v@.subrange(from as int, to as int) =~= v@.subrange(from as int, i as int));
    }
    r
}

/// Parse a whole character sequence as a decimal number.
#[verifier::rlimit(100)]
pub fn parse_dec(v: &Vec<char>) -> (r: Option<Dec>)
    ensures
        r == spec_parse_dec(v@),
        match r {
            Some(d) => dec_wf(d),
            None => true,
        },
{
    proof {
        pow10_30();
    }
    let n = v.len();
    let p: usize = if n > 0 && (v[0] == '+' || v[0] == '-') {
        1
    } else {
        0
    };
    let neg = n > 0 && v[0] == '-';
    let e1 = scan_digits(v, p);
    proof {
        crate::parser::scan_digits_end_bounds(v@, p as int);
    }
    let mut digits: Vec<char> = Vec::new();
    let mut i: usize = p;
    while i < e1
        invariant
            p <= i <= e1 <= v@.len(),
            digits@ =~= v@.subrange(p as int, i as int),
        decreases e1 - i,
    {
        digits.push(v[i]);
        i += 1;
    }
    let scale: u32;
    if e1 < n && v[e1] == '.' {
        let e2 = scan_digits(v, e1 + 1);
        proof {
            crate::parser::scan_digits_end_bounds(v@, e1 + 1);
        }
        if e2 != n || e2 - e1 - 1 > 15 {
            return None;
        }
        let mut j: usize = e1 + 1;
        while j < e2
            invariant
                e1 + 1 <= j <= e2 <= v@.len(),
                p <= e1,
                digits@ =~= v@.subrange(p as int, e1 as int) + v@.subrange(e1 + 1, j as int),
            decreases e2 - j,
        {
            digits.push(v[j]);
            j += 1;
        }
        proof {
            assert(digits@ =~= v@.subrange(p as int, e1 as int) + v@.subrange(e1 + 1, e2 as int));
        }
        scale = (e2 - e1 - 1) as u32;
        proof {
            assert(scale <= 15);
        }
    } else {
        if e1 != n {
            return None;
        }
        proof {
            assert(digits@ =~= v@.subrange(p as int, e1 as int));
        }
        scale = 0;
    }
    if digits.len() < 1 {
        return None;
    }
    let lz = exec_scan_zeros(&digits, 0);
    if digits.len() - lz > 15 {
        return None;
    }
    proof {
        broadcast use scan_zeros_end_bounds;

        assert(forall|k: int| 0 <= k < lz ==> digits@[k] == '0');
        assert(forall|k: int|
            0 <= k < digits@.len() ==> is_digit_char(#[trigger] digits@[k]));
        assert(digits@ =~= digits@.subrange(0, lz as int) + digits@.subrange(
            lz as int,
            digits@.len() as int,
        ));
        lemma_value_leading_zeros(
            digits@.subrange(0, lz as int),
            digits@.subrange(lz as int, digits@.len() as int),
        );
    }
    let mant = dec_value_u128(&digits, lz, digits.len());
    proof {
        pow10_mono((digits@.len() - lz) as nat, 15);
    }
    Some(Dec { neg, mant, scale })
}

// ----- rounding and normalization -----

/// Round a nonnegative mantissa down by `k` decimal places, half away from
/// zero.
pub open spec fn spec_round_mant(m: int, k: nat) -> int {
    let pw = pow10(k);
    if (m % pw) * 2 >= pw {
        m / pw + 1
    } else {
        m / pw
    }
}

/// Round to at most `p` decimal places, half away from zero.
pub open spec fn spec_dec_round(d: Dec, p: nat) -> Dec {
    if d.scale <= p {
        d
    } else {
        Dec {
            neg: d.neg,
            mant: spec_round_mant(d.mant as int, (d.scale - p) as nat) as u128,
            scale: p as u32,
        }
    }
}

pub fn dec_round(d: Dec, p: usize) -> (r: Dec)
    requires
        dec_wf(d),
    ensures
        r == spec_dec_round(d, p as nat),
        dec_wf(r),
{
    if (d.scale as usize) <= p {
        d
    } else {
        let k: u32 = d.scale - (p as u32);
        let pw = pow10_u128(k);
        proof {
            broadcast use pow10_pos;

            pow10_30();
            pow10_mono(k as nat, 15);
            assert(1 <= pw as int <= pow10(15));
        }
        let q = d.mant / pw;
        let rem = d.mant % pw;
        let mant = if rem * 2 >= pw {
            q + 1
        } else {
            q
        };
        proof {
            assert(p as u32 == (p as nat) as u32);
            assert(k as nat == (d.scale - p as nat) as nat);
            assert(pw as int == pow10(k as nat) && k >= 1);
            assert(pow10(k as nat) == 10 * pow10((k - 1) as nat));
            assert(pw as int >= 10);
            assert((d.mant as int / (pw as int)) * 10 <= d.mant as int) by (nonlinear_arith)
                requires
                    pw as int >= 10,
                    d.mant as int >= 0,
            ;
            assert(d.mant as int / (pw as int) <= d.mant as int);
        }
        Dec { neg: d.neg, mant, scale: p as u32 }
    }
}


/// The concrete bounds used for rounding large scales.
pub proof fn pow10_39()
    ensures
        pow10(38) == 100000000000000000000000000000000000000,
        pow10(39) == 1000000000000000000000000000000000000000,
{
    reveal_with_fuel(pow10, 40);
}

/// Ten to the power `k` for any exponent a `u128` can hold.
pub fn pow10_u128_wide(k: u32) -> (r: u128)
    requires
        k <= 38,
    ensures
        r as int == pow10(k as nat),
    decreases k,
{
    proof {
        pow10_39();
        pow10_mono(k as nat, 38);
        broadcast use pow10_pos;

    }
    if k == 0 {
        1
    } else {
        proof {
            pow10_mono((k - 1) as nat, 38);
        }
        let p = pow10_u128_wide(k - 1);
        10 * p
    }
}

/// Round to at most `p` decimal places, half away from zero, for any value.
pub fn dec_round_any(d: Dec, p: usize) -> (r: Dec)
    ensures
        r == spec_dec_round(d, p as nat),
{
    if (d.scale as usize) <= p {
        d
    } else {
        let k: u32 = d.scale - (p as u32);
        proof {
            assert(p as u32 == (p as nat) as u32);
            assert(k as nat == (d.scale - p as nat) as nat);
        }
        if k > 38 {
            proof {
                pow10_39();
                pow10_mono(39, k as nat);
                broadcast use pow10_pos;

                let pw = pow10(k as nat);
                assert((d.mant as int) < pw);
                assert((d.mant as int) * 2 < pw);
                assert((d.mant as int) % pw == d.mant as int && (d.mant as int) / pw == 0) by (
                nonlinear_arith)
                    requires
                        0 <= d.mant as int,
                        (d.mant as int) < pw,
                ;
                assert(spec_round_mant(d.mant as int, k as nat) == 0);
            }
            Dec { neg: d.neg, mant: 0, scale: p as u32 }
        } else {
            let pw = pow10_u128_wide(k);
            proof {
                broadcast use pow10_pos;

                pow10_39();
                pow10_mono(k as nat, 38);
            }
            let q = d.mant / pw;
            let rem = d.mant % pw;
            proof {
                assert(rem < pw);
                assert(pw as int <= pow10(38));
                assert(k >= 1);
                assert(pow10(k as nat) == 10 * pow10((k - 1) as nat));
                assert(pw as int >= 10);
                assert((d.mant as int / (pw as int)) * 10 <= d.mant as int) by (nonlinear_arith)
                    requires
                        pw as int >= 10,
                        d.mant as int >= 0,
                ;
            }
            let mant = if rem * 2 >= pw {
                q + 1
            } else {
                q
            };
            Dec { neg: d.neg, mant, scale: p as u32 }
        }
    }
}

/// Drop trailing zero decimals; a zero loses its sign and scale.
pub open spec fn spec_dec_norm(d: Dec) -> Dec
    decreases d.scale,
{
    if d.mant == 0 {
        dec_zero()
    } else if d.scale > 0 && d.mant % 10 == 0 {
        spec_dec_norm(Dec { neg: d.neg, mant: (d.mant / 10) as u128, scale: (d.scale - 1) as u32 })
    } else {
        d
    }
}

pub fn dec_norm(d: Dec) -> (r: Dec)
    ensures
        r == spec_dec_norm(d),
    decreases d.scale,
{
    if d.mant == 0 {
        Dec { neg: false, mant: 0, scale: 0 }
    } else if d.scale > 0 && d.mant % 10 == 0 {
        dec_norm(Dec { neg: d.neg, mant: d.mant / 10, scale: d.scale - 1 })
    } else {
        d
    }
}

// ----- formatting -----

/// The decimal digits of a nonnegative number, most significant first.
pub open spec fn dec_digits(n: int) -> Seq<char>
    decreases n,
    when n >= 0
{
    if n < 10 {
        seq![char_of('0' as int + n)]
    } else {
        dec_digits(n / 10) + seq![char_of('0' as int + n % 10)]
    }
}

/// `n` zero characters.
pub open spec fn zeros(n: nat) -> Seq<char>
    decreases n,
{
    if n == 0 {
        Seq::empty()
    } else {
        zeros((n - 1) as nat) + seq!['0']
    }
}

/// The shortest textual form of a decimal: sign, integer part (dropped when
/// zero and `strip` is set), point and fraction when the scale is positive.
pub open spec fn spec_fmt_dec(d: Dec, strip: bool) -> Seq<char> {
    let ds = dec_digits(d.mant as int);
    let sign: Seq<char> = if d.neg {
        seq!['-']
    } else {
        Seq::empty()
    };
    if d.scale == 0 {
        sign + ds
    } else if ds.len() > d.scale {
        sign + ds.subrange(0, ds.len() - d.scale) + seq!['.'] + ds.subrange(
            ds.len() - d.scale,
            ds.len() as int,
        )
    } else {
        let head: Seq<char> = if strip {
            Seq::empty()
        } else {
            seq!['0']
        };
        sign + head + seq!['.'] + zeros((d.scale - ds.len()) as nat) + ds
    }
}

fn digit_char(d: u8) -> (c: char)
    requires
        d < 10,
    ensures
        c == char_of('0' as int + d as int),
{
    let b: u8 = 48 + d;
    let c = b as char;
    proof {
        assert('0' as int == 48);
        assert(c == (b as u32) as char);
    }
    c
}

/// The digits of `n`, executable.
fn fmt_digits(n: u128) -> (r: Vec<char>)
    ensures
        r@ == dec_digits(n as int),
        r@.len() >= 1,
    decreases n,
{
    if n < 10 {
        let c = digit_char(n as u8);
        let r = vec![c];
        proof {
            assert(r@ =~= seq![char_of('0' as int + n as int)]);
        }
        r
    } else {
        let mut r = fmt_digits(n / 10);
        let c = digit_char((n % 10) as u8);
        let ghost pre = r@;
        r.push(c);
        proof {
            assert(r@ =~= pre + seq![char_of('0' as int + (n as int) % 10)]);
        }
        r
    }
}

/// Format a decimal in its shortest form.
pub fn fmt_dec(d: Dec, strip: bool) -> (r: String)
    ensures
        r@ == spec_fmt_dec(d, strip),
{
    let ds = fmt_digits(d.mant);
    let mut out: Vec<char> = Vec::new();
    if d.neg {
        out.push('-');
    }
    if d.scale == 0 {
        let mut i: usize = 0;
        while i < ds.len()
            invariant
                0 <= i <= ds@.len(),
                out@ =~= (if d.neg {
                    seq!['-']
                } else {
                    Seq::<char>::empty()
                }) + ds@.subrange(0, i as int),
            decreases ds@.len() - i,
        {
            out.push(ds[i]);
            i += 1;
        }
        proof {
            assert(ds@.subrange(0, ds@.len() as int) =~= ds@);
            assert(out@ =~= spec_fmt_dec(d, strip));
        }
        crate::text::chars_to_string(&out)
    } else if ds.len() > d.scale as usize {
        let cut = ds.len() - d.scale as usize;
        let mut i: usize = 0;
        while i < cut
            invariant
                0 <= i <= cut <= ds@.len(),
                out@ =~= (if d.neg {
                    seq!['-']
                } else {
                    Seq::<char>::empty()
                }) + ds@.subrange(0, i as int),
            decreases cut - i,
        {
            out.push(ds[i]);
            i += 1;
        }
        out.push('.');
        let mut j: usize = cut;
        while j < ds.len()
            invariant
                cut <= j <= ds@.len(),
                out@ =~= (if d.neg {
                    seq!['-']
                } else {
                    Seq::<char>::empty()
                }) + ds@.subrange(0, cut as int) + seq!['.'] + ds@.subrange(cut as int, j as int),
            decreases ds@.len() - j,
        {
            out.push(ds[j]);
            j += 1;
        }
        proof {
            assert(out@ =~= spec_fmt_dec(d, strip));
        }
        crate::text::chars_to_string(&out)
    } else {
        if !strip {
            out.push('0');
        }
        out.push('.');
        let nz = d.scale as usize - ds.len();
        let ghost head: Seq<char> = if strip {
            Seq::empty()
        } else {
            seq!['0']
        };
        let ghost sign: Seq<char> = if d.neg {
            seq!['-']
        } else {
            Seq::empty()
        };
        let mut i: usize = 0;
        while i < nz
            invariant
                0 <= i <= nz,
                out@ =~= sign + head + seq!['.'] + zeros(i as nat),
            decreases nz - i,
        {
            out.push('0');
            i += 1;
            proof {
                assert(zeros(i as nat) =~= zeros((i - 1) as nat) + seq!['0']);
            }
        }
        let mut j: usize = 0;
        while j < ds.len()
            invariant
                0 <= j <= ds@.len(),
                out@ =~= sign + head + seq!['.'] + zeros(nz as nat) + ds@.subrange(0, j as int),
            decreases ds@.len() - j,
        {
            out.push(ds[j]);
            j += 1;
        }
        proof {
            assert(ds@.subrange(0, ds@.len() as int) =~= ds@);
            assert(out@ =~= spec_fmt_dec(d, strip));
        }
        crate::text::chars_to_string(&out)
    }
}

// ----- arithmetic -----

/// The negation.
pub open spec fn spec_dec_neg(d: Dec) -> Dec {
    Dec { neg: !d.neg, mant: d.mant, scale: d.scale }
}

pub fn dec_neg(d: Dec) -> (r: Dec)
    ensures
        r == spec_dec_neg(d),
{
    Dec { neg: !d.neg, mant: d.mant, scale: d.scale }
}

/// The exact sum, at the larger of the two scales.
pub open spec fn spec_dec_add(a: Dec, b: Dec) -> Dec {
    let s: u32 = if a.scale >= b.scale {
        a.scale
    } else {
        b.scale
    };
    let am = a.mant as int * pow10((s - a.scale) as nat);
    let bm = b.mant as int * pow10((s - b.scale) as nat);
    if a.neg == b.neg {
        Dec { neg: a.neg, mant: (am + bm) as u128, scale: s }
    } else if am >= bm {
        Dec { neg: a.neg, mant: (am - bm) as u128, scale: s }
    } else {
        Dec { neg: b.neg, mant: (bm - am) as u128, scale: s }
    }
}

pub fn dec_add(a: Dec, b: Dec) -> (r: Dec)
    requires
        dec_wf(a),
        dec_wf(b),
    ensures
        r == spec_dec_add(a, b),
{
    let s: u32 = if a.scale >= b.scale {
        a.scale
    } else {
        b.scale
    };
    proof {
        pow10_30();
        pow10_mono((s - a.scale) as nat, 15);
        pow10_mono((s - b.scale) as nat, 15);
        broadcast use pow10_pos;

        assert(a.mant as int * pow10((s - a.scale) as nat) <= pow10(15) * pow10(15)) by (
        nonlinear_arith)
            requires
                a.mant as int <= pow10(15),
                0 <= pow10((s - a.scale) as nat) <= pow10(15),
        ;
        assert(b.mant as int * pow10((s - b.scale) as nat) <= pow10(15) * pow10(15)) by (
        nonlinear_arith)
            requires
                b.mant as int <= pow10(15),
                0 <= pow10((s - b.scale) as nat) <= pow10(15),
        ;
        pow10_add(15, 15);
        assert(pow10(30) == 1000000000000000000000000000000) by {
            pow10_30();
        }
        assert(a.mant as int * pow10((s - a.scale) as nat) >= 0) by (nonlinear_arith)
            requires
                a.mant as int >= 0,
                pow10((s - a.scale) as nat) >= 1,
        ;
        assert(b.mant as int * pow10((s - b.scale) as nat) >= 0) by (nonlinear_arith)
            requires
                b.mant as int >= 0,
                pow10((s - b.scale) as nat) >= 1,
        ;
    }
    let am = a.mant * pow10_u128(s - a.scale);
    let bm = b.mant * pow10_u128(s - b.scale);
    if a.neg == b.neg {
        Dec { neg: a.neg, mant: am + bm, scale: s }
    } else if am >= bm {
        Dec { neg: a.neg, mant: am - bm, scale: s }
    } else {
        Dec { neg: b.neg, mant: bm - am, scale: s }
    }
}

/// The exact difference `a - b`.
pub open spec fn spec_dec_sub(a: Dec, b: Dec) -> Dec {
    spec_dec_add(a, spec_dec_neg(b))
}

pub fn dec_sub(a: Dec, b: Dec) -> (r: Dec)
    requires
        dec_wf(a),
        dec_wf(b),
    ensures
        r == spec_dec_sub(a, b),
{
    dec_add(a, dec_neg(b))
}

/// The value is zero.
pub open spec fn spec_dec_is_zero(d: Dec) -> bool {
    d.mant == 0
}

/// The value is at most zero.
pub open spec fn spec_dec_le_zero(d: Dec) -> bool {
    d.mant == 0 || d.neg
}

pub fn dec_is_zero(d: Dec) -> (r: bool)
    ensures
        r == spec_dec_is_zero(d),
{
    d.mant == 0
}

pub fn dec_le_zero(d: Dec) -> (r: bool)
    ensures
        r == spec_dec_le_zero(d),
{
    d.mant == 0 || d.neg
}


// ----- the format/parse round trip -----

/// The digits of a number are digits, carry its value, and are as many as
/// its magnitude requires.
pub proof fn lemma_dec_digits(n: int)
    requires
        0 <= n,
    ensures
        all_digits(dec_digits(n)),
        dec_value_of(dec_digits(n)) == n,
        dec_digits(n).len() >= 1,
        n < pow10(dec_digits(n).len() as nat),
    decreases n,
{
    broadcast use pow10_pos;

    if n < 10 {
        let c = char_of('0' as int + n);
        assert(c as int == '0' as int + n) by {
            char_cast_value('0' as int + n);
        }
        assert(is_digit_char(c));
        assert(dec_digits(n) =~= seq![c]);
        assert(seq![c].drop_last() =~= Seq::<char>::empty());
        assert(seq![c].last() == c);
        assert(dec_value_of(Seq::<char>::empty()) == 0);
        assert(dec_value_of(seq![c]) == 0 * 10 + digit_val(c));
        assert(dec_digits(n) == seq![c]);
        assert(dec_value_of(dec_digits(n)) == digit_val(c));
    } else {
        lemma_dec_digits(n / 10);
        let c = char_of('0' as int + n % 10);
        assert(c as int == '0' as int + n % 10) by {
            char_cast_value('0' as int + n % 10);
        }
        assert(is_digit_char(c));
        let whole = dec_digits(n);
        assert(whole =~= dec_digits(n / 10) + seq![c]);
        assert(whole.drop_last() =~= dec_digits(n / 10));
        assert(whole.last() == c);
        assert(dec_value_of(whole) == dec_value_of(dec_digits(n / 10)) * 10 + n % 10);
        assert((n / 10) * 10 + n % 10 == n);
        assert(forall|i: int|
            0 <= i < whole.len() ==> is_digit_char(#[trigger] whole[i]));
        assert(n / 10 < pow10(dec_digits(n / 10).len() as nat));
        assert(n < pow10(whole.len() as nat)) by {
            assert(pow10(whole.len() as nat) == 10 * pow10(dec_digits(n / 10).len() as nat));
        }
    }
}

/// A character built from a small code has that code.
pub proof fn char_cast_value(v: int)
    requires
        0 <= v < 0xD800,
    ensures
        char_of(v) as int == v,
{
}

/// No more digits than the bound allows.
pub proof fn lemma_dec_digits_len(n: int, k: nat)
    requires
        0 <= n,
        n < pow10(k),
        k >= 1,
    ensures
        dec_digits(n).len() <= k,
    decreases n,
{
    if n >= 10 {
        assert(pow10(k) == 10 * pow10((k - 1) as nat));
        lemma_dec_digits_len(n / 10, (k - 1) as nat);
    }
}

/// Leading zero characters do not change the value of a digit run.
pub proof fn lemma_value_leading_zeros(z: Seq<char>, t: Seq<char>)
    requires
        forall|i: int| 0 <= i < z.len() ==> z[i] == '0',
    ensures
        dec_value_of(z + t) == dec_value_of(t),
    decreases t.len(), z.len(),
{
    if t.len() == 0 {
        assert(z + t =~= z);
        if z.len() > 0 {
            assert(z.drop_last() + t =~= z.drop_last());
            lemma_value_leading_zeros(z.drop_last(), t);
            assert(dec_value_of(z) == dec_value_of(z.drop_last()) * 10 + digit_val(z.last()));
            assert(digit_val('0') == 0);
        }
    } else {
        lemma_value_leading_zeros(z, t.drop_last());
        assert((z + t).drop_last() =~= z + t.drop_last());
        assert((z + t).last() == t.last());
    }
}

/// The zero padding is zero characters.
pub proof fn lemma_zeros_chars(n: nat)
    ensures
        zeros(n).len() == n,
        forall|i: int| 0 <= i < n ==> zeros(n)[i] == '0',
    decreases n,
{
    if n > 0 {
        lemma_zeros_chars((n - 1) as nat);
    }
}

/// A run of digits closed by a non-digit or the end scans to its close.
pub proof fn lemma_scan_digit_run(s: Seq<char>, i: int, j: int)
    requires
        0 <= i <= j <= s.len(),
        forall|k: int| i <= k < j ==> is_digit_char(s[k]),
        j == s.len() || !is_digit_char(s[j]),
    ensures
        scan_digits_end(s, i) == j,
    decreases j - i,
{
    if i < j {
        lemma_scan_digit_run(s, i + 1, j);
    }
}

/// Parsing what formatting produced recovers a normalized decimal exactly.
#[verifier::rlimit(100)]
pub proof fn lemma_fmt_parse_roundtrip(d: Dec, strip: bool)
    requires
        dec_wf(d),
        spec_dec_norm(d) == d,
    ensures
        spec_parse_dec(spec_fmt_dec(d, strip)) == Some(d),
{
    pow10_30();
    let ds = dec_digits(d.mant as int);
    lemma_dec_digits(d.mant as int);
    lemma_dec_digits_len(d.mant as int, 15);
    let sign: Seq<char> = if d.neg {
        seq!['-']
    } else {
        Seq::empty()
    };
    let s = spec_fmt_dec(d, strip);
    let p: int = if d.neg {
        1
    } else {
        0
    };
    assert(!is_digit_char('-') && !is_digit_char('.') && !is_digit_char('+'));
    if d.neg {
        assert(d.mant > 0) by {
            if d.mant == 0 {
                assert(spec_dec_norm(d) == dec_zero());
            }
        }
        assert(ds[0] != '-' && ds[0] != '+') by {
            assert(is_digit_char(ds[0]));
        }
    }
    broadcast use scan_zeros_end_bounds;

    if d.scale == 0 {
        assert(s =~= sign + ds);
        assert(forall|k: int| p <= k < s.len() ==> is_digit_char(#[trigger] s[k]));
        lemma_scan_digit_run(s, p, s.len() as int);
        let digits = s.subrange(p, s.len() as int);
        assert(digits =~= ds);
        assert(digits.len() - scan_zeros_end(digits, 0) <= 15);
        assert(spec_parse_dec(s) == Some(
            Dec { neg: d.neg, mant: dec_value_of(ds) as u128, scale: 0 },
        ));
    } else if ds.len() > d.scale {
        let cut = ds.len() - d.scale;
        assert(s =~= sign + ds.subrange(0, cut) + seq!['.'] + ds.subrange(
            cut,
            ds.len() as int,
        ));
        assert(forall|k: int| p <= k < p + cut ==> is_digit_char(#[trigger] s[k]));
        assert(s[p + cut] == '.');
        lemma_scan_digit_run(s, p, p + cut);
        assert(forall|k: int|
            p + cut + 1 <= k < s.len() ==> is_digit_char(#[trigger] s[k]));
        lemma_scan_digit_run(s, p + cut + 1, s.len() as int);
        let digits = s.subrange(p, p + cut) + s.subrange(p + cut + 1, s.len() as int);
        assert(digits =~= ds);
        assert(digits.len() - scan_zeros_end(digits, 0) <= 15);
        assert(s.len() - (p + cut) - 1 == d.scale);
        assert(spec_parse_dec(s) == Some(
            Dec { neg: d.neg, mant: dec_value_of(ds) as u128, scale: d.scale },
        ));
    } else {
        let head: Seq<char> = if strip {
            Seq::empty()
        } else {
            seq!['0']
        };
        let nz = (d.scale - ds.len()) as nat;
        lemma_zeros_chars(nz);
        assert(s =~= sign + head + seq!['.'] + zeros(nz) + ds);
        let dot = p + head.len();
        assert(s[dot] == '.');
        if !strip {
            assert(s[p] == '0');
        }
        lemma_scan_digit_run(s, p, dot);
        assert(forall|k: int| dot + 1 <= k < s.len() ==> is_digit_char(#[trigger] s[k]));
        lemma_scan_digit_run(s, dot + 1, s.len() as int);
        let intpart = s.subrange(p, dot);
        let fracpart = s.subrange(dot + 1, s.len() as int);
        assert(fracpart =~= zeros(nz) + ds);
        let digits = intpart + fracpart;
        if strip {
            assert(intpart =~= Seq::<char>::empty());
            assert(digits =~= zeros(nz) + ds);
            lemma_value_leading_zeros(zeros(nz), ds);
        } else {
            assert(intpart =~= seq!['0']);
            assert(digits =~= seq!['0'] + (zeros(nz) + ds));
            assert(forall|i: int|
                0 <= i < nz + 1 ==> (seq!['0'] + zeros(nz))[i] == '0');
            assert(digits =~= (seq!['0'] + zeros(nz)) + ds);
            lemma_value_leading_zeros(seq!['0'] + zeros(nz), ds);
        }
        assert(dec_value_of(digits) == d.mant);
        assert(ds.len() <= d.scale);
        assert(digits.len() == head.len() + nz + ds.len());
        assert(s.len() - dot - 1 == d.scale);
        assert(1 <= digits.len());
        assert(forall|k: int|
            0 <= k < head.len() + nz ==> #[trigger] digits[k] == '0');
        lemma_scan_zeros_at_least(digits, 0, head.len() + nz as int);
        assert(digits.len() - scan_zeros_end(digits, 0) <= ds.len() <= 15);
        assert(spec_parse_dec(s) == Some(
            Dec { neg: d.neg, mant: dec_value_of(digits) as u128, scale: d.scale },
        ));
    }
}


/// Normalization is idempotent and only shrinks the representation.
pub proof fn lemma_norm_props(d: Dec)
    ensures
        spec_dec_norm(spec_dec_norm(d)) == spec_dec_norm(d),
        spec_dec_norm(d).scale <= d.scale,
        spec_dec_norm(d).mant <= d.mant,
    decreases d.scale,
{
    if d.mant == 0 {
    } else if d.scale > 0 && d.mant % 10 == 0 {
        lemma_norm_props(Dec { neg: d.neg, mant: d.mant / 10, scale: (d.scale - 1) as u32 });
    }
}

/// Rounding never leaves more places than asked for.
pub proof fn lemma_round_scale(d: Dec, p: nat)
    ensures
        d.scale <= p ==> spec_dec_round(d, p) == d,
        spec_dec_round(d, p).scale <= d.scale || spec_dec_round(d, p).scale == p,
        spec_dec_round(d, p).scale <= p || spec_dec_round(d, p).scale == d.scale,
{
}

/// A character that can occur in a formatted decimal.
pub open spec fn plain_num_char(c: char) -> bool {
    is_digit_char(c) || c == '-' || c == '.'
}

pub open spec fn all_plain(s: Seq<char>) -> bool {
    forall|i: int| 0 <= i < s.len() ==> plain_num_char(#[trigger] s[i])
}

pub proof fn lemma_plain_concat(x: Seq<char>, y: Seq<char>)
    requires
        all_plain(x),
        all_plain(y),
    ensures
        all_plain(x + y),
{
    assert forall|i: int| 0 <= i < (x + y).len() implies plain_num_char(#[trigger] (x + y)[i]) by {
        if i < x.len() {
            assert((x + y)[i] == x[i]);
        } else {
            assert((x + y)[i] == y[i - x.len()]);
        }
    }
}

pub proof fn lemma_digits_plain(n: int)
    requires
        0 <= n,
    ensures
        all_plain(dec_digits(n)),
{
    lemma_dec_digits(n);
    assert forall|i: int|
        0 <= i < dec_digits(n).len() implies plain_num_char(#[trigger] dec_digits(n)[i]) by {
        assert(is_digit_char(dec_digits(n)[i]));
    }
}

pub proof fn lemma_zeros_plain(n: nat)
    ensures
        all_plain(zeros(n)),
{
    lemma_zeros_chars(n);
    assert forall|i: int| 0 <= i < zeros(n).len() implies plain_num_char(
        #[trigger] zeros(n)[i],
    ) by {
        assert(zeros(n)[i] == '0');
    }
}

/// A formatted decimal is non-empty and holds only digits, a sign and a
/// point.
pub proof fn lemma_fmt_chars(d: Dec, strip: bool)
    ensures
        all_plain(spec_fmt_dec(d, strip)),
        spec_fmt_dec(d, strip).len() >= 1,
{
    let ds = dec_digits(d.mant as int);
    lemma_dec_digits(d.mant as int);
    lemma_digits_plain(d.mant as int);
    let sign: Seq<char> = if d.neg {
        seq!['-']
    } else {
        Seq::empty()
    };
    assert(all_plain(sign));
    assert(all_plain(seq!['.']));
    assert(all_plain(seq!['0']));
    if d.scale == 0 {
        lemma_plain_concat(sign, ds);
    } else if ds.len() > d.scale {
        let cut = ds.len() - d.scale;
        let h = ds.subrange(0, cut);
        let t = ds.subrange(cut as int, ds.len() as int);
        assert(all_plain(h)) by {
            assert(forall|i: int|
                0 <= i < h.len() ==> #[trigger] h[i] == ds[i]);
        }
        assert(all_plain(t)) by {
            assert(forall|i: int|
                0 <= i < t.len() ==> #[trigger] t[i] == ds[cut + i]);
        }
        lemma_plain_concat(sign, h);
        lemma_plain_concat(sign + h, seq!['.']);
        lemma_plain_concat(sign + h + seq!['.'], t);
        assert(spec_fmt_dec(d, strip) =~= sign + h + seq!['.'] + t);
    } else {
        let head: Seq<char> = if strip {
            Seq::empty()
        } else {
            seq!['0']
        };
        let nz = (d.scale - ds.len()) as nat;
        lemma_zeros_plain(nz);
        assert(all_plain(head));
        lemma_plain_concat(sign, head);
        lemma_plain_concat(sign + head, seq!['.']);
        lemma_plain_concat(sign + head + seq!['.'], zeros(nz));
        lemma_plain_concat(sign + head + seq!['.'] + zeros(nz), ds);
        assert(spec_fmt_dec(d, strip) =~= sign + head + seq!['.'] + zeros(nz) + ds);
    }
}


/// Whatever parses is a well-formed decimal.
pub proof fn lemma_parse_dec_wf(s: Seq<char>)
    ensures
        match spec_parse_dec(s) {
            Some(d) => dec_wf(d),
            None => true,
        },
{
    broadcast use scan_zeros_end_bounds;

    pow10_30();
    let p: int = if s.len() > 0 && (s[0] == '+' || s[0] == '-') {
        1
    } else {
        0
    };
    let e1 = scan_digits_end(s, p);
    crate::parser::scan_digits_end_bounds(s, p);
    if e1 < s.len() && s[e1] == '.' {
        let e2 = scan_digits_end(s, e1 + 1);
        crate::parser::scan_digits_end_bounds(s, e1 + 1);
        let digits = s.subrange(p, e1) + s.subrange(e1 + 1, e2);
        if e2 == s.len() && 1 <= digits.len() && digits.len() - scan_zeros_end(digits, 0) <= 15
            && e2 - e1 - 1 <= 15 {
            lemma_parse_digits_bound(digits);
        }
    } else {
        let digits = s.subrange(p, e1);
        if e1 == s.len() && 1 <= digits.len() && digits.len() - scan_zeros_end(digits, 0)
            <= 15 {
            lemma_parse_digits_bound(digits);
        }
    }
}

/// The value of a digit run with at most fifteen significant digits fits.
pub proof fn lemma_parse_digits_bound(digits: Seq<char>)
    requires
        all_digits(digits),
        digits.len() - scan_zeros_end(digits, 0) <= 15,
    ensures
        0 <= dec_value_of(digits) < pow10(15),
{
    broadcast use scan_zeros_end_bounds;

    let lz = scan_zeros_end(digits, 0);
    let z = digits.subrange(0, lz);
    let sig = digits.subrange(lz, digits.len() as int);
    assert(digits =~= z + sig);
    assert(forall|i: int| 0 <= i < z.len() ==> #[trigger] z[i] == '0');
    lemma_value_leading_zeros(z, sig);
    assert(all_digits(sig)) by {
        assert(forall|i: int|
            0 <= i < sig.len() ==> #[trigger] sig[i] == digits[lz + i]);
    }
    dec_value_bound(sig);
    pow10_mono(sig.len() as nat, 15);
}

/// Rounding a well-formed decimal keeps it well-formed.
pub proof fn lemma_round_small(d: Dec, p: nat)
    requires
        dec_wf(d),
    ensures
        dec_wf(spec_dec_round(d, p)),
{
    broadcast use pow10_pos;

    pow10_30();
    if d.scale <= p {
    } else {
        let k = (d.scale - p) as nat;
        let pw = pow10(k);
        assert(pow10(k) == 10 * pow10((k - 1) as nat));
        assert(pw >= 10);
        assert((d.mant as int / pw) * 10 <= d.mant as int) by (nonlinear_arith)
            requires
                pw >= 10,
                d.mant as int >= 0,
        ;
    }
}

} // verus!
