//! The markup parser: one streaming scan over the characters of the input,
//! producing the document tree or a structured error with a byte offset.
//!
//! The grammar is stated by the `spec_parse*` functions; each executable
//! function returns exactly what its spec counterpart says.
use vstd::prelude::*;

use crate::text::{is_space, is_space_char, is_digit_char, digit_val, to_char_vec, range_to_string};
use crate::tree::{Document, Element, Node, NodeView, attrs_set, attrs_view, nodes_view, node_view, doc_view,
    nodes_view_len, nodes_view_index};

verus! {

/// What went wrong, structurally, in a malformed input.
#[derive(Clone, Copy, Debug, PartialEq, Eq, Structural)]
pub enum ParseErrorKind {
    UnterminatedTag,
    MismatchedEndTag,
    UnterminatedAttribute,
    UnterminatedComment,
    UnterminatedCdata,
    UnterminatedPi,
}

/// A structural parse failure: the kind and the byte offset at which the
/// offending construct starts.
#[derive(Clone, Copy, Debug, PartialEq, Eq, Structural)]
pub struct ParseError {
    pub kind: ParseErrorKind,
    pub offset: usize,
}

/// The spec-level image of a parse failure; its offset counts characters,
/// which `parse` converts to bytes at the boundary.
pub ghost struct SpecErr {
    pub kind: ParseErrorKind,
    pub off: int,
}

// ----- scanning helpers -----

/// A character that may stand in an element or attribute name.
pub open spec fn is_name_char(c: char) -> bool {
    !is_space_char(c) && c != '<' && c != '>' && c != '/' && c != '=' && c != '"' && c != '\''
}

pub fn name_char(c: char) -> (r: bool)
    ensures
        r == is_name_char(c),
{
    !is_space(c) && c != '<' && c != '>' && c != '/' && c != '=' && c != '"' && c != '\''
}

/// First position at or after `i` that does not hold a name character.
pub open spec fn scan_name_end(s: Seq<char>, i: int) -> int
    decreases s.len() - i,
    when 0 <= i <= s.len()
{
    if i == s.len() || !is_name_char(s[i]) {
        i
    } else {
        scan_name_end(s, i + 1)
    }
}

pub broadcast proof fn scan_name_end_bounds(s: Seq<char>, i: int)
    requires
        0 <= i <= s.len(),
    ensures
        i <= #[trigger] scan_name_end(s, i) <= s.len(),
    decreases s.len() - i,
{
    if i < s.len() && is_name_char(s[i]) {
        scan_name_end_bounds(s, i + 1);
    }
}

/// First position at or after `i` that does not hold whitespace.
pub open spec fn skip_ws(s: Seq<char>, i: int) -> int
    decreases s.len() - i,
    when 0 <= i <= s.len()
{
    if i == s.len() || !is_space_char(s[i]) {
        i
    } else {
        skip_ws(s, i + 1)
    }
}

pub broadcast proof fn skip_ws_bounds(s: Seq<char>, i: int)
    requires
        0 <= i <= s.len(),
    ensures
        i <= #[trigger] skip_ws(s, i) <= s.len(),
    decreases s.len() - i,
{
    if i < s.len() && is_space_char(s[i]) {
        skip_ws_bounds(s, i + 1);
    }
}

/// First position at or after `i` holding `'<'`, or the end of the input.
pub open spec fn scan_text_end(s: Seq<char>, i: int) -> int
    decreases s.len() - i,
    when 0 <= i <= s.len()
{
    if i == s.len() || s[i] == '<' {
        i
    } else {
        scan_text_end(s, i + 1)
    }
}

pub broadcast proof fn scan_text_end_bounds(s: Seq<char>, i: int)
    requires
        0 <= i <= s.len(),
    ensures
        i <= #[trigger] scan_text_end(s, i) <= s.len(),
    decreases s.len() - i,
{
    if i < s.len() && s[i] != '<' {
        scan_text_end_bounds(s, i + 1);
    }
}

/// The characters `p` stand at position `i` of `s`.
pub open spec fn starts_with_at(s: Seq<char>, i: int, p: Seq<char>) -> bool {
    0 <= i && i + p.len() <= s.len() && s.subrange(i, i + p.len() as int) == p
}

/// First position at or after `i` where `p` occurs, if any.
pub open spec fn find_from(s: Seq<char>, i: int, p: Seq<char>) -> Option<int>
    decreases s.len() - i,
    when 0 <= i && p.len() > 0
{
    if i + p.len() > s.len() {
        None
    } else if starts_with_at(s, i, p) {
        Some(i)
    } else {
        find_from(s, i + 1, p)
    }
}

pub broadcast proof fn find_from_bounds(s: Seq<char>, i: int, p: Seq<char>)
    requires
        0 <= i,
        p.len() > 0,
    ensures
        match #[trigger] find_from(s, i, p) {
            Some(j) => i <= j && j + p.len() <= s.len(),
            None => true,
        },
    decreases s.len() - i,
{
    if i + p.len() <= s.len() && !starts_with_at(s, i, p) {
        find_from_bounds(s, i + 1, p);
    }
}

/// A found pattern stands at the found position.
pub proof fn lemma_find_from_found(s: Seq<char>, i: int, p: Seq<char>)
    requires
        0 <= i,
        p.len() > 0,
    ensures
        match find_from(s, i, p) {
            Some(j) => starts_with_at(s, j, p),
            None => true,
        },
    decreases s.len() - i,
{
    if i + p.len() <= s.len() && !starts_with_at(s, i, p) {
        lemma_find_from_found(s, i + 1, p);
    }
}

/// Exec scan of a name.
pub fn scan_name(v: &Vec<char>, i: usize) -> (r: usize)
    requires
        i <= v@.len(),
    ensures
        r == scan_name_end(v@, i as int),
        i <= r <= v@.len(),
    decreases v@.len() - i,
{
    if i == v.len() || !name_char(v[i]) {
        i
    } else {
        scan_name(v, i + 1)
    }
}

/// Exec skip of whitespace.
pub fn skip_spaces(v: &Vec<char>, i: usize) -> (r: usize)
    requires
        i <= v@.len(),
    ensures
        r == skip_ws(v@, i as int),
        i <= r <= v@.len(),
    decreases v@.len() - i,
{
    if i == v.len() || !is_space(v[i]) {
        i
    } else {
        skip_spaces(v, i + 1)
    }
}

/// Exec scan of a text run.
pub fn scan_text(v: &Vec<char>, i: usize) -> (r: usize)
    requires
        i <= v@.len(),
    ensures
        r == scan_text_end(v@, i as int),
        i <= r <= v@.len(),
        i < v@.len() && v@[i as int] != '<' ==> i < r,
    decreases v@.len() - i,
{
    if i == v.len() || v[i] == '<' {
        i
    } else {
        scan_text(v, i + 1)
    }
}

/// Exec test of `starts_with_at`.
pub fn starts_at(v: &Vec<char>, i: usize, p: &Vec<char>) -> (r: bool)
    requires
        i <= v@.len(),
    ensures
        r == starts_with_at(v@, i as int, p@),
{
    if p.len() > v.len() - i {
        proof {
            assert(!starts_with_at(v@, i as int, p@));
        }
        return false;
    }
    let n = v.len();
    let mut k: usize = 0;
    while k < p.len()
        invariant
            0 <= k <= p@.len(),
            n == v@.len(),
            i + p@.len() <= n,
            forall|j: int| 0 <= j < k ==> v@[i + j] == p@[j],
        decreases p@.len() - k,
    {
        if v[i + k] != p[k] {
            proof {
                assert(v@.subrange(i as int, i + p@.len() as int)[k as int] != p@[k as int]);
            }
            return false;
        }
        k += 1;
    }
    proof {
        assert(v@.subrange(i as int, i + p@.len() as int) =~= p@);
    }
    true
}

/// Exec search for a pattern.
pub fn find_seq(v: &Vec<char>, i: usize, p: &Vec<char>) -> (r: Option<usize>)
    requires
        i <= v@.len(),
        p@.len() > 0,
    ensures
        match r {
            Some(j) => find_from(v@, i as int, p@) == Some(j as int) && i <= j && j + p@.len()
                <= v@.len(),
            None => find_from(v@, i as int, p@) is None,
        },
    decreases v@.len() - i,
{
    if p.len() > v.len() - i {
        None
    } else if starts_at(v, i, p) {
        Some(i)
    } else {
        find_seq(v, i + 1, p)
    }
}


// ----- character references -----

pub open spec fn is_hex_digit_char(c: char) -> bool {
    is_digit_char(c) || ('a' <= c && c <= 'f') || ('A' <= c && c <= 'F')
}

pub open spec fn hex_digit_val(c: char) -> int {
    if is_digit_char(c) {
        digit_val(c)
    } else if 'a' <= c && c <= 'f' {
        c as int - 'a' as int + 10
    } else {
        c as int - 'A' as int + 10
    }
}

/// Value of a run of decimal digits, most significant first.
pub open spec fn dec_value_of(s: Seq<char>) -> int
    decreases s.len(),
{
    if s.len() == 0 {
        0
    } else {
        dec_value_of(s.drop_last()) * 10 + digit_val(s.last())
    }
}

/// Value of a run of hexadecimal digits, most significant first.
pub open spec fn hex_value_of(s: Seq<char>) -> int
    decreases s.len(),
{
    if s.len() == 0 {
        0
    } else {
        hex_value_of(s.drop_last()) * 16 + hex_digit_val(s.last())
    }
}

/// A Unicode scalar value: a code point that is not a surrogate.
pub open spec fn is_scalar_value(v: int) -> bool {
    (0 <= v && v < 0xD800) || (0xE000 <= v && v < 0x110000)
}

/// The character with code `v`.
pub open spec fn char_of(v: int) -> char {
    (v as u32) as char
}

/// Relies on core::char::from_u32: `Some` holding the character with that
/// code exactly when `v` is a Unicode scalar value, `None` otherwise.
pub assume_specification[ char::from_u32 ](v: u32) -> (r: Option<char>)
    ensures
        r is Some <==> is_scalar_value(v as int),
        r is Some ==> r->0 == char_of(v as int),
;

pub open spec fn scan_digits_end(s: Seq<char>, i: int) -> int
    decreases s.len() - i,
    when 0 <= i <= s.len()
{
    if i == s.len() || !is_digit_char(s[i]) {
        i
    } else {
        scan_digits_end(s, i + 1)
    }
}

pub open spec fn scan_hex_end(s: Seq<char>, i: int) -> int
    decreases s.len() - i,
    when 0 <= i <= s.len()
{
    if i == s.len() || !is_hex_digit_char(s[i]) {
        i
    } else {
        scan_hex_end(s, i + 1)
    }
}

pub broadcast proof fn scan_digits_end_bounds(s: Seq<char>, i: int)
    requires
        0 <= i <= s.len(),
    ensures
        i <= #[trigger] scan_digits_end(s, i) <= s.len(),
        forall|k: int| i <= k < scan_digits_end(s, i) ==> is_digit_char(s[k]),
    decreases s.len() - i,
{
    if i < s.len() && is_digit_char(s[i]) {
        scan_digits_end_bounds(s, i + 1);
    }
}

pub broadcast proof fn scan_hex_end_bounds(s: Seq<char>, i: int)
    requires
        0 <= i <= s.len(),
    ensures
        i <= #[trigger] scan_hex_end(s, i) <= s.len(),
        forall|k: int| i <= k < scan_hex_end(s, i) ==> is_hex_digit_char(s[k]),
    decreases s.len() - i,
{
    if i < s.len() && is_hex_digit_char(s[i]) {
        scan_hex_end_bounds(s, i + 1);
    }
}

/// The characters `p` stand at `i` and end at or before `j`.
pub open spec fn lit_at(s: Seq<char>, i: int, j: int, p: Seq<char>) -> bool {
    i + p.len() <= j && starts_with_at(s, i, p)
}

/// The character reference starting at position `i` (which holds `'&'`),
/// confined to the range ending at `j`: the decoded character and the length
/// of the reference, or `None` when no well-formed reference starts here.
pub open spec fn entity_at(s: Seq<char>, i: int, j: int) -> Option<(char, int)> {
    if !(0 <= i && i < j && j <= s.len() && s[i] == '&') {
        None
    } else if lit_at(s, i, j, seq!['&', 'a', 'm', 'p', ';']) {
        Some(('&', 5))
    } else if lit_at(s, i, j, seq!['&', 'l', 't', ';']) {
        Some(('<', 4))
    } else if lit_at(s, i, j, seq!['&', 'g', 't', ';']) {
        Some(('>', 4))
    } else if lit_at(s, i, j, seq!['&', 'q', 'u', 'o', 't', ';']) {
        Some(('"', 6))
    } else if lit_at(s, i, j, seq!['&', 'a', 'p', 'o', 's', ';']) {
        Some(('\'', 6))
    } else if lit_at(s, i, j, seq!['&', '#', 'x']) {
        let e = scan_hex_end(s, i + 3);
        if e > i + 3 && e < j && s[e] == ';' && is_scalar_value(hex_value_of(
            s.subrange(i + 3, e),
        )) {
            Some((char_of(hex_value_of(s.subrange(i + 3, e))), e + 1 - i))
        } else {
            None
        }
    } else if lit_at(s, i, j, seq!['&', '#']) {
        let e = scan_digits_end(s, i + 2);
        if e > i + 2 && e < j && s[e] == ';' && is_scalar_value(dec_value_of(
            s.subrange(i + 2, e),
        )) {
            Some((char_of(dec_value_of(s.subrange(i + 2, e))), e + 1 - i))
        } else {
            None
        }
    } else {
        None
    }
}

pub broadcast proof fn entity_at_bounds(s: Seq<char>, i: int, j: int)
    ensures
        match #[trigger] entity_at(s, i, j) {
            Some((c, l)) => 4 <= l && i + l <= j,
            None => true,
        },
{
    if 0 <= i && i < j && j <= s.len() && s[i] == '&' {
        if lit_at(s, i, j, seq!['&', '#', 'x']) {
            scan_hex_end_bounds(s, i + 3);
        }
        if lit_at(s, i, j, seq!['&', '#']) {
            scan_digits_end_bounds(s, i + 2);
        }
    }
}

/// The text in `s[i..j]` with character references decoded; an ill-formed
/// reference stays as literal characters.
pub open spec fn decode_range(s: Seq<char>, i: int, j: int) -> Seq<char>
    decreases j - i,
    when 0 <= i <= j <= s.len()
{
    if i >= j {
        Seq::empty()
    } else if s[i] == '&' {
        match entity_at(s, i, j) {
            Some((c, l)) => {
                proof {
                    entity_at_bounds(s, i, j);
                }
                seq![c] + decode_range(s, i + l, j)
            },
            None => seq!['&'] + decode_range(s, i + 1, j),
        }
    } else {
        seq![s[i]] + decode_range(s, i + 1, j)
    }
}

} // verus!

verus! {

/// Saturated value of a run of decimal digits: exact below the cap.
fn dec_value_sat(v: &Vec<char>, from: usize, to: usize) -> (r: u32)
    requires
        from <= to <= v@.len(),
        forall|k: int| from <= k < to ==> is_digit_char(v@[k]),
    ensures
        r as int == if dec_value_of(v@.subrange(from as int, to as int)) < 0x110000 {
            dec_value_of(v@.subrange(from as int, to as int))
        } else {
            0x110000int
        },
{
    let mut r: u32 = 0;
    let mut i: usize = from;
    proof {
        assert(v@.subrange(from as int, from as int) =~= Seq::<char>::empty());
    }
    while i < to
        invariant
            from <= i <= to <= v@.len(),
            forall|k: int| from <= k < to ==> is_digit_char(v@[k]),
            r <= 0x110000,
            r as int == if dec_value_of(v@.subrange(from as int, i as int)) < 0x110000 {
                dec_value_of(v@.subrange(from as int, i as int))
            } else {
                0x110000int
            },
        decreases to - i,
    {
        let ghost pre = v@.subrange(from as int, i as int);
        let c = v[i];
        let d: u32 = (c as u32) - ('0' as u32);
        let mut r2: u32 = r * 10;
        if r2 > 0x110000 {
            r2 = 0x110000;
        }
        let mut r3: u32 = r2 + d;
        if r3 > 0x110000 {
            r3 = 0x110000;
        }
        r = r3;
        i += 1;
        proof {
            let post = v@.subrange(from as int, i as int);
            assert(post.drop_last() =~= pre);
            assert(dec_value_of(post) == dec_value_of(pre) * 10 + digit_val(v@[i - 1]));
        }
    }
    proof {
        assert(v@.subrange(from as int, to as int) =~= v@.subrange(from as int, i as int));
    }
    r
}

/// Saturated value of a run of hexadecimal digits: exact below the cap.
fn hex_value_sat(v: &Vec<char>, from: usize, to: usize) -> (r: u32)
    requires
        from <= to <= v@.len(),
        forall|k: int| from <= k < to ==> is_hex_digit_char(v@[k]),
    ensures
        r as int == if hex_value_of(v@.subrange(from as int, to as int)) < 0x110000 {
            hex_value_of(v@.subrange(from as int, to as int))
        } else {
            0x110000int
        },
{
    let mut r: u32 = 0;
    let mut i: usize = from;
    proof {
        assert(v@.subrange(from as int, from as int) =~= Seq::<char>::empty());
    }
    while i < to
        invariant
            from <= i <= to <= v@.len(),
            forall|k: int| from <= k < to ==> is_hex_digit_char(v@[k]),
            r <= 0x110000,
            r as int == if hex_value_of(v@.subrange(from as int, i as int)) < 0x110000 {
                hex_value_of(v@.subrange(from as int, i as int))
            } else {
                0x110000int
            },
        decreases to - i,
    {
        let ghost pre = v@.subrange(from as int, i as int);
        let c = v[i];
        let d: u32 = if '0' <= c && c <= '9' {
            (c as u32) - ('0' as u32)
        } else if 'a' <= c && c <= 'f' {
            (c as u32) - ('a' as u32) + 10
        } else {
            (c as u32) - ('A' as u32) + 10
        };
        let mut r2: u32 = r * 16;
        if r2 > 0x110000 {
            r2 = 0x110000;
        }
        let mut r3: u32 = r2 + d;
        if r3 > 0x110000 {
            r3 = 0x110000;
        }
        r = r3;
        i += 1;
        proof {
            let post = v@.subrange(from as int, i as int);
            assert(post.drop_last() =~= pre);
            assert(hex_value_of(post) == hex_value_of(pre) * 16 + hex_digit_val(v@[i - 1]));
        }
    }
    proof {
        assert(v@.subrange(from as int, to as int) =~= v@.subrange(from as int, i as int));
    }
    r
}

pub fn scan_digits(v: &Vec<char>, i: usize) -> (r: usize)
    requires
        i <= v@.len(),
    ensures
        r == scan_digits_end(v@, i as int),
        i <= r <= v@.len(),
    decreases v@.len() - i,
{
    if i == v.len() || !('0' <= v[i] && v[i] <= '9') {
        i
    } else {
        scan_digits(v, i + 1)
    }
}

fn hex_digit(c: char) -> (r: bool)
    ensures
        r == is_hex_digit_char(c),
{
    ('0' <= c && c <= '9') || ('a' <= c && c <= 'f') || ('A' <= c && c <= 'F')
}

fn scan_hex(v: &Vec<char>, i: usize) -> (r: usize)
    requires
        i <= v@.len(),
    ensures
        r == scan_hex_end(v@, i as int),
        i <= r <= v@.len(),
    decreases v@.len() - i,
{
    if i == v.len() || !hex_digit(v[i]) {
        i
    } else {
        scan_hex(v, i + 1)
    }
}

/// Exec form of `entity_at`.
fn entity_here(v: &Vec<char>, i: usize, j: usize) -> (r: Option<(char, usize)>)
    requires
        i < j <= v@.len(),
    ensures
        match r {
            Some((c, l)) => entity_at(v@, i as int, j as int) == Some((c, l as int)) && 4 <= l
                && i + l <= j,
            None => entity_at(v@, i as int, j as int) is None,
        },
{
    proof {
        entity_at_bounds(v@, i as int, j as int);
    }
    if v[i] != '&' {
        return None;
    }
    let amp = vec!['&', 'a', 'm', 'p', ';'];
    if j - i >= 5 && starts_at(v, i, &amp) {
        return Some(('&', 5));
    }
    let lt = vec!['&', 'l', 't', ';'];
    if j - i >= 4 && starts_at(v, i, &lt) {
        return Some(('<', 4));
    }
    let gt = vec!['&', 'g', 't', ';'];
    if j - i >= 4 && starts_at(v, i, &gt) {
        return Some(('>', 4));
    }
    let quot = vec!['&', 'q', 'u', 'o', 't', ';'];
    if j - i >= 6 && starts_at(v, i, &quot) {
        return Some(('"', 6));
    }
    let apos = vec!['&', 'a', 'p', 'o', 's', ';'];
    if j - i >= 6 && starts_at(v, i, &apos) {
        return Some(('\'', 6));
    }
    let hx = vec!['&', '#', 'x'];
    if j - i >= 3 && starts_at(v, i, &hx) {
        let e = scan_hex(v, i + 3);
        if e > i + 3 && e < j && v[e] == ';' {
            proof {
                scan_hex_end_bounds(v@, i as int + 3);
            }
            let val = hex_value_sat(v, i + 3, e);
            match char::from_u32(val) {
                Some(c) => {
                    return Some((c, e + 1 - i));
                },
                None => {
                    return None;
                },
            }
        }
        return None;
    }
    let nm = vec!['&', '#'];
    if j - i >= 2 && starts_at(v, i, &nm) {
        let e = scan_digits(v, i + 2);
        if e > i + 2 && e < j && v[e] == ';' {
            proof {
                scan_digits_end_bounds(v@, i as int + 2);
            }
            let val = dec_value_sat(v, i + 2, e);
            match char::from_u32(val) {
                Some(c) => {
                    return Some((c, e + 1 - i));
                },
                None => {
                    return None;
                },
            }
        }
        return None;
    }
    None
}

/// Exec form of `decode_range`: the text with references decoded.
#[verifier::loop_isolation(false)]
pub fn decode_text(v: &Vec<char>, from: usize, to: usize) -> (r: String)
    requires
        from <= to <= v@.len(),
    ensures
        r@ == decode_range(v@, from as int, to as int),
{
    let mut out = String::new();
    let mut i: usize = from;
    while i < to
        invariant
            from <= i <= to,
            decode_range(v@, from as int, to as int) == out@ + decode_range(
                v@,
                i as int,
                to as int,
            ),
        decreases to - i,
    {
        if v[i] == '&' {
            match entity_here(v, i, to) {
                Some((c, l)) => {
                    out.push(c);
                    i += l;
                },
                None => {
                    out.push('&');
                    i += 1;
                },
            }
        } else {
            out.push(v[i]);
            i += 1;
        }
    }
    out
}

} // verus!

verus! {

// ----- the grammar -----

/// Guard used for the termination measure of the recursive grammar: the
/// parser only ever moves forward, and this makes that shape explicit.
pub open spec fn stepped(s: Seq<char>, i: int, j: int) -> int {
    if i < j && j <= s.len() {
        j
    } else {
        i + 1
    }
}

/// Prepend a node to the result of parsing the following siblings.
pub open spec fn cons_node(n: NodeView, r: Result<(Seq<NodeView>, int), SpecErr>) -> Result<
    (Seq<NodeView>, int),
    SpecErr,
> {
    match r {
        Ok((rest, end)) => Ok((seq![n] + rest, end)),
        Err(e) => Err(e),
    }
}

/// Parse the attribute list of a start tag, beginning right after the tag
/// name. Returns the attributes (last value wins for a repeated name, at the
/// first occurrence's position), the position right after `>`, and whether
/// the tag was self-closing. `tag_off` is the offset of the tag's `<`,
/// carried for error reporting.
pub open spec fn spec_parse_attrs(
    s: Seq<char>,
    i: int,
    tag_off: int,
    acc: Seq<(Seq<char>, Seq<char>)>,
) -> Result<(Seq<(Seq<char>, Seq<char>)>, int, bool), SpecErr>
    decreases s.len() - i,
    when 0 <= i <= s.len()
{
    let w = skip_ws(s, i);
    if w >= s.len() {
        Err(SpecErr { kind: ParseErrorKind::UnterminatedTag, off: tag_off })
    } else if s[w] == '>' {
        Ok((acc, w + 1, false))
    } else if s[w] == '/' {
        if w + 1 < s.len() && s[w + 1] == '>' {
            Ok((acc, w + 2, true))
        } else {
            Err(SpecErr { kind: ParseErrorKind::UnterminatedTag, off: tag_off })
        }
    } else {
        let ne = {
            proof {
                skip_ws_bounds(s, i);
            }
            scan_name_end(s, w)
        };
        if ne == w {
            Err(SpecErr { kind: ParseErrorKind::UnterminatedTag, off: tag_off })
        } else {
            let name = s.subrange(w, ne);
            let eq = {
                proof {
                    scan_name_end_bounds(s, w);
                }
                skip_ws(s, ne)
            };
            if eq < s.len() && s[eq] == '=' {
                let vq = {
                    proof {
                        skip_ws_bounds(s, ne);
                    }
                    skip_ws(s, eq + 1)
                };
                if vq < s.len() && (s[vq] == '"' || s[vq] == '\'') {
                    match find_from(s, vq + 1, seq![s[vq]]) {
                        None => Err(
                            SpecErr { kind: ParseErrorKind::UnterminatedAttribute, off: vq },
                        ),
                        Some(ve) => spec_parse_attrs(
                            s,
                            stepped(s, i, ve + 1),
                            tag_off,
                            attrs_set(acc, name, decode_range(s, vq + 1, ve)),
                        ),
                    }
                } else {
                    Err(SpecErr { kind: ParseErrorKind::UnterminatedAttribute, off: vq })
                }
            } else {
                Err(SpecErr { kind: ParseErrorKind::UnterminatedTag, off: tag_off })
            }
        }
    }
}

/// Parse a sequence of sibling nodes starting at `i`, stopping at the end of
/// the input or in front of an end tag (`</`). Returns the nodes and the
/// position where parsing stopped.
pub open spec fn spec_parse_nodes(s: Seq<char>, i: int) -> Result<(Seq<NodeView>, int), SpecErr>
    decreases s.len() - i,
    when 0 <= i <= s.len()
{
    if i >= s.len() {
        Ok((Seq::empty(), i))
    } else if s[i] != '<' {
        // a text run, with character references decoded
        let j = scan_text_end(s, i);
        proof {
            scan_text_end_bounds(s, i);
        }
        cons_node(
            NodeView::Text(decode_range(s, i, j)),
            spec_parse_nodes(s, stepped(s, i, j)),
        )
    } else if starts_with_at(s, i, seq!['<', '/']) {
        Ok((Seq::empty(), i))
    } else if starts_with_at(s, i, seq!['<', '!', '-', '-']) {
        match find_from(s, i + 4, seq!['-', '-', '>']) {
            None => Err(SpecErr { kind: ParseErrorKind::UnterminatedComment, off: i }),
            Some(j) => {
                proof {
                    find_from_bounds(s, i + 4, seq!['-', '-', '>']);
                }
                cons_node(
                    NodeView::Comment(s.subrange(i + 4, j)),
                    spec_parse_nodes(s, stepped(s, i, j + 3)),
                )
            },
        }
    } else if starts_with_at(s, i, seq!['<', '!', '[', 'C', 'D', 'A', 'T', 'A', '[']) {
        match find_from(s, i + 9, seq![']', ']', '>']) {
            None => Err(SpecErr { kind: ParseErrorKind::UnterminatedCdata, off: i }),
            Some(j) => {
                proof {
                    find_from_bounds(s, i + 9, seq![']', ']', '>']);
                }
                cons_node(
                    NodeView::Text(s.subrange(i + 9, j)),
                    spec_parse_nodes(s, stepped(s, i, j + 3)),
                )
            },
        }
    } else if starts_with_at(s, i, seq!['<', '?']) {
        match find_from(s, i + 2, seq!['?', '>']) {
            None => Err(SpecErr { kind: ParseErrorKind::UnterminatedPi, off: i }),
            Some(j) => {
                proof {
                    find_from_bounds(s, i + 2, seq!['?', '>']);
                }
                cons_node(
                    NodeView::ProcessingInstruction(s.subrange(i + 2, j)),
                    spec_parse_nodes(s, stepped(s, i, j + 2)),
                )
            },
        }
    } else if starts_with_at(s, i, seq!['<', '!']) {
        match find_from(s, i + 2, seq!['>']) {
            None => Err(SpecErr { kind: ParseErrorKind::UnterminatedTag, off: i }),
            Some(j) => {
                proof {
                    find_from_bounds(s, i + 2, seq!['>']);
                }
                cons_node(
                    NodeView::Doctype(s.subrange(i + 2, j)),
                    spec_parse_nodes(s, stepped(s, i, j + 1)),
                )
            },
        }
    } else {
        // a start tag
        let ne = scan_name_end(s, i + 1);
        proof {
            scan_name_end_bounds(s, i + 1);
        }
        if ne == i + 1 {
            Err(SpecErr { kind: ParseErrorKind::UnterminatedTag, off: i })
        } else {
            let name = s.subrange(i + 1, ne);
            match spec_parse_attrs(s, ne, i, Seq::empty()) {
                Err(e) => Err(e),
                Ok((attrs, after, true)) => cons_node(
                    NodeView::Element { name, attrs, children: Seq::empty() },
                    spec_parse_nodes(s, stepped(s, i, after)),
                ),
                Ok((attrs, after, false)) => match spec_parse_nodes(
                    s,
                    stepped(s, i, after),
                ) {
                    Err(e) => Err(e),
                    Ok((kids, m)) => {
                        if !(m + 2 <= s.len() && starts_with_at(s, m, seq!['<', '/'])) {
                            Err(SpecErr { kind: ParseErrorKind::UnterminatedTag, off: i })
                        } else {
                            let ce = scan_name_end(s, m + 2);
                            proof {
                                scan_name_end_bounds(s, m + 2);
                            }
                            if s.subrange(m + 2, ce) != name {
                                Err(SpecErr { kind: ParseErrorKind::MismatchedEndTag, off: m })
                            } else {
                                let aw = skip_ws(s, ce);
                                proof {
                                    skip_ws_bounds(s, ce);
                                }
                                if aw < s.len() && s[aw] == '>' {
                                    cons_node(
                                        NodeView::Element { name, attrs, children: kids },
                                        spec_parse_nodes(s, stepped(s, i, aw + 1)),
                                    )
                                } else {
                                    Err(
                                        SpecErr {
                                            kind: ParseErrorKind::UnterminatedTag,
                                            off: m,
                                        },
                                    )
                                }
                            }
                        }
                    },
                },
            }
        }
    }
}

/// Parse a whole input: a leading byte-order mark is skipped; parsing must
/// consume the entire input.
pub open spec fn spec_parse(s: Seq<char>) -> Result<Seq<NodeView>, SpecErr> {
    let start: int = if s.len() > 0 && s[0] == '\u{feff}' {
        1
    } else {
        0
    };
    match spec_parse_nodes(s, start) {
        Err(e) => Err(e),
        Ok((nodes, end)) => {
            if end == s.len() {
                Ok(nodes)
            } else {
                Err(SpecErr { kind: ParseErrorKind::MismatchedEndTag, off: end })
            }
        },
    }
}

} // verus!

verus! {

/// Equality between an owned string and a range of the input.
fn string_eq_range(s: &String, v: &Vec<char>, from: usize, to: usize) -> (r: bool)
    requires
        from <= to <= v@.len(),
    ensures
        r == (s@ == v@.subrange(from as int, to as int)),
{
    let st = s.as_str();
    let n = st.unicode_len();
    if n != to - from {
        proof {
            assert(s@ != v@.subrange(from as int, to as int));
        }
        return false;
    }
    let mut k: usize = 0;
    while k < n
        invariant
            0 <= k <= n,
            n == s@.len(),
            n == to - from,
            from <= to <= v@.len(),
            st@ == s@,
            forall|j: int| 0 <= j < k ==> s@[j] == v@[from + j],
        decreases n - k,
    {
        if st.get_char(k) != v[from + k] {
            proof {
                assert(s@[k as int] != v@.subrange(from as int, to as int)[k as int]);
            }
            return false;
        }
        k += 1;
    }
    proof {
        assert(s@ =~= v@.subrange(from as int, to as int));
    }
    true
}

/// Prepend a node to a parsed sibling list.
fn cons_push(node: Node, rest: Vec<Node>) -> (r: Vec<Node>)
    ensures
        nodes_view(r@) == seq![node_view(node)] + nodes_view(rest@),
{
    broadcast use nodes_view_len, nodes_view_index;

    let mut r = rest;
    let ghost old_rest = r@;
    r.insert(0, node);
    proof {
        assert(nodes_view(r@) =~= seq![node_view(node)] + nodes_view(old_rest));
    }
    r
}

/// Exec form of `spec_parse_attrs`.
#[verifier::rlimit(60)]
fn parse_attrs(v: &Vec<char>, i: usize, tag_off: usize, acc: Vec<(String, String)>) -> (r: Result<
    (Vec<(String, String)>, usize, bool),
    ParseError,
>)
    requires
        i <= v@.len(),
        tag_off <= v@.len(),
    ensures
        match r {
            Ok((attrs, after, selfclose)) => spec_parse_attrs(
                v@,
                i as int,
                tag_off as int,
                attrs_view(acc@),
            ) == Ok::<_, SpecErr>((attrs_view(attrs@), after as int, selfclose)) && i < after
                <= v@.len(),
            Err(e) => spec_parse_attrs(v@, i as int, tag_off as int, attrs_view(acc@)) == Err::<
                (Seq<(Seq<char>, Seq<char>)>, int, bool),
                _,
            >(SpecErr { kind: e.kind, off: e.offset as int }) && e.offset <= v@.len(),
        },
    decreases v@.len() - i,
{
    let w = skip_spaces(v, i);
    if w >= v.len() {
        return Err(ParseError { kind: ParseErrorKind::UnterminatedTag, offset: tag_off });
    }
    if v[w] == '>' {
        return Ok((acc, w + 1, false));
    }
    if v[w] == '/' {
        if w + 1 < v.len() && v[w + 1] == '>' {
            return Ok((acc, w + 2, true));
        }
        return Err(ParseError { kind: ParseErrorKind::UnterminatedTag, offset: tag_off });
    }
    let ne = scan_name(v, w);
    if ne == w {
        return Err(ParseError { kind: ParseErrorKind::UnterminatedTag, offset: tag_off });
    }
    let name = range_to_string(v, w, ne);
    let eq = skip_spaces(v, ne);
    if eq < v.len() && v[eq] == '=' {
        let vq = skip_spaces(v, eq + 1);
        if vq < v.len() && (v[vq] == '"' || v[vq] == '\'') {
            let quote_pat = vec![v[vq]];
            proof {
                assert(quote_pat@ =~= seq![v@[vq as int]]);
            }
            match find_seq(v, vq + 1, &quote_pat) {
                None => Err(ParseError { kind: ParseErrorKind::UnterminatedAttribute, offset: vq }),
                Some(ve) => {
                    let value = decode_text(v, vq + 1, ve);
                    let mut acc2 = acc;
                    crate::tree::attrs_put(&mut acc2, name, value);
                    proof {
                        assert(stepped(v@, i as int, ve + 1) == ve + 1);
                    }
                    parse_attrs(v, ve + 1, tag_off, acc2)
                },
            }
        } else {
            Err(ParseError { kind: ParseErrorKind::UnterminatedAttribute, offset: vq })
        }
    } else {
        Err(ParseError { kind: ParseErrorKind::UnterminatedTag, offset: tag_off })
    }
}

/// Exec form of `spec_parse_nodes`: parse siblings until the end of input or
/// an end tag.
#[verifier::rlimit(100)]
fn parse_nodes(v: &Vec<char>, i: usize) -> (r: Result<(Vec<Node>, usize), ParseError>)
    requires
        i <= v@.len(),
    ensures
        match r {
            Ok((nodes, end)) => spec_parse_nodes(v@, i as int) == Ok::<_, SpecErr>((
                nodes_view(nodes@),
                end as int,
            )) && i <= end <= v@.len(),
            Err(e) => spec_parse_nodes(v@, i as int) == Err::<(Seq<NodeView>, int), _>(
                SpecErr { kind: e.kind, off: e.offset as int },
            ) && e.offset <= v@.len(),
        },
    decreases v@.len() - i,
{
    if i >= v.len() {
        return Ok((Vec::new(), i));
    }
    if v[i] != '<' {
        let j = scan_text(v, i);
        let text = decode_text(v, i, j);
        proof {
            assert(stepped(v@, i as int, j as int) == j as int);
        }
        return match parse_nodes(v, j) {
            Err(e) => Err(e),
            Ok((rest, end)) => Ok((cons_push(Node::Text(text), rest), end)),
        };
    }
    let end_pat = vec!['<', '/'];
    if starts_at(v, i, &end_pat) {
        proof {
            assert(end_pat@ =~= seq!['<', '/']);
        }
        return Ok((Vec::new(), i));
    }
    proof {
        assert(end_pat@ =~= seq!['<', '/']);
    }
    let comment_pat = vec!['<', '!', '-', '-'];
    if starts_at(v, i, &comment_pat) {
        proof {
            assert(comment_pat@ =~= seq!['<', '!', '-', '-']);
        }
        let close = vec!['-', '-', '>'];
        proof {
            assert(close@ =~= seq!['-', '-', '>']);
        }
        return match find_seq(v, i + 4, &close) {
            None => Err(ParseError { kind: ParseErrorKind::UnterminatedComment, offset: i }),
            Some(j) => {
                let content = range_to_string(v, i + 4, j);
                proof {
                    assert(stepped(v@, i as int, j + 3) == j + 3);
                }
                match parse_nodes(v, j + 3) {
                    Err(e) => Err(e),
                    Ok((rest, end)) => Ok((cons_push(Node::Comment(content), rest), end)),
                }
            },
        };
    }
    proof {
        assert(comment_pat@ =~= seq!['<', '!', '-', '-']);
    }
    let cdata_pat = vec!['<', '!', '[', 'C', 'D', 'A', 'T', 'A', '['];
    if starts_at(v, i, &cdata_pat) {
        proof {
            assert(cdata_pat@ =~= seq!['<', '!', '[', 'C', 'D', 'A', 'T', 'A', '[']);
        }
        let close = vec![']', ']', '>'];
        proof {
            assert(close@ =~= seq![']', ']', '>']);
        }
        return match find_seq(v, i + 9, &close) {
            None => Err(ParseError { kind: ParseErrorKind::UnterminatedCdata, offset: i }),
            Some(j) => {
                let content = range_to_string(v, i + 9, j);
                proof {
                    assert(stepped(v@, i as int, j + 3) == j + 3);
                }
                match parse_nodes(v, j + 3) {
                    Err(e) => Err(e),
                    Ok((rest, end)) => Ok((cons_push(Node::Text(content), rest), end)),
                }
            },
        };
    }
    proof {
        assert(cdata_pat@ =~= seq!['<', '!', '[', 'C', 'D', 'A', 'T', 'A', '[']);
    }
    let pi_pat = vec!['<', '?'];
    if starts_at(v, i, &pi_pat) {
        proof {
            assert(pi_pat@ =~= seq!['<', '?']);
        }
        let close = vec!['?', '>'];
        proof {
            assert(close@ =~= seq!['?', '>']);
        }
        return match find_seq(v, i + 2, &close) {
            None => Err(ParseError { kind: ParseErrorKind::UnterminatedPi, offset: i }),
            Some(j) => {
                let content = range_to_string(v, i + 2, j);
                proof {
                    assert(stepped(v@, i as int, j + 2) == j + 2);
                }
                match parse_nodes(v, j + 2) {
                    Err(e) => Err(e),
                    Ok((rest, end)) => Ok(
                        (cons_push(Node::ProcessingInstruction(content), rest), end),
                    ),
                }
            },
        };
    }
    proof {
        assert(pi_pat@ =~= seq!['<', '?']);
    }
    let bang_pat = vec!['<', '!'];
    if starts_at(v, i, &bang_pat) {
        proof {
            assert(bang_pat@ =~= seq!['<', '!']);
        }
        let close = vec!['>'];
        proof {
            assert(close@ =~= seq!['>']);
        }
        return match find_seq(v, i + 2, &close) {
            None => Err(ParseError { kind: ParseErrorKind::UnterminatedTag, offset: i }),
            Some(j) => {
                let content = range_to_string(v, i + 2, j);
                proof {
                    assert(stepped(v@, i as int, j + 1) == j + 1);
                }
                match parse_nodes(v, j + 1) {
                    Err(e) => Err(e),
                    Ok((rest, end)) => Ok((cons_push(Node::Doctype(content), rest), end)),
                }
            },
        };
    }
    proof {
        assert(bang_pat@ =~= seq!['<', '!']);
    }
    // a start tag
    let ne = scan_name(v, i + 1);
    if ne == i + 1 {
        return Err(ParseError { kind: ParseErrorKind::UnterminatedTag, offset: i });
    }
    let name = range_to_string(v, i + 1, ne);
    match parse_attrs(v, ne, i, Vec::new()) {
        Err(e) => {
            proof {
                assert(attrs_view(Seq::<(String, String)>::empty()) =~= Seq::<
                    (Seq<char>, Seq<char>),
                >::empty());
            }
            Err(e)
        },
        Ok((attrs, after, selfclose)) => {
            proof {
                assert(attrs_view(Seq::<(String, String)>::empty()) =~= Seq::<
                    (Seq<char>, Seq<char>),
                >::empty());
                assert(stepped(v@, i as int, after as int) == after as int);
            }
            if selfclose {
                let elem = Element { name, attributes: attrs, children: Vec::new() };
                match parse_nodes(v, after) {
                    Err(e) => Err(e),
                    Ok((rest, end)) => Ok((cons_push(Node::Element(elem), rest), end)),
                }
            } else {
                match parse_nodes(v, after) {
                    Err(e) => Err(e),
                    Ok((kids, m)) => {
                        let close_ok = v.len() - m >= 2 && starts_at(v, m, &end_pat);
                        if !close_ok {
                            return Err(
                                ParseError { kind: ParseErrorKind::UnterminatedTag, offset: i },
                            );
                        }
                        let ce = scan_name(v, m + 2);
                        if !string_eq_range(&name, v, m + 2, ce) {
                            return Err(
                                ParseError { kind: ParseErrorKind::MismatchedEndTag, offset: m },
                            );
                        }
                        let aw = skip_spaces(v, ce);
                        if aw < v.len() && v[aw] == '>' {
                            let elem = Element { name, attributes: attrs, children: kids };
                            proof {
                                assert(stepped(v@, i as int, aw + 1) == aw + 1);
                            }
                            match parse_nodes(v, aw + 1) {
                                Err(e) => Err(e),
                                Ok((rest, end)) => Ok((cons_push(Node::Element(elem), rest), end)),
                            }
                        } else {
                            Err(ParseError { kind: ParseErrorKind::UnterminatedTag, offset: m })
                        }
                    },
                }
            }
        },
    }
}


// ----- byte offsets -----

/// The byte offset of character position `i`: the UTF-8 length of the
/// characters before it.
pub open spec fn spec_byte_offset(s: Seq<char>, i: int) -> int
    recommends
        0 <= i <= s.len(),
{
    vstd::utf8::encode_utf8(s.subrange(0, i)).len() as int
}

/// UTF-8 encoding distributes over concatenation.
pub proof fn lemma_encode_utf8_concat(a: Seq<char>, b: Seq<char>)
    ensures
        vstd::utf8::encode_utf8(a + b) == vstd::utf8::encode_utf8(a) + vstd::utf8::encode_utf8(b),
    decreases a.len(),
{
    if a.len() == 0 {
        assert(a + b =~= b);
        assert(vstd::utf8::encode_utf8(a) =~= Seq::<u8>::empty());
        assert(vstd::utf8::encode_utf8(a) + vstd::utf8::encode_utf8(b) =~= vstd::utf8::encode_utf8(
            b,
        ));
    } else {
        lemma_encode_utf8_concat(a.drop_first(), b);
        assert((a + b).len() > 0);
        assert((a + b)[0] == a[0]);
        assert((a + b).drop_first() =~= a.drop_first() + b);
        assert(vstd::utf8::encode_utf8(a + b) =~= vstd::utf8::encode_scalar(a[0] as u32)
            + vstd::utf8::encode_utf8(a.drop_first()) + vstd::utf8::encode_utf8(b));
        assert(vstd::utf8::encode_utf8(a) + vstd::utf8::encode_utf8(b)
            =~= vstd::utf8::encode_scalar(a[0] as u32) + vstd::utf8::encode_utf8(a.drop_first())
            + vstd::utf8::encode_utf8(b));
    }
}

/// The UTF-8 width of one character.
fn char_width(c: char) -> (w: usize)
    ensures
        w as int == vstd::utf8::encode_scalar(c as u32).len(),
        1 <= w <= 4,
{
    proof {
        vstd::utf8::char_is_scalar(c);
    }
    let u = c as u32;
    if u <= 0x7F {
        1
    } else if u <= 0x7FF {
        2
    } else if u <= 0xFFFF {
        3
    } else {
        4
    }
}

/// The byte offset of character position `i` in `v`, executable.
#[verifier::loop_isolation(false)]
fn to_byte_offset(v: &Vec<char>, i: usize) -> (r: usize)
    requires
        i <= v@.len(),
        vstd::utf8::encode_utf8(v@).len() <= usize::MAX,
    ensures
        r as int == spec_byte_offset(v@, i as int),
{
    let mut sum: usize = 0;
    let mut j: usize = 0;
    proof {
        assert(v@.subrange(0, 0) =~= Seq::<char>::empty());
    }
    while j < i
        invariant
            0 <= j <= i,
            sum as int == spec_byte_offset(v@, j as int),
        decreases i - j,
    {
        let w = char_width(v[j]);
        proof {
            assert(v@.subrange(0, j + 1) =~= v@.subrange(0, j as int) + seq![v@[j as int]]);
            lemma_encode_utf8_concat(v@.subrange(0, j as int), seq![v@[j as int]]);
            assert(vstd::utf8::encode_utf8(seq![v@[j as int]]) =~= vstd::utf8::encode_scalar(
                v@[j as int] as u32,
            )) by {
                let one = seq![v@[j as int]];
                assert(one.len() == 1 && one[0] == v@[j as int]);
                assert(one.drop_first() =~= Seq::<char>::empty());
                assert(vstd::utf8::encode_utf8(one.drop_first()) =~= Seq::<u8>::empty());
                assert(vstd::utf8::encode_utf8(one) =~= vstd::utf8::encode_scalar(
                    one[0] as u32,
                ) + vstd::utf8::encode_utf8(one.drop_first()));
            }
            assert(v@ =~= v@.subrange(0, j + 1) + v@.subrange(j + 1, v@.len() as int));
            lemma_encode_utf8_concat(v@.subrange(0, j + 1), v@.subrange(j + 1, v@.len() as int));
            assert(spec_byte_offset(v@, j + 1) <= vstd::utf8::encode_utf8(v@).len());
        }
        sum = sum + w;
        j += 1;
    }
    sum
}

/// Parse a document. On success the result holds exactly the node sequence
/// that the grammar (`spec_parse`) assigns to the input; on failure the
/// error kind it assigns, at the byte offset of the character position it
/// assigns.
pub fn parse(text: &str) -> (r: Result<Document, ParseError>)
    ensures
        match r {
            Ok(d) => spec_parse(text@) == Ok::<_, SpecErr>(doc_view(d)),
            Err(e) => spec_parse(text@) is Err && e.kind == spec_parse(text@)->Err_0.kind
                && e.offset as int == spec_byte_offset(text@, spec_parse(text@)->Err_0.off),
        },
{
    let bytes = text.as_bytes();
    proof {
        vstd::slice::axiom_spec_len(bytes);
        assert(bytes@ == vstd::utf8::encode_utf8(text@));
        assert(vstd::utf8::encode_utf8(text@).len() <= usize::MAX);
    }
    let v = to_char_vec(text);
    let start: usize = if v.len() > 0 && v[0] == '\u{feff}' {
        1
    } else {
        0
    };
    match parse_nodes(&v, start) {
        Err(e) => Err(
            ParseError { kind: e.kind, offset: to_byte_offset(&v, e.offset) },
        ),
        Ok((nodes, end)) => {
            if end == v.len() {
                Ok(Document { root: nodes })
            } else {
                Err(
                    ParseError {
                        kind: ParseErrorKind::MismatchedEndTag,
                        offset: to_byte_offset(&v, end),
                    },
                )
            }
        },
    }
}


/// Prepending a node whose subtree is in order keeps the whole in order.
proof fn lemma_unique_cons(n: NodeView, rest: Seq<NodeView>)
    requires
        match n {
            NodeView::Element { attrs, children, .. } => crate::tree::attrs_unique(attrs)
                && crate::tree::spec_unique_tree(children),
            _ => true,
        },
        crate::tree::spec_unique_tree(rest),
    ensures
        crate::tree::spec_unique_tree(seq![n] + rest),
{
    let whole = seq![n] + rest;
    assert(whole[0] == n);
    assert(whole.subrange(1, whole.len() as int) =~= rest);
}

/// Attribute lists built by the grammar have unique keys: a repeated name
/// overwrites in place and never duplicates.
proof fn lemma_parse_attrs_unique(
    s: Seq<char>,
    i: int,
    tag_off: int,
    acc: Seq<(Seq<char>, Seq<char>)>,
)
    requires
        0 <= i <= s.len(),
        crate::tree::attrs_unique(acc),
    ensures
        match spec_parse_attrs(s, i, tag_off, acc) {
            Ok((attrs, after, selfclose)) => crate::tree::attrs_unique(attrs),
            Err(_) => true,
        },
    decreases s.len() - i,
{
    skip_ws_bounds(s, i);
    let w = skip_ws(s, i);
    if w >= s.len() || s[w] == '>' || s[w] == '/' {
    } else {
        scan_name_end_bounds(s, w);
        let ne = scan_name_end(s, w);
        if ne != w {
            let name = s.subrange(w, ne);
            skip_ws_bounds(s, ne);
            let eq = skip_ws(s, ne);
            if eq < s.len() && s[eq] == '=' {
                skip_ws_bounds(s, eq + 1);
                let vq = skip_ws(s, eq + 1);
                if vq < s.len() && (s[vq] == '"' || s[vq] == '\'') {
                    match find_from(s, vq + 1, seq![s[vq]]) {
                        None => {},
                        Some(ve) => {
                            find_from_bounds(s, vq + 1, seq![s[vq]]);
                            let acc2 = crate::tree::attrs_set(
                                acc,
                                name,
                                decode_range(s, vq + 1, ve),
                            );
                            crate::tree::lemma_set_props(acc, name, decode_range(s, vq + 1, ve));
                            lemma_parse_attrs_unique(s, stepped(s, i, ve + 1), tag_off, acc2);
                        },
                    }
                }
            }
        }
    }
}

/// Every document the grammar accepts has unique attribute keys on every
/// element, at every depth.
#[verifier::rlimit(100)]
proof fn lemma_parse_nodes_unique(s: Seq<char>, i: int)
    requires
        0 <= i <= s.len(),
    ensures
        match spec_parse_nodes(s, i) {
            Ok((nodes, end)) => crate::tree::spec_unique_tree(nodes),
            Err(_) => true,
        },
    decreases s.len() - i,
{
    if i >= s.len() {
    } else if s[i] != '<' {
        scan_text_end_bounds(s, i);
        let j = scan_text_end(s, i);
        lemma_parse_nodes_unique(s, stepped(s, i, j));
        match spec_parse_nodes(s, stepped(s, i, j)) {
            Ok((rest, _)) => {
                lemma_unique_cons(NodeView::Text(decode_range(s, i, j)), rest);
            },
            Err(_) => {},
        }
    } else if starts_with_at(s, i, seq!['<', '/']) {
    } else if starts_with_at(s, i, seq!['<', '!', '-', '-']) {
        match find_from(s, i + 4, seq!['-', '-', '>']) {
            None => {},
            Some(j) => {
                find_from_bounds(s, i + 4, seq!['-', '-', '>']);
                lemma_parse_nodes_unique(s, stepped(s, i, j + 3));
                match spec_parse_nodes(s, stepped(s, i, j + 3)) {
                    Ok((rest, _)) => {
                        lemma_unique_cons(NodeView::Comment(s.subrange(i + 4, j)), rest);
                    },
                    Err(_) => {},
                }
            },
        }
    } else if starts_with_at(s, i, seq!['<', '!', '[', 'C', 'D', 'A', 'T', 'A', '[']) {
        match find_from(s, i + 9, seq![']', ']', '>']) {
            None => {},
            Some(j) => {
                find_from_bounds(s, i + 9, seq![']', ']', '>']);
                lemma_parse_nodes_unique(s, stepped(s, i, j + 3));
                match spec_parse_nodes(s, stepped(s, i, j + 3)) {
                    Ok((rest, _)) => {
                        lemma_unique_cons(NodeView::Text(s.subrange(i + 9, j)), rest);
                    },
                    Err(_) => {},
                }
            },
        }
    } else if starts_with_at(s, i, seq!['<', '?']) {
        match find_from(s, i + 2, seq!['?', '>']) {
            None => {},
            Some(j) => {
                find_from_bounds(s, i + 2, seq!['?', '>']);
                lemma_parse_nodes_unique(s, stepped(s, i, j + 2));
                match spec_parse_nodes(s, stepped(s, i, j + 2)) {
                    Ok((rest, _)) => {
                        lemma_unique_cons(
                            NodeView::ProcessingInstruction(s.subrange(i + 2, j)),
                            rest,
                        );
                    },
                    Err(_) => {},
                }
            },
        }
    } else if starts_with_at(s, i, seq!['<', '!']) {
        match find_from(s, i + 2, seq!['>']) {
            None => {},
            Some(j) => {
                find_from_bounds(s, i + 2, seq!['>']);
                lemma_parse_nodes_unique(s, stepped(s, i, j + 1));
                match spec_parse_nodes(s, stepped(s, i, j + 1)) {
                    Ok((rest, _)) => {
                        lemma_unique_cons(NodeView::Doctype(s.subrange(i + 2, j)), rest);
                    },
                    Err(_) => {},
                }
            },
        }
    } else {
        scan_name_end_bounds(s, i + 1);
        let ne = scan_name_end(s, i + 1);
        if ne != i + 1 {
            let name = s.subrange(i + 1, ne);
            lemma_parse_attrs_unique(s, ne, i, Seq::empty());
            match spec_parse_attrs(s, ne, i, Seq::empty()) {
                Err(_) => {},
                Ok((attrs, after, true)) => {
                    lemma_parse_nodes_unique(s, stepped(s, i, after));
                    match spec_parse_nodes(s, stepped(s, i, after)) {
                        Ok((rest, _)) => {
                            lemma_unique_cons(
                                NodeView::Element { name, attrs, children: Seq::empty() },
                                rest,
                            );
                        },
                        Err(_) => {},
                    }
                },
                Ok((attrs, after, false)) => {
                    lemma_parse_nodes_unique(s, stepped(s, i, after));
                    match spec_parse_nodes(s, stepped(s, i, after)) {
                        Err(_) => {},
                        Ok((kids, m)) => {
                            if m + 2 <= s.len() && starts_with_at(s, m, seq!['<', '/']) {
                                scan_name_end_bounds(s, m + 2);
                                let ce = scan_name_end(s, m + 2);
                                if s.subrange(m + 2, ce) == name {
                                    skip_ws_bounds(s, ce);
                                    let aw = skip_ws(s, ce);
                                    if aw < s.len() && s[aw] == '>' {
                                        lemma_parse_nodes_unique(s, stepped(s, i, aw + 1));
                                        match spec_parse_nodes(s, stepped(s, i, aw + 1)) {
                                            Ok((rest, _)) => {
                                                lemma_unique_cons(
                                                    NodeView::Element {
                                                        name,
                                                        attrs,
                                                        children: kids,
                                                    },
                                                    rest,
                                                );
                                            },
                                            Err(_) => {},
                                        }
                                    }
                                }
                            }
                        },
                    }
                },
            }
        }
    }
}

/// Every parsed document has unique attribute keys everywhere.
pub proof fn lemma_parse_unique(s: Seq<char>)
    ensures
        match spec_parse(s) {
            Ok(nodes) => crate::tree::spec_unique_tree(nodes),
            Err(_) => true,
        },
{
    let start: int = if s.len() > 0 && s[0] == '\u{feff}' {
        1
    } else {
        0
    };
    lemma_parse_nodes_unique(s, start);
}

} // verus!
