//! Shortens color values: `rgb(r,g,b)` calls become hex, well-known color
//! names become their shorter hex form, and `#rrggbb` collapses to `#rgb`
//! when the digit pairs repeat.
use vstd::prelude::*;
use vstd::string::StringExecFns;

use crate::plugins::Plugin;
use crate::tree::{Document, Element, Node, NodeView, node_view, nodes_view, nodes_view_len,
    nodes_view_index, attrs_get, attrs_set, attrs_view};
use crate::text::{is_digit_char, digit_val};
use crate::parser::char_of;
use crate::num::all_digits;

verus! {

pub struct ConvertColors;

// ----- lowercasing -----

/// An ASCII letter lowered; anything else unchanged.
pub open spec fn lower_char(c: char) -> char {
    if 'A' <= c && c <= 'Z' {
        char_of(c as int + 32)
    } else {
        c
    }
}

pub open spec fn spec_ascii_lower(s: Seq<char>) -> Seq<char> {
    Seq::new(s.len(), |i: int| lower_char(s[i]))
}

fn ascii_lowercase(s: &str) -> (r: String)
    ensures
        r@ == spec_ascii_lower(s@),
{
    let n = s.unicode_len();
    let mut out = String::new();
    let mut i: usize = 0;
    while i < n
        invariant
            0 <= i <= n,
            n == s@.len(),
            out@ =~= spec_ascii_lower(s@).subrange(0, i as int),
        decreases n - i,
    {
        let c = s.get_char(i);
        if 'A' <= c && c <= 'Z' {
            let b: u8 = (c as u8) + 32;
            let lc = b as char;
            proof {
                assert(b as int == c as int + 32);
                assert(lc == (b as u32) as char);
                assert(lc == lower_char(s@[i as int]));
            }
            out.push(lc);
        } else {
            out.push(c);
        }
        i += 1;
        proof {
            assert(out@ =~= spec_ascii_lower(s@).subrange(0, i as int));
        }
    }
    proof {
        assert(spec_ascii_lower(s@).subrange(0, n as int) =~= spec_ascii_lower(s@));
    }
    out
}

// ----- the rgb() form -----

/// The three digit groups of the first `rgb(...)` call found in the text,
/// as the regular expression `rgb\(\s*([0-9]+)\s*,\s*([0-9]+)\s*,\s*([0-9]+)\s*\)`
/// finds them.
pub uninterp spec fn rgb_match_of(s: Seq<char>) -> Option<(Seq<char>, Seq<char>, Seq<char>)>;

/// The text holds the four characters `rgb(` somewhere.
pub open spec fn contains_rgb_open(s: Seq<char>) -> bool {
    crate::parser::find_from(s, 0, seq!['r', 'g', 'b', '(']) is Some
}

/// What the matcher grants about the named match of a text: the groups of a
/// match are non-empty runs of the digits `0-9`; a match is a substring of
/// the text and spells at least `rgb(`, two commas and `)` around the
/// groups; and a text without the four characters `rgb(` has no match.
pub open spec fn rgb_match_facts(s: Seq<char>) -> bool {
    &&& match rgb_match_of(s) {
        Some(g) => g.0.len() > 0 && g.1.len() > 0 && g.2.len() > 0 && all_digits(g.0)
            && all_digits(g.1) && all_digits(g.2) && s.len() >= g.0.len() + g.1.len() + g.2.len()
            + 7,
        None => true,
    }
    &&& (!contains_rgb_open(s) ==> rgb_match_of(s) is None)
}

/// Relies on regex::Regex::captures with the pattern
/// `rgb\(\s*([0-9]+)\s*,\s*([0-9]+)\s*,\s*([0-9]+)\s*\)`: the result depends
/// on the text alone; each captured group matches `[0-9]+`, so it is one or
/// more ASCII digits; the match is a substring of the text and contains the
/// seven literal characters `rgb(`, `,`, `,`, `)` beside the groups; and a
/// text in which the literal `rgb(` does not occur cannot match a pattern
/// that begins with it.
#[verifier::external_body]
fn rgb_captures(s: &str) -> (r: Option<(String, String, String)>)
    ensures
        match r {
            Some(c) => rgb_match_of(s@) == Some((c.0@, c.1@, c.2@)) && c.0@.len() > 0 && c.1@.len()
                > 0 && c.2@.len() > 0 && all_digits(c.0@) && all_digits(c.1@) && all_digits(c.2@)
                && s@.len() >= c.0@.len() + c.1@.len() + c.2@.len() + 7,
            None => rgb_match_of(s@) is None,
        },
        !contains_rgb_open(s@) ==> r is None,
{
    let re = regex::Regex::new(r"rgb\(\s*([0-9]+)\s*,\s*([0-9]+)\s*,\s*([0-9]+)\s*\)").unwrap();
    match re.captures(s) {
        Some(c) => Some((c[1].to_string(), c[2].to_string(), c[3].to_string())),
        None => None,
    }
}

/// One lowercase hexadecimal digit.
pub open spec fn hex_char(d: int) -> char {
    if d < 10 {
        char_of(48 + d)
    } else {
        char_of(87 + d)
    }
}

/// Two lowercase hexadecimal digits of a byte.
pub open spec fn hex2(n: int) -> Seq<char> {
    seq![hex_char(n / 16), hex_char(n % 16)]
}

/// The hex form of a color, shortened to `#rgb` when the pairs repeat.
pub open spec fn spec_to_hex(r: int, g: int, b: int) -> Seq<char> {
    let h = seq!['#'] + hex2(r) + hex2(g) + hex2(b);
    if h[1] == h[2] && h[3] == h[4] && h[5] == h[6] {
        seq!['#', h[1], h[3], h[5]]
    } else {
        h
    }
}

/// The hex form of three captured digit groups, when each fits in a byte.
pub open spec fn spec_rgb_to_hex(a: Seq<char>, b: Seq<char>, c: Seq<char>) -> Option<Seq<char>> {
    if dec_value_of_chars(a) < 256 && dec_value_of_chars(b) < 256 && dec_value_of_chars(c) < 256 {
        Some(spec_to_hex(dec_value_of_chars(a), dec_value_of_chars(b), dec_value_of_chars(c)))
    } else {
        None
    }
}

/// Value of a digit run, most significant first.
pub open spec fn dec_value_of_chars(s: Seq<char>) -> int {
    crate::parser::dec_value_of(s)
}

fn hex_digit_char(d: u8) -> (c: char)
    requires
        d < 16,
    ensures
        c == hex_char(d as int),
{
    if d < 10 {
        let b: u8 = 48 + d;
        let c = b as char;
        proof {
            assert(c == (b as u32) as char);
        }
        c
    } else {
        let b: u8 = 87 + d;
        let c = b as char;
        proof {
            assert(c == (b as u32) as char);
        }
        c
    }
}

/// The shortest hex form of a color given by its byte channels.
pub fn to_hex(r: u8, g: u8, b: u8) -> (res: String)
    ensures
        res@ == spec_to_hex(r as int, g as int, b as int),
{
    let c1 = hex_digit_char(r / 16);
    let c2 = hex_digit_char(r % 16);
    let c3 = hex_digit_char(g / 16);
    let c4 = hex_digit_char(g % 16);
    let c5 = hex_digit_char(b / 16);
    let c6 = hex_digit_char(b % 16);
    let mut out = String::new();
    out.push('#');
    if c1 == c2 && c3 == c4 && c5 == c6 {
        out.push(c1);
        out.push(c3);
        out.push(c5);
    } else {
        out.push(c1);
        out.push(c2);
        out.push(c3);
        out.push(c4);
        out.push(c5);
        out.push(c6);
    }
    proof {
        assert(out@ =~= spec_to_hex(r as int, g as int, b as int));
    }
    out
}

/// Parse a run of decimal digits as a byte value, exactly when it fits.
fn parse_byte(s: &str) -> (r: Option<u8>)
    requires
        all_digits(s@),
    ensures
        match r {
            Some(n) => dec_value_of_chars(s@) == n as int,
            None => dec_value_of_chars(s@) >= 256,
        },
{
    let n = s.unicode_len();
    let mut v: u16 = 0;
    let mut i: usize = 0;
    proof {
        assert(s@.subrange(0, 0) =~= Seq::<char>::empty());
    }
    while i < n
        invariant
            0 <= i <= n,
            n == s@.len(),
            all_digits(s@),
            v <= 256,
            v as int == if dec_value_of_chars(s@.subrange(0, i as int)) < 256 {
                dec_value_of_chars(s@.subrange(0, i as int))
            } else {
                256int
            },
        decreases n - i,
    {
        let ghost pre = s@.subrange(0, i as int);
        let c = s.get_char(i);
        let d: u16 = ((c as u32) - ('0' as u32)) as u16;
        let mut v2: u16 = v * 10;
        if v2 > 256 {
            v2 = 256;
        }
        let mut v3: u16 = v2 + d;
        if v3 > 256 {
            v3 = 256;
        }
        v = v3;
        i += 1;
        proof {
            let post = s@.subrange(0, i as int);
            assert(post.drop_last() =~= pre);
            assert(dec_value_of_chars(post) == dec_value_of_chars(pre) * 10 + digit_val(s@[i
                - 1]));
        }
    }
    proof {
        assert(s@.subrange(0, n as int) =~= s@);
    }
    if v < 256 {
        Some(v as u8)
    } else {
        None
    }
}

/// The hex form of the three captured digit groups, when they are bytes.
pub fn rgb_to_hex(a: &str, b: &str, c: &str) -> (r: Option<String>)
    requires
        all_digits(a@),
        all_digits(b@),
        all_digits(c@),
    ensures
        match r {
            Some(s) => spec_rgb_to_hex(a@, b@, c@) == Some(s@),
            None => spec_rgb_to_hex(a@, b@, c@) is None,
        },
{
    match (parse_byte(a), parse_byte(b), parse_byte(c)) {
        (Some(x), Some(y), Some(z)) => Some(to_hex(x, y, z)),
        _ => None,
    }
}

// ----- named colors and hex shortening -----

/// The named colors this pass knows, with their hex forms.
pub open spec fn spec_named_hex(s: Seq<char>) -> Option<Seq<char>> {
    if s == "black"@ {
        Some("#000"@)
    } else if s == "white"@ {
        Some("#fff"@)
    } else if s == "red"@ {
        Some("#f00"@)
    } else if s == "green"@ {
        Some("#008000"@)
    } else if s == "blue"@ {
        Some("#00f"@)
    } else if s == "yellow"@ {
        Some("#ff0"@)
    } else if s == "cyan"@ {
        Some("#0ff"@)
    } else if s == "magenta"@ {
        Some("#f0f"@)
    } else if s == "gray"@ {
        Some("#808080"@)
    } else if s == "grey"@ {
        Some("#808080"@)
    } else if s == "rebeccapurple"@ {
        Some("#663399"@)
    } else {
        None
    }
}

fn named_hex(s: &str) -> (r: Option<String>)
    ensures
        match r {
            Some(h) => spec_named_hex(s@) == Some(h@),
            None => spec_named_hex(s@) is None,
        },
{
    if crate::text::str_eq(s, "black") {
        Some(String::from_str("#000"))
    } else if crate::text::str_eq(s, "white") {
        Some(String::from_str("#fff"))
    } else if crate::text::str_eq(s, "red") {
        Some(String::from_str("#f00"))
    } else if crate::text::str_eq(s, "green") {
        Some(String::from_str("#008000"))
    } else if crate::text::str_eq(s, "blue") {
        Some(String::from_str("#00f"))
    } else if crate::text::str_eq(s, "yellow") {
        Some(String::from_str("#ff0"))
    } else if crate::text::str_eq(s, "cyan") {
        Some(String::from_str("#0ff"))
    } else if crate::text::str_eq(s, "magenta") {
        Some(String::from_str("#f0f"))
    } else if crate::text::str_eq(s, "gray") {
        Some(String::from_str("#808080"))
    } else if crate::text::str_eq(s, "grey") {
        Some(String::from_str("#808080"))
    } else if crate::text::str_eq(s, "rebeccapurple") {
        Some(String::from_str("#663399"))
    } else {
        None
    }
}

/// What this pass does to one color value: the rgb() form becomes hex when
/// its channels are bytes; a known name becomes hex when that is shorter; a
/// six-digit hex with repeated pairs becomes the three-digit form; anything
/// else stays as it was.
pub open spec fn spec_convert_color(s: Seq<char>) -> Seq<char> {
    let lower = spec_ascii_lower(s);
    let rgb: Option<Seq<char>> = match rgb_match_of(lower) {
        Some(groups) => spec_rgb_to_hex(groups.0, groups.1, groups.2),
        None => None,
    };
    match rgb {
        Some(h) => h,
        None => match spec_named_hex(lower) {
            Some(h) => if h.len() < lower.len() {
                h
            } else {
                spec_shorten_hex(s, lower)
            },
            None => spec_shorten_hex(s, lower),
        },
    }
}

/// The six-digit hex shortening step, over the lowercased value.
pub open spec fn spec_shorten_hex(s: Seq<char>, lower: Seq<char>) -> Seq<char> {
    if lower.len() == 7 && lower[0] == '#' && lower[1] == lower[2] && lower[3] == lower[4]
        && lower[5] == lower[6] {
        seq!['#', lower[1], lower[3], lower[5]]
    } else {
        s
    }
}


/// The hex form of a color is four or seven characters.
pub proof fn lemma_to_hex_len(r: int, g: int, b: int)
    ensures
        spec_to_hex(r, g, b).len() == 4 || spec_to_hex(r, g, b).len() == 7,
{
    let h = seq!['#'] + hex2(r) + hex2(g) + hex2(b);
    assert(h.len() == 7);
    if h[1] == h[2] && h[3] == h[4] && h[5] == h[6] {
        assert(spec_to_hex(r, g, b) == seq!['#', h[1], h[3], h[5]]);
    }
}

/// A shortened value is never longer than the value.
pub proof fn lemma_shorten_hex_len(s: Seq<char>, lower: Seq<char>)
    requires
        lower.len() == s.len(),
    ensures
        spec_shorten_hex(s, lower).len() <= s.len(),
{
}

/// Convert one color value. The result is never longer than the value.
pub fn convert_color(val: &str) -> (r: String)
    ensures
        r@ == spec_convert_color(val@),
        r@.len() <= val@.len(),
        rgb_match_facts(spec_ascii_lower(val@)),
{
    let lower = ascii_lowercase(val);
    proof {
        assert(lower@.len() == val@.len());
    }
    let rgb: Option<String> = match rgb_captures(lower.as_str()) {
        Some(groups) => {
            proof {
                assert(rgb_match_facts(lower@));
            }
            rgb_to_hex(groups.0.as_str(), groups.1.as_str(), groups.2.as_str())
        },
        None => {
            proof {
                assert(rgb_match_facts(lower@));
            }
            None
        },
    };
    match rgb {
        Some(h) => {
            proof {
                lemma_to_hex_len(
                    dec_value_of_chars((rgb_match_of(lower@)->0).0),
                    dec_value_of_chars((rgb_match_of(lower@)->0).1),
                    dec_value_of_chars((rgb_match_of(lower@)->0).2),
                );
            }
            h
        },
        None => {
            let named: Option<String> = named_hex(lower.as_str());
            let lower_chars = crate::text::to_char_vec(lower.as_str());
            match named {
                Some(h) => {
                    if h.as_str().unicode_len() < lower_chars.len() {
                        h
                    } else {
                        shorten_hex(val, &lower_chars)
                    }
                },
                None => shorten_hex(val, &lower_chars),
            }
        },
    }
}

fn shorten_hex(val: &str, lower_chars: &Vec<char>) -> (r: String)
    requires
        lower_chars@ == spec_ascii_lower(val@),
    ensures
        r@ == spec_shorten_hex(val@, spec_ascii_lower(val@)),
{
    if lower_chars.len() == 7 && lower_chars[0] == '#' && lower_chars[1] == lower_chars[2]
        && lower_chars[3] == lower_chars[4] && lower_chars[5] == lower_chars[6] {
        let mut out = String::new();
        out.push('#');
        out.push(lower_chars[1]);
        out.push(lower_chars[3]);
        out.push(lower_chars[5]);
        proof {
            assert(out@ =~= spec_shorten_hex(val@, spec_ascii_lower(val@)));
        }
        out
    } else {
        String::from_str(val)
    }
}


// ----- laws of color conversion -----

/// Lowercasing changes no character that is not an ASCII capital.
proof fn lemma_lower_id(s: Seq<char>)
    requires
        forall|i: int| 0 <= i < s.len() ==> !('A' <= #[trigger] s[i] && s[i] <= 'Z'),
    ensures
        spec_ascii_lower(s) == s,
{
    assert(spec_ascii_lower(s) =~= s);
}

/// A lowercased text holds no ASCII capital.
proof fn lemma_lower_no_upper(s: Seq<char>)
    ensures
        forall|i: int|
            0 <= i < spec_ascii_lower(s).len() ==> !('A' <= #[trigger] spec_ascii_lower(s)[i]
                && spec_ascii_lower(s)[i] <= 'Z'),
{
    assert forall|i: int|
        0 <= i < spec_ascii_lower(s).len() implies !('A' <= #[trigger] spec_ascii_lower(s)[i]
        && spec_ascii_lower(s)[i] <= 'Z') by {
        let c = s[i];
        if 'A' <= c && c <= 'Z' {
            crate::num::char_cast_value(c as int + 32);
        }
    }
}

/// A text without a `(` holds no `rgb(` call.
proof fn lemma_no_paren_no_rgb(s: Seq<char>)
    requires
        forall|i: int| 0 <= i < s.len() ==> #[trigger] s[i] != '(',
    ensures
        !contains_rgb_open(s),
{
    let p = seq!['r', 'g', 'b', '('];
    crate::parser::lemma_find_from_found(s, 0, p);
    crate::parser::find_from_bounds(s, 0, p);
    if contains_rgb_open(s) {
        let j = crate::parser::find_from(s, 0, p)->0;
        assert(s.subrange(j, j + 4)[3] == '(');
    }
}

/// A four-character text not starting with `r` holds no `rgb(` call.
proof fn lemma_len4_no_rgb(s: Seq<char>)
    requires
        s.len() == 4,
        s[0] != 'r',
    ensures
        !contains_rgb_open(s),
{
    let p = seq!['r', 'g', 'b', '('];
    crate::parser::lemma_find_from_found(s, 0, p);
    crate::parser::find_from_bounds(s, 0, p);
    if contains_rgb_open(s) {
        let j = crate::parser::find_from(s, 0, p)->0;
        assert(j == 0);
        assert(s.subrange(0, 4)[0] == 'r');
    }
}

/// A lowercase hexadecimal digit is neither a capital nor a parenthesis.
proof fn lemma_hex_char_class(d: int)
    requires
        0 <= d < 16,
    ensures
        !('A' <= hex_char(d) && hex_char(d) <= 'Z'),
        hex_char(d) != '(',
{
    if d < 10 {
        crate::num::char_cast_value(48 + d);
    } else {
        crate::num::char_cast_value(87 + d);
    }
}

/// The hex form of a byte color starts with `#` and holds only lowercase
/// hexadecimal digits after it.
proof fn lemma_to_hex_chars(r: int, g: int, b: int)
    requires
        0 <= r < 256,
        0 <= g < 256,
        0 <= b < 256,
    ensures
        spec_to_hex(r, g, b).len() == 4 || spec_to_hex(r, g, b).len() == 7,
        spec_to_hex(r, g, b)[0] == '#',
        forall|i: int|
            0 <= i < spec_to_hex(r, g, b).len() ==> !('A' <= #[trigger] spec_to_hex(r, g, b)[i]
                && spec_to_hex(r, g, b)[i] <= 'Z') && spec_to_hex(r, g, b)[i] != '(',
{
    let h = seq!['#'] + hex2(r) + hex2(g) + hex2(b);
    lemma_hex_char_class(r / 16);
    lemma_hex_char_class(r % 16);
    lemma_hex_char_class(g / 16);
    lemma_hex_char_class(g % 16);
    lemma_hex_char_class(b / 16);
    lemma_hex_char_class(b % 16);
    assert(h.len() == 7);
    assert(h[0] == '#' && h[1] == hex_char(r / 16) && h[2] == hex_char(r % 16) && h[3]
        == hex_char(g / 16) && h[4] == hex_char(g % 16) && h[5] == hex_char(b / 16) && h[6]
        == hex_char(b % 16));
    let out = spec_to_hex(r, g, b);
    if h[1] == h[2] && h[3] == h[4] && h[5] == h[6] {
        assert(out == seq!['#', h[1], h[3], h[5]]);
        assert forall|i: int|
            0 <= i < out.len() implies !('A' <= out[i] && out[i] <= 'Z') && out[i] != '(' by {
            if i == 0 {
            } else if i == 1 {
            } else if i == 2 {
            } else {
            }
        }
    } else {
        assert forall|i: int|
            0 <= i < out.len() implies !('A' <= out[i] && out[i] <= 'Z') && out[i] != '(' by {
            if i == 0 {
            } else if i == 1 {
            } else if i == 2 {
            } else if i == 3 {
            } else if i == 4 {
            } else if i == 5 {
            } else {
            }
        }
    }
}

/// A value that looks like an emitted hex color is a fixed point of the
/// conversion: the matcher cannot match it, the table does not know it, and
/// the shortening step does not fire on it.
proof fn lemma_hexlike_fixed(out: Seq<char>)
    requires
        out.len() > 0,
        out[0] == '#',
        forall|i: int| 0 <= i < out.len() ==> !('A' <= #[trigger] out[i] && out[i] <= 'Z'),
        !contains_rgb_open(out),
        !(out.len() == 7 && out[1] == out[2] && out[3] == out[4] && out[5] == out[6]),
        rgb_match_facts(out),
    ensures
        spec_convert_color(out) == out,
{
    lemma_lower_id(out);
    assert(rgb_match_of(out) is None);
    lemma_named_hex_none_hash(out);
}

/// No color name starts with `#`.
proof fn lemma_named_hex_none_hash(s: Seq<char>)
    requires
        s.len() > 0,
        s[0] == '#',
    ensures
        spec_named_hex(s) is None,
{
    reveal_strlit("black");
    reveal_strlit("white");
    reveal_strlit("red");
    reveal_strlit("green");
    reveal_strlit("blue");
    reveal_strlit("yellow");
    reveal_strlit("cyan");
    reveal_strlit("magenta");
    reveal_strlit("gray");
    reveal_strlit("grey");
    reveal_strlit("rebeccapurple");
    assert("black"@ =~= seq!['b', 'l', 'a', 'c', 'k']);
    assert("white"@ =~= seq!['w', 'h', 'i', 't', 'e']);
    assert("red"@ =~= seq!['r', 'e', 'd']);
    assert("green"@ =~= seq!['g', 'r', 'e', 'e', 'n']);
    assert("blue"@ =~= seq!['b', 'l', 'u', 'e']);
    assert("yellow"@ =~= seq!['y', 'e', 'l', 'l', 'o', 'w']);
    assert("cyan"@ =~= seq!['c', 'y', 'a', 'n']);
    assert("magenta"@ =~= seq!['m', 'a', 'g', 'e', 'n', 't', 'a']);
    assert("gray"@ =~= seq!['g', 'r', 'a', 'y']);
    assert("grey"@ =~= seq!['g', 'r', 'e', 'y']);
    assert("rebeccapurple"@ =~= seq!['r', 'e', 'b', 'e', 'c', 'c', 'a', 'p', 'u', 'r', 'p', 'l',
        'e']);
    assert(s != "black"@) by {
        if s == "black"@ {
            assert(s[0] == 'b');
        }
    }
    assert(s != "white"@) by {
        if s == "white"@ {
            assert(s[0] == 'w');
        }
    }
    assert(s != "red"@) by {
        if s == "red"@ {
            assert(s[0] == 'r');
        }
    }
    assert(s != "green"@) by {
        if s == "green"@ {
            assert(s[0] == 'g');
        }
    }
    assert(s != "blue"@) by {
        if s == "blue"@ {
            assert(s[0] == 'b');
        }
    }
    assert(s != "yellow"@) by {
        if s == "yellow"@ {
            assert(s[0] == 'y');
        }
    }
    assert(s != "cyan"@) by {
        if s == "cyan"@ {
            assert(s[0] == 'c');
        }
    }
    assert(s != "magenta"@) by {
        if s == "magenta"@ {
            assert(s[0] == 'm');
        }
    }
    assert(s != "gray"@) by {
        if s == "gray"@ {
            assert(s[0] == 'g');
        }
    }
    assert(s != "grey"@) by {
        if s == "grey"@ {
            assert(s[0] == 'g');
        }
    }
    assert(s != "rebeccapurple"@) by {
        if s == "rebeccapurple"@ {
            assert(s[0] == 'r');
        }
    }
}

/// Converting a color never lengthens it, whatever the matcher returned.
pub proof fn lemma_convert_color_size(val: Seq<char>)
    requires
        rgb_match_facts(spec_ascii_lower(val)),
    ensures
        spec_convert_color(val).len() <= val.len(),
{
    let lower = spec_ascii_lower(val);
    assert(lower.len() == val.len());
    match rgb_match_of(lower) {
        Some(g) => {
            match spec_rgb_to_hex(g.0, g.1, g.2) {
                Some(h) => {
                    lemma_to_hex_len(
                        dec_value_of_chars(g.0),
                        dec_value_of_chars(g.1),
                        dec_value_of_chars(g.2),
                    );
                },
                None => {
                    lemma_shorten_hex_len(val, lower);
                },
            }
        },
        None => {
            lemma_shorten_hex_len(val, lower);
        },
    }
}

/// Converting a color twice gives what converting it once gives, for every
/// value but the one name whose table hex is itself shortenable: the
/// conversion of `rebeccapurple` is `#663399`, which a second run collapses
/// to `#639`. The two premises are exactly what the matcher's contract
/// grants for the two texts involved.
#[verifier::rlimit(100)]
pub proof fn lemma_convert_color_idempotent(val: Seq<char>)
    requires
        rgb_match_facts(spec_ascii_lower(val)),
        rgb_match_facts(spec_ascii_lower(spec_convert_color(val))),
        spec_ascii_lower(val) != "rebeccapurple"@,
    ensures
        spec_convert_color(spec_convert_color(val)) == spec_convert_color(val),
{
    let lower = spec_ascii_lower(val);
    let out = spec_convert_color(val);
    if out == val {
    } else {
        lemma_lower_no_upper(val);
        let rgbres: Option<Seq<char>> = match rgb_match_of(lower) {
            Some(g) => spec_rgb_to_hex(g.0, g.1, g.2),
            None => None,
        };
        if rgbres is Some {
            let g = rgb_match_of(lower)->0;
            let a = dec_value_of_chars(g.0);
            let b = dec_value_of_chars(g.1);
            let c = dec_value_of_chars(g.2);
            crate::num::dec_value_bound(g.0);
            crate::num::dec_value_bound(g.1);
            crate::num::dec_value_bound(g.2);
            assert(out == spec_to_hex(a, b, c));
            lemma_to_hex_chars(a, b, c);
            let h = seq!['#'] + hex2(a) + hex2(b) + hex2(c);
            if h[1] == h[2] && h[3] == h[4] && h[5] == h[6] {
                assert(out.len() == 4);
            } else {
                assert(out == h);
            }
            lemma_no_paren_no_rgb(out);
            lemma_lower_id(out);
            lemma_hexlike_fixed(out);
        } else {
            match spec_named_hex(lower) {
                Some(h) => {
                    if h.len() < lower.len() {
                        assert(out == h);
                    if lower == "black"@ {
                        reveal_strlit("#000");
                        assert("#000"@ =~= seq!['#', '0', '0', '0']);
                        let h2 = "#000"@;
                        assert(out == h2);
                        assert forall|i: int|
                            0 <= i < h2.len() implies !('A' <= h2[i] && h2[i] <= 'Z') && h2[i]
                            != '(' by {
                            if i == 0 { } else if i == 1 { } else if i == 2 { } else { }
                        }
                        lemma_no_paren_no_rgb(h2);
                        lemma_lower_id(h2);
                        lemma_hexlike_fixed(h2);
                    } else if lower == "white"@ {
                        reveal_strlit("#fff");
                        assert("#fff"@ =~= seq!['#', 'f', 'f', 'f']);
                        let h2 = "#fff"@;
                        assert(out == h2);
                        assert forall|i: int|
                            0 <= i < h2.len() implies !('A' <= h2[i] && h2[i] <= 'Z') && h2[i]
                            != '(' by {
                            if i == 0 { } else if i == 1 { } else if i == 2 { } else { }
                        }
                        lemma_no_paren_no_rgb(h2);
                        lemma_lower_id(h2);
                        lemma_hexlike_fixed(h2);
                    } else if lower == "red"@ {
                        reveal_strlit("#f00");
                        assert("#f00"@ =~= seq!['#', 'f', '0', '0']);
                        let h2 = "#f00"@;
                        assert(out == h2);
                        assert forall|i: int|
                            0 <= i < h2.len() implies !('A' <= h2[i] && h2[i] <= 'Z') && h2[i]
                            != '(' by {
                            if i == 0 { } else if i == 1 { } else if i == 2 { } else { }
                        }
                        lemma_no_paren_no_rgb(h2);
                        lemma_lower_id(h2);
                        lemma_hexlike_fixed(h2);
                    } else if lower == "green"@ {
                        reveal_strlit("#008000");
                        assert("#008000"@ =~= seq!['#', '0', '0', '8', '0', '0', '0']);
                        let h2 = "#008000"@;
                        assert(out == h2);
                        assert forall|i: int|
                            0 <= i < h2.len() implies !('A' <= h2[i] && h2[i] <= 'Z') && h2[i]
                            != '(' by {
                            if i == 0 { } else if i == 1 { } else if i == 2 { } else if i == 3 { } else if i == 4 { } else if i == 5 { } else { }
                        }
                        lemma_no_paren_no_rgb(h2);
                        lemma_lower_id(h2);
                        lemma_hexlike_fixed(h2);
                    } else if lower == "blue"@ {
                        reveal_strlit("#00f");
                        assert("#00f"@ =~= seq!['#', '0', '0', 'f']);
                        let h2 = "#00f"@;
                        assert(out == h2);
                        assert forall|i: int|
                            0 <= i < h2.len() implies !('A' <= h2[i] && h2[i] <= 'Z') && h2[i]
                            != '(' by {
                            if i == 0 { } else if i == 1 { } else if i == 2 { } else { }
                        }
                        lemma_no_paren_no_rgb(h2);
                        lemma_lower_id(h2);
                        lemma_hexlike_fixed(h2);
                    } else if lower == "yellow"@ {
                        reveal_strlit("#ff0");
                        assert("#ff0"@ =~= seq!['#', 'f', 'f', '0']);
                        let h2 = "#ff0"@;
                        assert(out == h2);
                        assert forall|i: int|
                            0 <= i < h2.len() implies !('A' <= h2[i] && h2[i] <= 'Z') && h2[i]
                            != '(' by {
                            if i == 0 { } else if i == 1 { } else if i == 2 { } else { }
                        }
                        lemma_no_paren_no_rgb(h2);
                        lemma_lower_id(h2);
                        lemma_hexlike_fixed(h2);
                    } else if lower == "cyan"@ {
                        reveal_strlit("#0ff");
                        assert("#0ff"@ =~= seq!['#', '0', 'f', 'f']);
                        let h2 = "#0ff"@;
                        assert(out == h2);
                        assert forall|i: int|
                            0 <= i < h2.len() implies !('A' <= h2[i] && h2[i] <= 'Z') && h2[i]
                            != '(' by {
                            if i == 0 { } else if i == 1 { } else if i == 2 { } else { }
                        }
                        lemma_no_paren_no_rgb(h2);
                        lemma_lower_id(h2);
                        lemma_hexlike_fixed(h2);
                    } else if lower == "magenta"@ {
                        reveal_strlit("#f0f");
                        assert("#f0f"@ =~= seq!['#', 'f', '0', 'f']);
                        let h2 = "#f0f"@;
                        assert(out == h2);
                        assert forall|i: int|
                            0 <= i < h2.len() implies !('A' <= h2[i] && h2[i] <= 'Z') && h2[i]
                            != '(' by {
                            if i == 0 { } else if i == 1 { } else if i == 2 { } else { }
                        }
                        lemma_no_paren_no_rgb(h2);
                        lemma_lower_id(h2);
                        lemma_hexlike_fixed(h2);
                    } else if lower == "gray"@ {
                        reveal_strlit("#808080");
                        assert("#808080"@ =~= seq!['#', '8', '0', '8', '0', '8', '0']);
                        let h2 = "#808080"@;
                        assert(out == h2);
                        assert forall|i: int|
                            0 <= i < h2.len() implies !('A' <= h2[i] && h2[i] <= 'Z') && h2[i]
                            != '(' by {
                            if i == 0 { } else if i == 1 { } else if i == 2 { } else if i == 3 { } else if i == 4 { } else if i == 5 { } else { }
                        }
                        lemma_no_paren_no_rgb(h2);
                        lemma_lower_id(h2);
                        lemma_hexlike_fixed(h2);
                    } else if lower == "grey"@ {
                        reveal_strlit("#808080");
                        assert("#808080"@ =~= seq!['#', '8', '0', '8', '0', '8', '0']);
                        let h2 = "#808080"@;
                        assert(out == h2);
                        assert forall|i: int|
                            0 <= i < h2.len() implies !('A' <= h2[i] && h2[i] <= 'Z') && h2[i]
                            != '(' by {
                            if i == 0 { } else if i == 1 { } else if i == 2 { } else if i == 3 { } else if i == 4 { } else if i == 5 { } else { }
                        }
                        lemma_no_paren_no_rgb(h2);
                        lemma_lower_id(h2);
                        lemma_hexlike_fixed(h2);
                    } else if lower == "rebeccapurple"@ {
                        assert(false);
                    } else {
                        assert(spec_named_hex(lower) is None);
                        assert(false);
                    }
                    } else {
                let cond = lower.len() == 7 && lower[0] == '#' && lower[1] == lower[2]
                    && lower[3] == lower[4] && lower[5] == lower[6];
                if cond {
                    assert(out == seq!['#', lower[1], lower[3], lower[5]]);
                    assert(out[0] == '#');
                    assert forall|i: int|
                        0 <= i < out.len() implies !('A' <= out[i] && out[i] <= 'Z') && out.len()
                        == 4 by {
                        if i == 0 {
                        } else if i == 1 {
                            assert(out[1] == lower[1]);
                        } else if i == 2 {
                            assert(out[2] == lower[3]);
                        } else {
                            assert(out[3] == lower[5]);
                        }
                    }
                    lemma_len4_no_rgb(out);
                    lemma_lower_id(out);
                    lemma_hexlike_fixed(out);
                } else {
                    assert(out == val);
                    assert(false);
                }
                    }
                },
                None => {
                let cond = lower.len() == 7 && lower[0] == '#' && lower[1] == lower[2]
                    && lower[3] == lower[4] && lower[5] == lower[6];
                if cond {
                    assert(out == seq!['#', lower[1], lower[3], lower[5]]);
                    assert(out[0] == '#');
                    assert forall|i: int|
                        0 <= i < out.len() implies !('A' <= out[i] && out[i] <= 'Z') && out.len()
                        == 4 by {
                        if i == 0 {
                        } else if i == 1 {
                            assert(out[1] == lower[1]);
                        } else if i == 2 {
                            assert(out[2] == lower[3]);
                        } else {
                            assert(out[3] == lower[5]);
                        }
                    }
                    lemma_len4_no_rgb(out);
                    lemma_lower_id(out);
                    lemma_hexlike_fixed(out);
                } else {
                    assert(out == val);
                    assert(false);
                }
                },
            }
        }
    }
}

// ----- the pass over the tree -----

/// Convert `key` on an attribute list, when present.
pub open spec fn spec_convert_one(
    attrs: Seq<(Seq<char>, Seq<char>)>,
    k: Seq<char>,
) -> Seq<(Seq<char>, Seq<char>)> {
    match attrs_get(attrs, k) {
        Some(v) => attrs_set(attrs, k, spec_convert_color(v)),
        None => attrs,
    }
}

/// The color attributes this pass rewrites, in a fixed order.
pub open spec fn spec_convert_elem_colors(attrs: Seq<(Seq<char>, Seq<char>)>) -> Seq<
    (Seq<char>, Seq<char>),
> {
    let a1 = spec_convert_one(attrs, "fill"@);
    let a2 = spec_convert_one(a1, "stroke"@);
    let a3 = spec_convert_one(a2, "stop-color"@);
    let a4 = spec_convert_one(a3, "flood-color"@);
    spec_convert_one(a4, "lighting-color"@)
}

fn convert_attr(a: &mut Vec<(String, String)>, key: &str)
    ensures
        attrs_view(final (a)@) == spec_convert_one(attrs_view(old(a)@), key@),
{
    match crate::tree::attrs_lookup(a, key) {
        Some(v) => {
            let nv = convert_color(v.as_str());
            crate::tree::attrs_put(a, String::from_str(key), nv);
        },
        None => {},
    }
}

/// Convert the color attributes of one element.
pub fn convert_element_colors(elem: &mut Element)
    ensures
        attrs_view(final (elem).attributes@) == spec_convert_elem_colors(
            attrs_view(old(elem).attributes@),
        ),
        final (elem).name == old(elem).name,
        final (elem).children == old(elem).children,
{
    convert_attr(&mut elem.attributes, "fill");
    convert_attr(&mut elem.attributes, "stroke");
    convert_attr(&mut elem.attributes, "stop-color");
    convert_attr(&mut elem.attributes, "flood-color");
    convert_attr(&mut elem.attributes, "lighting-color");
}

/// The whole tree with every element's color attributes converted.
pub open spec fn spec_convert_colors(nodes: Seq<NodeView>) -> Seq<NodeView>
    decreases nodes,
{
    if nodes.len() == 0 {
        Seq::empty()
    } else {
        let rest = spec_convert_colors(nodes.subrange(1, nodes.len() as int));
        match nodes[0] {
            NodeView::Element { name, attrs, children } => seq![
                NodeView::Element {
                    name,
                    attrs: spec_convert_elem_colors(attrs),
                    children: spec_convert_colors(children),
                }
            ] + rest,
            other => seq![other] + rest,
        }
    }
}

#[verifier::loop_isolation(false)]
fn convert_vec(mut nodes: Vec<Node>) -> (r: Vec<Node>)
    ensures
        nodes_view(r@) == spec_convert_colors(nodes_view(nodes@)),
    decreases nodes,
{
    broadcast use nodes_view_len, nodes_view_index;

    let ghost orig = nodes;
    let mut out: Vec<Node> = Vec::new();
    let ghost mut i: int = 0;
    while nodes.len() > 0
        invariant
            0 <= i <= orig@.len(),
            nodes@ =~= orig@.subrange(i, orig@.len() as int),
            nodes_view(out@) + spec_convert_colors(nodes_view(nodes@)) =~= spec_convert_colors(
                nodes_view(orig@),
            ),
        decreases nodes@.len(),
    {
        proof {
            assert(nodes_view(nodes@).subrange(1, nodes_view(nodes@).len() as int) =~= nodes_view(
                nodes@.subrange(1, nodes@.len() as int),
            ));
        }
        let ghost prev_out = out@;
        let node = nodes.remove(0);
        proof {
            assert(node == orig@[i]);
            assert(decreases_to!(orig => orig@));
            assert(decreases_to!(orig@ => orig@[i]));
        }
        match node {
            Node::Element(e) => {
                proof {
                    assert(orig@[i] == Node::Element(e));
                    assert(decreases_to!(orig@[i] => e.children));
                    assert(decreases_to!(orig => e.children));
                }
                let Element { name, attributes, children } = e;
                let mut e2 = Element { name, attributes, children: Vec::new() };
                convert_element_colors(&mut e2);
                let kids = convert_vec(children);
                let e3 = Element { name: e2.name, attributes: e2.attributes, children: kids };
                out.push(Node::Element(e3));
                proof {
                    assert(nodes_view(out@) =~= nodes_view(prev_out).push(node_view(
                        Node::Element(e3),
                    )));
                }
            },
            other => {
                out.push(other);
                proof {
                    assert(nodes_view(out@) =~= nodes_view(prev_out).push(node_view(
                        out@.last(),
                    )));
                }
            },
        }
        proof {
            i = i + 1;
        }
    }
    proof {
        assert(nodes_view(nodes@) =~= Seq::<NodeView>::empty());
    }
    out
}

/// Convert color attribute values below `nodes`, in place.
pub fn convert_colors_in_nodes(nodes: &mut Vec<Node>)
    ensures
        nodes_view(final (nodes)@) == spec_convert_colors(nodes_view(old(nodes)@)),
{
    let mut v: Vec<Node> = Vec::new();
    core::mem::swap(nodes, &mut v);
    let mut v2 = convert_vec(v);
    core::mem::swap(nodes, &mut v2);
}

impl Plugin for ConvertColors {
    fn apply(&self, doc: &mut Document) {
        convert_colors_in_nodes(&mut doc.root);
    }
}

} // verus!
