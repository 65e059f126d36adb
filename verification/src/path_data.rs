//! The path-data mini-language codec: decodes the compact command string of
//! path elements into typed command records, and re-encodes a command list
//! in its shortest unambiguous textual form at a configurable precision.
use vstd::prelude::*;
use vstd::string::StringExecFns;

use crate::text::{is_space_char, is_digit_char, to_char_vec, range_to_vec};
use crate::parser::{scan_digits_end, scan_digits};
use crate::num::{Dec, dec_wf, spec_parse_dec, parse_dec, spec_dec_round, dec_round, spec_dec_norm,
    dec_norm, spec_fmt_dec, fmt_dec};

verus! {

/// One path command: the letter as written (case carries absolute versus
/// relative) and its numeric operands.
pub struct PathCmd {
    pub cmd: char,
    pub args: Vec<Dec>,
}

/// The value of a command: the letter and the operand sequence.
pub ghost struct PathCmdView {
    pub cmd: char,
    pub args: Seq<Dec>,
}

pub open spec fn cmd_view(c: PathCmd) -> PathCmdView {
    PathCmdView { cmd: c.cmd, args: c.args@ }
}

pub open spec fn cmds_view(v: Seq<PathCmd>) -> Seq<PathCmdView> {
    Seq::new(v.len(), |i: int| cmd_view(v[i]))
}

/// The operand count of a command letter; -1 for anything else.
pub open spec fn spec_arity(c: char) -> int {
    if c == 'M' || c == 'm' || c == 'L' || c == 'l' || c == 'T' || c == 't' {
        2
    } else if c == 'H' || c == 'h' || c == 'V' || c == 'v' {
        1
    } else if c == 'C' || c == 'c' {
        6
    } else if c == 'S' || c == 's' || c == 'Q' || c == 'q' {
        4
    } else if c == 'A' || c == 'a' {
        7
    } else if c == 'Z' || c == 'z' {
        0
    } else {
        -1
    }
}

pub fn arity(c: char) -> (r: i32)
    ensures
        r as int == spec_arity(c),
{
    if c == 'M' || c == 'm' || c == 'L' || c == 'l' || c == 'T' || c == 't' {
        2
    } else if c == 'H' || c == 'h' || c == 'V' || c == 'v' {
        1
    } else if c == 'C' || c == 'c' {
        6
    } else if c == 'S' || c == 's' || c == 'Q' || c == 'q' {
        4
    } else if c == 'A' || c == 'a' {
        7
    } else if c == 'Z' || c == 'z' {
        0
    } else {
        -1
    }
}

/// A separator between path tokens.
pub open spec fn is_psep(c: char) -> bool {
    is_space_char(c) || c == ','
}

pub open spec fn skip_pseps(s: Seq<char>, i: int) -> int
    decreases s.len() - i,
    when 0 <= i <= s.len()
{
    if i == s.len() || !is_psep(s[i]) {
        i
    } else {
        skip_pseps(s, i + 1)
    }
}

pub broadcast proof fn skip_pseps_bounds(s: Seq<char>, i: int)
    requires
        0 <= i <= s.len(),
    ensures
        i <= #[trigger] skip_pseps(s, i) <= s.len(),
    decreases s.len() - i,
{
    if i < s.len() && is_psep(s[i]) {
        skip_pseps_bounds(s, i + 1);
    }
}

/// The end of the number token starting at `i`: an optional sign, digits,
/// and at most one decimal point. A second point or a sign starts the next
/// token.
pub open spec fn num_token_end(s: Seq<char>, i: int) -> int
    recommends
        0 <= i <= s.len(),
{
    let p: int = if i < s.len() && (s[i] == '+' || s[i] == '-') {
        i + 1
    } else {
        i
    };
    let d1 = scan_digits_end(s, p);
    if d1 < s.len() && s[d1] == '.' {
        scan_digits_end(s, d1 + 1)
    } else {
        d1
    }
}

pub broadcast proof fn num_token_end_bounds(s: Seq<char>, i: int)
    requires
        0 <= i <= s.len(),
    ensures
        i <= #[trigger] num_token_end(s, i) <= s.len(),
{
    let p: int = if i < s.len() && (s[i] == '+' || s[i] == '-') {
        i + 1
    } else {
        i
    };
    crate::parser::scan_digits_end_bounds(s, p);
    let d1 = scan_digits_end(s, p);
    if d1 < s.len() && s[d1] == '.' {
        crate::parser::scan_digits_end_bounds(s, d1 + 1);
    }
}

pub fn exec_skip_pseps2(v: &Vec<char>, i: usize) -> (r: usize)
    requires
        i <= v@.len(),
    ensures
        r == skip_pseps(v@, i as int),
        i <= r <= v@.len(),
    decreases v@.len() - i,
{
    if i == v.len() || !(crate::text::is_space(v[i]) || v[i] == ',') {
        i
    } else {
        exec_skip_pseps2(v, i + 1)
    }
}

pub fn exec_num_token_end(v: &Vec<char>, i: usize) -> (r: usize)
    requires
        i <= v@.len(),
    ensures
        r == num_token_end(v@, i as int),
        i <= r <= v@.len(),
{
    let p: usize = if i < v.len() && (v[i] == '+' || v[i] == '-') {
        i + 1
    } else {
        i
    };
    let d1 = scan_digits(v, p);
    if d1 < v.len() && v[d1] == '.' {
        scan_digits(v, d1 + 1)
    } else {
        d1
    }
}

/// The guarded step used for termination of the recursive grammar.
pub open spec fn pstep(s: Seq<char>, i: int, j: int) -> int {
    if i < j && j <= s.len() {
        j
    } else {
        i + 1
    }
}

/// Parse `k` numbers separated by path separators; the numbers and the
/// position after the last one.
pub open spec fn spec_parse_args(s: Seq<char>, i: int, k: nat) -> Option<(Seq<Dec>, int)>
    decreases k,
    when 0 <= i <= s.len()
{
    if k == 0 {
        Some((Seq::empty(), i))
    } else {
        let a = skip_pseps(s, i);
        proof {
            skip_pseps_bounds(s, i);
        }
        let e = num_token_end(s, a);
        proof {
            num_token_end_bounds(s, a);
        }
        if e == a {
            None
        } else {
            match spec_parse_dec(s.subrange(a, e)) {
                None => None,
                Some(d) => match spec_parse_args(s, e, (k - 1) as nat) {
                    None => None,
                    Some((rest, end)) => Some((seq![d] + rest, end)),
                },
            }
        }
    }
}

pub proof fn spec_parse_args_bounds(s: Seq<char>, i: int, k: nat)
    requires
        0 <= i <= s.len(),
    ensures
        match spec_parse_args(s, i, k) {
            Some((args, end)) => i <= end <= s.len() && args.len() == k,
            None => true,
        },
    decreases k,
{
    if k > 0 {
        skip_pseps_bounds(s, i);
        let a = skip_pseps(s, i);
        num_token_end_bounds(s, a);
        let e = num_token_end(s, a);
        if e > a && spec_parse_dec(s.subrange(a, e)) is Some {
            spec_parse_args_bounds(s, e, (k - 1) as nat);
        }
    }
}

/// A command letter.
pub open spec fn is_cmd_char(c: char) -> bool {
    spec_arity(c) >= 0
}

/// Decode the command list from position `i`. `prev` is the letter whose
/// implicit repetition a bare number continues, with its arity; `Z` commands
/// repeat nothing.
pub open spec fn spec_decode_from(s: Seq<char>, i: int, prev: char) -> Option<Seq<PathCmdView>>
    decreases s.len() - i,
    when 0 <= i <= s.len()
{
    let a = skip_pseps(s, i);
    proof {
        skip_pseps_bounds(s, i);
    }
    if a >= s.len() {
        Some(Seq::empty())
    } else if is_cmd_char(s[a]) {
        let c = s[a];
        match spec_parse_args(s, a + 1, spec_arity(c) as nat) {
            None => None,
            Some((args, end)) => {
                proof {
                    spec_parse_args_bounds(s, a + 1, spec_arity(c) as nat);
                }
                match spec_decode_from(s, pstep(s, i, end), c) {
                    None => None,
                    Some(rest) => Some(seq![PathCmdView { cmd: c, args }] + rest),
                }
            },
        }
    } else if spec_arity(prev) >= 1 {
        // implicit repetition of the previous command
        match spec_parse_args(s, a, spec_arity(prev) as nat) {
            None => None,
            Some((args, end)) => {
                proof {
                    spec_parse_args_bounds(s, a, spec_arity(prev) as nat);
                }
                match spec_decode_from(s, pstep(s, i, end), prev) {
                    None => None,
                    Some(rest) => Some(seq![PathCmdView { cmd: prev, args }] + rest),
                }
            },
        }
    } else {
        None
    }
}

/// The decoded command list of a path-data string: every command letter with
/// its full operand list, implicit repetitions written out. `None` when the
/// text does not follow the grammar.
pub open spec fn spec_decode(s: Seq<char>) -> Option<Seq<PathCmdView>> {
    spec_decode_from(s, 0, ' ')
}

fn exec_parse_args(v: &Vec<char>, i: usize, k: usize) -> (r: Option<(Vec<Dec>, usize)>)
    requires
        i <= v@.len(),
    ensures
        match r {
            Some((args, end)) => spec_parse_args(v@, i as int, k as nat) == Some((
                args@,
                end as int,
            )) && i <= end <= v@.len() && args@.len() == k && (k > 0 ==> i < end),
            None => spec_parse_args(v@, i as int, k as nat) is None,
        },
    decreases k,
{
    if k == 0 {
        Some((Vec::new(), i))
    } else {
        let a = exec_skip_pseps2(v, i);
        let e = exec_num_token_end(v, a);
        if e == a {
            return None;
        }
        let tok = range_to_vec(v, a, e);
        match parse_dec(&tok) {
            None => None,
            Some(d) => match exec_parse_args(v, e, k - 1) {
                None => None,
                Some((rest, end)) => {
                    let mut args = rest;
                    let ghost old_args = args@;
                    args.insert(0, d);
                    proof {
                        assert(args@ =~= seq![d] + old_args);
                    }
                    Some((args, end))
                },
            },
        }
    }
}

fn exec_decode_from(v: &Vec<char>, i: usize, prev: char) -> (r: Option<Vec<PathCmd>>)
    requires
        i <= v@.len(),
    ensures
        match r {
            Some(cmds) => spec_decode_from(v@, i as int, prev) == Some(cmds_view(cmds@)),
            None => spec_decode_from(v@, i as int, prev) is None,
        },
    decreases v@.len() - i,
{
    let a = exec_skip_pseps2(v, i);
    if a >= v.len() {
        let r: Vec<PathCmd> = Vec::new();
        proof {
            assert(cmds_view(r@) =~= Seq::<PathCmdView>::empty());
        }
        return Some(r);
    }
    let c = v[a];
    let ar = arity(c);
    if ar >= 0 {
        match exec_parse_args(v, a + 1, ar as usize) {
            None => None,
            Some((args, end)) => {
                proof {
                    assert(pstep(v@, i as int, end as int) == end as int);
                }
                match exec_decode_from(v, end, c) {
                    None => None,
                    Some(rest) => {
                        let mut cmds = rest;
                        let ghost old_cmds = cmds@;
                        cmds.insert(0, PathCmd { cmd: c, args });
                        proof {
                            assert(cmds_view(cmds@) =~= seq![cmd_view(cmds@[0])] + cmds_view(
                                old_cmds,
                            ));
                        }
                        Some(cmds)
                    },
                }
            },
        }
    } else {
        let par = arity(prev);
        if par >= 1 {
            match exec_parse_args(v, a, par as usize) {
                None => None,
                Some((args, end)) => {
                    proof {
                        assert(pstep(v@, i as int, end as int) == end as int);
                    }
                    match exec_decode_from(v, end, prev) {
                        None => None,
                        Some(rest) => {
                            let mut cmds = rest;
                            let ghost old_cmds = cmds@;
                            cmds.insert(0, PathCmd { cmd: prev, args });
                            proof {
                                assert(cmds_view(cmds@) =~= seq![cmd_view(cmds@[0])] + cmds_view(
                                    old_cmds,
                                ));
                            }
                            Some(cmds)
                        },
                    }
                },
            }
        } else {
            None
        }
    }
}

/// Decode a path-data string into its command records, or `None` when it
/// does not follow the grammar.
pub fn decode(value: &str) -> (r: Option<Vec<PathCmd>>)
    ensures
        match r {
            Some(cmds) => spec_decode(value@) == Some(cmds_view(cmds@)),
            None => spec_decode(value@) is None,
        },
{
    let v = to_char_vec(value);
    exec_decode_from(&v, 0, ' ')
}

// ----- encoding -----

/// Encoding options: the decimal precision and whether a fraction's leading
/// zero is dropped.
pub struct PathOptions {
    pub precision: usize,
    pub leading_zero: bool,
}

/// One operand as printed: rounded at the precision, normalized, shortest.
pub open spec fn spec_fmt_arg(d: Dec, prec: nat, strip: bool) -> Seq<char> {
    spec_fmt_dec(spec_dec_norm(spec_dec_round(d, prec)), strip)
}

/// The separator needed before a printed number: none right after a command
/// letter; none before a leading minus sign; none before a leading point
/// when the previous number already contained one; a space otherwise.
pub open spec fn spec_sep_before(num: Seq<char>, after_letter: bool, prev_dot: bool) -> Seq<
    char,
> {
    if after_letter {
        Seq::empty()
    } else if num.len() > 0 && num[0] == '-' {
        Seq::empty()
    } else if num.len() > 0 && num[0] == '.' && prev_dot {
        Seq::empty()
    } else {
        seq![' ']
    }
}

pub open spec fn seq_contains_dot(s: Seq<char>) -> bool {
    exists|i: int| 0 <= i < s.len() && s[i] == '.'
}

/// The printed operand list of one command: the text, and whether the last
/// number printed contained a decimal point.
pub open spec fn spec_encode_args(
    args: Seq<Dec>,
    prec: nat,
    strip: bool,
    after_letter: bool,
    prev_dot: bool,
) -> (Seq<char>, bool)
    decreases args.len(),
{
    if args.len() == 0 {
        (Seq::empty(), prev_dot)
    } else {
        let num = spec_fmt_arg(args[0], prec, strip);
        let head = spec_sep_before(num, after_letter, prev_dot) + num;
        let rest = spec_encode_args(
            args.subrange(1, args.len() as int),
            prec,
            strip,
            false,
            seq_contains_dot(num),
        );
        (head + rest.0, rest.1)
    }
}

/// The printed command list: each command's letter (omitted when it repeats
/// the previous letter and operands follow to stand for it) and its
/// operands.
pub open spec fn spec_encode_from(
    cmds: Seq<PathCmdView>,
    prec: nat,
    strip: bool,
    prev: char,
    prev_dot: bool,
) -> Seq<char>
    decreases cmds.len(),
{
    if cmds.len() == 0 {
        Seq::empty()
    } else {
        let c = cmds[0];
        let omit = c.cmd == prev && c.args.len() > 0;
        let letter: Seq<char> = if omit {
            Seq::empty()
        } else {
            seq![c.cmd]
        };
        let args = spec_encode_args(c.args, prec, strip, !omit, prev_dot);
        letter + args.0 + spec_encode_from(
            cmds.subrange(1, cmds.len() as int),
            prec,
            strip,
            c.cmd,
            args.1,
        )
    }
}

/// The shortest unambiguous text of a command list at the given precision.
/// An empty list encodes to the empty string.
pub open spec fn spec_encode(cmds: Seq<PathCmdView>, opts_prec: nat, opts_strip: bool) -> Seq<
    char,
> {
    spec_encode_from(cmds, opts_prec, opts_strip, ' ', false)
}

fn str_contains_dot(s: &String) -> (r: bool)
    ensures
        r == seq_contains_dot(s@),
{
    let st = s.as_str();
    let n = st.unicode_len();
    let mut i: usize = 0;
    while i < n
        invariant
            0 <= i <= n,
            n == s@.len(),
            st@ == s@,
            forall|j: int| 0 <= j < i ==> s@[j] != '.',
        decreases n - i,
    {
        if st.get_char(i) == '.' {
            return true;
        }
        i += 1;
    }
    false
}

/// Every operand of the command is a well-formed decimal.
pub open spec fn dec_wf_args(c: PathCmdView) -> bool {
    forall|j: int| 0 <= j < c.args.len() ==> dec_wf(#[trigger] c.args[j])
}

/// Append one operand with its separator; the result says whether the
/// printed number contained a decimal point.
fn emit_arg(out: &mut String, d: Dec, opts: &PathOptions, first: bool, prev_dot: bool) -> (r:
    bool)
    requires
        dec_wf(d),
    ensures
        final (out)@ == old(out)@ + spec_sep_before(
            spec_fmt_arg(d, opts.precision as nat, opts.leading_zero),
            first,
            prev_dot,
        ) + spec_fmt_arg(d, opts.precision as nat, opts.leading_zero),
        r == seq_contains_dot(spec_fmt_arg(d, opts.precision as nat, opts.leading_zero)),
{
    let rounded = dec_round(d, opts.precision);
    let normed = dec_norm(rounded);
    let num = fmt_dec(normed, opts.leading_zero);
    let nv = to_char_vec(num.as_str());
    let need_space = if first {
        false
    } else if nv.len() > 0 && nv[0] == '-' {
        false
    } else if nv.len() > 0 && nv[0] == '.' && prev_dot {
        false
    } else {
        true
    };
    if need_space {
        out.push(' ');
    }
    out.append(num.as_str());
    proof {
        assert(num@ == spec_fmt_arg(d, opts.precision as nat, opts.leading_zero));
        assert(spec_sep_before(num@, first, prev_dot) =~= if need_space {
            seq![' ']
        } else {
            Seq::<char>::empty()
        });
        assert(out@ =~= old(out)@ + spec_sep_before(num@, first, prev_dot) + num@);
    }
    str_contains_dot(&num)
}

/// The printed form of the operands from position `k` on, with the
/// separator state threaded through.
fn encode_args_from(args: &Vec<Dec>, k: usize, opts: &PathOptions, first: bool, prev_dot: bool)
    -> (r: (String, bool))
    requires
        k <= args@.len(),
        forall|j: int| 0 <= j < args@.len() ==> dec_wf(#[trigger] args@[j]),
    ensures
        (r.0@, r.1) == spec_encode_args(
            args@.subrange(k as int, args@.len() as int),
            opts.precision as nat,
            opts.leading_zero,
            first,
            prev_dot,
        ),
    decreases args@.len() - k,
{
    let ghost prec = opts.precision as nat;
    let ghost strip = opts.leading_zero;
    let ghost atail = args@.subrange(k as int, args@.len() as int);
    if k == args.len() {
        proof {
            assert(atail =~= Seq::<Dec>::empty());
        }
        (String::new(), prev_dot)
    } else {
        proof {
            assert(atail[0] == args@[k as int]);
            assert(atail.subrange(1, atail.len() as int) =~= args@.subrange(
                k + 1,
                args@.len() as int,
            ));
        }
        let mut head = String::new();
        let newdot = emit_arg(&mut head, args[k], opts, first, prev_dot);
        let (rest, fd) = encode_args_from(args, k + 1, opts, false, newdot);
        let out = head.concat(rest.as_str());
        proof {
            let num = spec_fmt_arg(atail[0], prec, strip);
            assert(out@ =~= spec_sep_before(num, first, prev_dot) + num + rest@);
            assert((out@, fd) == spec_encode_args(atail, prec, strip, first, prev_dot));
        }
        (out, fd)
    }
}

/// The printed form of the commands from position `i` on.
fn encode_from(cmds: &Vec<PathCmd>, i: usize, opts: &PathOptions, prev: char, prev_dot: bool)
    -> (r: String)
    requires
        i <= cmds@.len(),
        forall|j: int| 0 <= j < cmds@.len() ==> dec_wf_args(#[trigger] cmds_view(cmds@)[j]),
    ensures
        r@ == spec_encode_from(
            cmds_view(cmds@).subrange(i as int, cmds@.len() as int),
            opts.precision as nat,
            opts.leading_zero,
            prev,
            prev_dot,
        ),
    decreases cmds@.len() - i,
{
    let ghost prec = opts.precision as nat;
    let ghost strip = opts.leading_zero;
    let ghost cv = cmds_view(cmds@);
    let ghost tail = cv.subrange(i as int, cv.len() as int);
    if i == cmds.len() {
        proof {
            assert(tail =~= Seq::<PathCmdView>::empty());
        }
        String::new()
    } else {
        proof {
            assert(cv.len() == cmds@.len());
            assert(tail[0] == cv[i as int]);
            assert(tail.subrange(1, tail.len() as int) =~= cv.subrange(i + 1, cv.len() as int));
            assert(dec_wf_args(cv[i as int]));
        }
        let cmd = &cmds[i];
        let mut out = String::new();
        let after_letter = !(cmd.cmd == prev && cmd.args.len() > 0);
        if after_letter {
            out.push(cmd.cmd);
        }
        proof {
            assert(cmd_view(cmds@[i as int]).args == cmd.args@);
            assert(forall|j: int|
                0 <= j < cmd.args@.len() ==> dec_wf(#[trigger] cmd.args@[j]));
        }
        let (argstr, fd) = encode_args_from(&cmd.args, 0, opts, after_letter, prev_dot);
        out.append(argstr.as_str());
        let rest = encode_from(cmds, i + 1, opts, cmd.cmd, fd);
        out.append(rest.as_str());
        proof {
            assert(cmd.args@.subrange(0, cmd.args@.len() as int) =~= cmd.args@);
            let letter: Seq<char> = if after_letter {
                seq![cv[i as int].cmd]
            } else {
                Seq::<char>::empty()
            };
            assert(out@ =~= letter + argstr@ + rest@);
            assert(out@ =~= spec_encode_from(tail, prec, strip, prev, prev_dot));
        }
        out
    }
}

/// Encode a command list at the given precision. An empty list encodes to
/// the empty string.
pub fn encode(seq_cmds: &Vec<PathCmd>, opts: &PathOptions) -> (r: String)
    requires
        forall|i: int|
            0 <= i < seq_cmds@.len() ==> dec_wf_args(#[trigger] cmds_view(seq_cmds@)[i]),
    ensures
        r@ == spec_encode(cmds_view(seq_cmds@), opts.precision as nat, opts.leading_zero),
{
    let r = encode_from(seq_cmds, 0, opts, ' ', false);
    proof {
        assert(cmds_view(seq_cmds@).subrange(0, seq_cmds@.len() as int) =~= cmds_view(
            seq_cmds@,
        ));
    }
    r
}


/// An operand printed into path text reads back as exactly itself: at its
/// position the tokenizer stops precisely at its end, and the token parses
/// to the printed value. The position after it must not hold a digit, nor a
/// point unless the operand itself contains one - which is what the
/// serializer's separator rules guarantee for every following operand or
/// letter.
#[verifier::rlimit(100)]
pub proof fn lemma_encoded_operand_roundtrip(s: Seq<char>, a: int, d: Dec, strip: bool)
    requires
        dec_wf(d),
        spec_dec_norm(d) == d,
        0 <= a,
        a + spec_fmt_dec(d, strip).len() <= s.len(),
        s.subrange(a, a + spec_fmt_dec(d, strip).len() as int) == spec_fmt_dec(d, strip),
        a + spec_fmt_dec(d, strip).len() < s.len() ==> !crate::text::is_digit_char(
            s[a + spec_fmt_dec(d, strip).len()],
        ) && (d.scale > 0 || s[a + spec_fmt_dec(d, strip).len()] != '.'),
    ensures
        num_token_end(s, a) == a + spec_fmt_dec(d, strip).len(),
        spec_parse_dec(s.subrange(a, a + spec_fmt_dec(d, strip).len() as int)) == Some(d),
{
    let f = spec_fmt_dec(d, strip);
    let fl = f.len() as int;
    crate::num::lemma_fmt_parse_roundtrip(d, strip);
    crate::num::lemma_fmt_chars(d, strip);
    let ds = crate::num::dec_digits(d.mant as int);
    crate::num::lemma_dec_digits(d.mant as int);
    let sign: Seq<char> = if d.neg {
        seq!['-']
    } else {
        Seq::empty()
    };
    assert forall|k: int| 0 <= k < fl implies s[a + k] == f[k] by {
        assert(s.subrange(a, a + fl)[k] == f[k]);
    }
    assert(!crate::text::is_digit_char('-') && !crate::text::is_digit_char('.'));
    if d.neg {
        assert(d.mant > 0) by {
            if d.mant == 0 {
                assert(spec_dec_norm(d) == crate::num::dec_zero());
            }
        }
    }
    let p0: int = if d.neg {
        a + 1
    } else {
        a
    };
    if d.scale == 0 {
        assert(f =~= sign + ds);
        if d.neg {
            assert(s[a] == '-');
        } else {
            assert(f[0] == ds[0]);
            assert(crate::text::is_digit_char(s[a]));
            assert(s[a] != '+' && s[a] != '-');
        }
        assert forall|k: int| p0 <= k < a + fl implies crate::text::is_digit_char(
            #[trigger] s[k],
        ) by {
            assert(s[k] == f[k - a]);
            assert(f[k - a] == ds[k - p0]);
        }
        crate::num::lemma_scan_digit_run(s, p0, a + fl);
        assert(num_token_end(s, a) == a + fl);
    } else if ds.len() > d.scale {
        let cut = ds.len() - d.scale;
        assert(f =~= sign + ds.subrange(0, cut as int) + seq!['.'] + ds.subrange(
            cut as int,
            ds.len() as int,
        ));
        let q = a + sign.len() + cut;
        assert(s[q] == f[q - a]);
        assert(f[q - a] == '.');
        if d.neg {
            assert(s[a] == '-');
        } else {
            assert(f[0] == ds[0]);
            assert(crate::text::is_digit_char(s[a]));
            assert(s[a] != '+' && s[a] != '-');
        }
        assert forall|k: int| p0 <= k < q implies crate::text::is_digit_char(
            #[trigger] s[k],
        ) by {
            assert(s[k] == f[k - a]);
            assert(f[k - a] == ds[k - p0]);
        }
        crate::num::lemma_scan_digit_run(s, p0, q);
        assert forall|k: int| q + 1 <= k < a + fl implies crate::text::is_digit_char(
            #[trigger] s[k],
        ) by {
            assert(s[k] == f[k - a]);
            assert(f[k - a] == ds[cut + k - q - 1]);
        }
        crate::num::lemma_scan_digit_run(s, q + 1, a + fl);
        assert(num_token_end(s, a) == a + fl);
    } else {
        let head: Seq<char> = if strip {
            Seq::empty()
        } else {
            seq!['0']
        };
        let nz = (d.scale - ds.len()) as nat;
        crate::num::lemma_zeros_chars(nz);
        assert(f =~= sign + head + seq!['.'] + crate::num::zeros(nz) + ds);
        let q = a + sign.len() + head.len();
        assert(s[q] == f[q - a]);
        assert(f[q - a] == '.');
        if d.neg {
            assert(s[a] == '-');
        } else {
            if strip {
                assert(s[a] == '.');
            } else {
                assert(s[a] == '0');
            }
            assert(s[a] != '+' && s[a] != '-');
        }
        assert forall|k: int| p0 <= k < q implies crate::text::is_digit_char(
            #[trigger] s[k],
        ) by {
            assert(s[k] == f[k - a]);
            assert(f[k - a] == '0');
        }
        crate::num::lemma_scan_digit_run(s, p0, q);
        assert forall|k: int| q + 1 <= k < a + fl implies crate::text::is_digit_char(
            #[trigger] s[k],
        ) by {
            assert(s[k] == f[k - a]);
            if k - q - 1 < nz {
                assert(f[k - a] == crate::num::zeros(nz)[k - q - 1]);
            } else {
                assert(f[k - a] == ds[k - q - 1 - nz]);
            }
        }
        crate::num::lemma_scan_digit_run(s, q + 1, a + fl);
        assert(num_token_end(s, a) == a + fl);
    }
}


/// A formatted decimal contains a point exactly when its scale is positive.
pub proof fn lemma_fmt_dot(d: Dec, strip: bool)
    requires
        spec_dec_norm(d) == d,
    ensures
        seq_contains_dot(spec_fmt_dec(d, strip)) == (d.scale > 0),
{
    let f = spec_fmt_dec(d, strip);
    let ds = crate::num::dec_digits(d.mant as int);
    crate::num::lemma_dec_digits(d.mant as int);
    let sign: Seq<char> = if d.neg {
        seq!['-']
    } else {
        Seq::empty()
    };
    if d.scale == 0 {
        assert(f =~= sign + ds);
        assert(!seq_contains_dot(f)) by {
            if seq_contains_dot(f) {
                let i = choose|i: int| 0 <= i < f.len() && f[i] == '.';
                if i < sign.len() {
                    assert(f[i] == '-');
                } else {
                    assert(f[i] == ds[i - sign.len()]);
                    assert(crate::text::is_digit_char(f[i]));
                }
            }
        }
    } else if ds.len() > d.scale {
        let cut = ds.len() - d.scale;
        assert(f =~= sign + ds.subrange(0, cut as int) + seq!['.'] + ds.subrange(
            cut as int,
            ds.len() as int,
        ));
        let q = sign.len() + cut;
        assert(f[q as int] == '.');
        assert(seq_contains_dot(f));
    } else {
        let head: Seq<char> = if strip {
            Seq::empty()
        } else {
            seq!['0']
        };
        let nz = (d.scale - ds.len()) as nat;
        assert(f =~= sign + head + seq!['.'] + crate::num::zeros(nz) + ds);
        let q = sign.len() + head.len();
        assert(f[q as int] == '.');
        assert(seq_contains_dot(f));
    }
}

/// The rounded, normalized operands of a command.
pub open spec fn spec_round_args(args: Seq<Dec>, prec: nat) -> Seq<Dec> {
    Seq::new(args.len(), |j: int| spec_dec_norm(spec_dec_round(args[j], prec)))
}

/// Inside a printed list the first separator and operand lie exactly where
/// the serializer put them.
#[verifier::rlimit(100)]
proof fn lemma_step_layout(
    s: Seq<char>,
    pos: int,
    args: Seq<Dec>,
    prec: nat,
    strip: bool,
    after_letter: bool,
    prev_dot: bool,
)
    requires
        forall|j: int| 0 <= j < args.len() ==> dec_wf(#[trigger] args[j]),
        args.len() > 0,
        0 <= pos,
        pos + spec_encode_args(args, prec, strip, after_letter, prev_dot).0.len() <= s.len(),
        forall|k: int|
            0 <= k < spec_encode_args(args, prec, strip, after_letter, prev_dot).0.len() ==> s[pos
                + k] == #[trigger] spec_encode_args(args, prec, strip, after_letter, prev_dot).0[k],
    ensures
        ({
            let num = spec_fmt_arg(args[0], prec, strip);
            let sep = spec_sep_before(num, after_letter, prev_dot);
            let a = pos + sep.len();
            let e = a + num.len();
            let rest = spec_encode_args(
                args.subrange(1, args.len() as int),
                prec,
                strip,
                false,
                seq_contains_dot(num),
            );
            skip_pseps(s, pos) == a && s.subrange(a, e) == num && s.subrange(
                e,
                e + rest.0.len() as int,
            ) == rest.0
        }),
{
    let enc = spec_encode_args(args, prec, strip, after_letter, prev_dot);
    let d0 = spec_dec_norm(spec_dec_round(args[0], prec));
    crate::num::lemma_round_small(args[0], prec);
    crate::num::lemma_norm_props(spec_dec_round(args[0], prec));
    let num = spec_fmt_arg(args[0], prec, strip);
    crate::num::lemma_fmt_chars(d0, strip);
    first_fmt_char(d0, strip);
    let sep = spec_sep_before(num, after_letter, prev_dot);
    let atail = args.subrange(1, args.len() as int);
    let rest = spec_encode_args(atail, prec, strip, false, seq_contains_dot(num));
    assert(enc.0 == sep + num + rest.0);
    let a = pos + sep.len();
    let e = a + num.len();
    assert(!is_psep(num[0])) by {
        assert(num[0] == '-' || num[0] == '.' || crate::text::is_digit_char(num[0]));
    }
    assert(skip_pseps(s, pos) == a) by {
        if sep.len() > 0 {
            assert(sep == seq![' ']);
            assert(s[pos + 0] == enc.0[0] && enc.0[0] == ' ');
            assert(s[pos + 1] == enc.0[1] && enc.0[1] == num[0]);
            assert(is_psep(s[pos]));
            assert(skip_pseps(s, pos) == skip_pseps(s, pos + 1));
        } else {
            assert(s[pos + 0] == enc.0[0] && enc.0[0] == num[0]);
        }
    }
    assert(s.subrange(a, e) == num) by {
        assert forall|k: int| 0 <= k < num.len() implies s.subrange(a, e)[k] == num[k] by {
            assert(s[pos + (sep.len() + k)] == enc.0[sep.len() + k]);
            assert(enc.0[sep.len() + k] == num[k]);
        }
        assert(s.subrange(a, e) =~= num);
    }
    assert(s.subrange(e, e + rest.0.len() as int) == rest.0) by {
        assert forall|k: int| 0 <= k < rest.0.len() implies s.subrange(
            e,
            e + rest.0.len() as int,
        )[k] == rest.0[k] by {
            assert(s[pos + (sep.len() + num.len() + k)] == enc.0[sep.len() + num.len() + k]);
            assert(enc.0[sep.len() + num.len() + k] == rest.0[k]);
        }
        assert(s.subrange(e, e + rest.0.len() as int) =~= rest.0);
    }
}

/// The character after one printed operand, inside a printed list, is a
/// separator, a sign, or a point after a pointed number.
#[verifier::rlimit(100)]
proof fn lemma_step_boundary(
    s: Seq<char>,
    pos: int,
    args: Seq<Dec>,
    prec: nat,
    strip: bool,
    after_letter: bool,
    prev_dot: bool,
)
    requires
        forall|j: int| 0 <= j < args.len() ==> dec_wf(#[trigger] args[j]),
        args.len() > 0,
        0 <= pos,
        pos + spec_encode_args(args, prec, strip, after_letter, prev_dot).0.len() <= s.len(),
        forall|k: int|
            0 <= k < spec_encode_args(args, prec, strip, after_letter, prev_dot).0.len() ==> s[pos
                + k] == #[trigger] spec_encode_args(args, prec, strip, after_letter, prev_dot).0[k],
        pos + spec_encode_args(args, prec, strip, after_letter, prev_dot).0.len() < s.len()
            ==> !crate::text::is_digit_char(
            s[pos + spec_encode_args(args, prec, strip, after_letter, prev_dot).0.len()],
        ) && (spec_encode_args(args, prec, strip, after_letter, prev_dot).1 || s[pos
            + spec_encode_args(args, prec, strip, after_letter, prev_dot).0.len()] != '.'),
    ensures
        ({
            let d0 = spec_dec_norm(spec_dec_round(args[0], prec));
            let num = spec_fmt_arg(args[0], prec, strip);
            let sep = spec_sep_before(num, after_letter, prev_dot);
            let e = pos + sep.len() + num.len();
            e < s.len() ==> !crate::text::is_digit_char(s[e]) && (d0.scale > 0 || s[e] != '.')
        }),
{
    let enc = spec_encode_args(args, prec, strip, after_letter, prev_dot);
    let d0 = spec_dec_norm(spec_dec_round(args[0], prec));
    crate::num::lemma_round_small(args[0], prec);
    crate::num::lemma_norm_props(spec_dec_round(args[0], prec));
    let num = spec_fmt_arg(args[0], prec, strip);
    crate::num::lemma_fmt_chars(d0, strip);
    lemma_fmt_dot(d0, strip);
    let sep = spec_sep_before(num, after_letter, prev_dot);
    let atail = args.subrange(1, args.len() as int);
    let rest = spec_encode_args(atail, prec, strip, false, seq_contains_dot(num));
    assert(enc.0 == sep + num + rest.0 && enc.1 == rest.1);
    let e = pos + sep.len() + num.len();
    if atail.len() > 0 {
        let num1 = spec_fmt_arg(atail[0], prec, strip);
        let d1 = spec_dec_norm(spec_dec_round(atail[0], prec));
        assert(atail[0] == args[1]);
        crate::num::lemma_round_small(args[1], prec);
        crate::num::lemma_norm_props(spec_dec_round(args[1], prec));
        crate::num::lemma_fmt_chars(d1, strip);
        let sep1 = spec_sep_before(num1, false, seq_contains_dot(num));
        assert(rest.0 == sep1 + num1 + spec_encode_args(
            atail.subrange(1, atail.len() as int),
            prec,
            strip,
            false,
            seq_contains_dot(num1),
        ).0);
        assert(e < s.len());
        assert(enc.0[(sep.len() + num.len()) as int] == rest.0[0]);
        assert(s[pos + (sep.len() + num.len())] == enc.0[(sep.len() + num.len()) as int]);
        assert(s[e] == rest.0[0]);
        if sep1.len() > 0 {
            assert(sep1 == seq![' ']);
            assert(rest.0[0] == ' ');
        } else {
            assert(rest.0[0] == num1[0]);
            // the empty separator means a sign, or a point after a pointed
            // number
            assert((num1.len() > 0 && num1[0] == '-') || (num1.len() > 0 && num1[0] == '.'
                && seq_contains_dot(num)));
        }
    } else {
        assert(e == pos + enc.0.len());
        if e < s.len() {
            assert(enc.1 == seq_contains_dot(num));
            if s[e] == '.' {
                assert(d0.scale > 0);
            }
        }
    }
}

/// A printed operand list reads back as exactly the rounded operands: the
/// argument parser consumes precisely the printed text and returns, one for
/// one, the values the serializer rounded to. The position after the list
/// must not hold a digit, nor a point unless the list's final dot state
/// allows one - which holds wherever the serializer writes next.
#[verifier::rlimit(100)]
pub proof fn lemma_encoded_args_roundtrip(
    s: Seq<char>,
    pos: int,
    args: Seq<Dec>,
    prec: nat,
    strip: bool,
    after_letter: bool,
    prev_dot: bool,
)
    requires
        forall|j: int| 0 <= j < args.len() ==> dec_wf(#[trigger] args[j]),
        0 <= pos,
        pos + spec_encode_args(args, prec, strip, after_letter, prev_dot).0.len() <= s.len(),
        s.subrange(
            pos,
            pos + spec_encode_args(args, prec, strip, after_letter, prev_dot).0.len() as int,
        ) == spec_encode_args(args, prec, strip, after_letter, prev_dot).0,
        pos + spec_encode_args(args, prec, strip, after_letter, prev_dot).0.len() < s.len()
            ==> !crate::text::is_digit_char(
            s[pos + spec_encode_args(args, prec, strip, after_letter, prev_dot).0.len()],
        ) && (spec_encode_args(args, prec, strip, after_letter, prev_dot).1 || s[pos
            + spec_encode_args(args, prec, strip, after_letter, prev_dot).0.len()] != '.'),
    ensures
        spec_parse_args(s, pos, args.len() as nat) == Some(
            (spec_round_args(args, prec), pos + spec_encode_args(
                args,
                prec,
                strip,
                after_letter,
                prev_dot,
            ).0.len()),
        ),
    decreases args.len(),
{
    let enc = spec_encode_args(args, prec, strip, after_letter, prev_dot);
    if args.len() == 0 {
        assert(spec_round_args(args, prec) =~= Seq::<Dec>::empty());
        assert(spec_parse_args(s, pos, 0) == Some((Seq::<Dec>::empty(), pos)));
    } else {
        let d0 = spec_dec_norm(spec_dec_round(args[0], prec));
        crate::num::lemma_round_small(args[0], prec);
        crate::num::lemma_norm_props(spec_dec_round(args[0], prec));
        let num = spec_fmt_arg(args[0], prec, strip);
        crate::num::lemma_fmt_chars(d0, strip);
        let sep = spec_sep_before(num, after_letter, prev_dot);
        let atail = args.subrange(1, args.len() as int);
        let rest = spec_encode_args(atail, prec, strip, false, seq_contains_dot(num));
        assert(enc.0 == sep + num + rest.0 && enc.1 == rest.1);
        let a = pos + sep.len();
        let e = a + num.len();
        assert(forall|k: int| 0 <= k < enc.0.len() ==> s[pos + k] == #[trigger] enc.0[k]) by {
            assert forall|k: int| 0 <= k < enc.0.len() implies s[pos + k] == #[trigger] enc.0[k] by {
                assert(s.subrange(pos, pos + enc.0.len() as int)[k] == enc.0[k]);
            }
        }
        lemma_step_layout(s, pos, args, prec, strip, after_letter, prev_dot);
        lemma_step_boundary(s, pos, args, prec, strip, after_letter, prev_dot);
        lemma_encoded_operand_roundtrip(s, a, d0, strip);
        assert(num_token_end(s, a) == e);
        assert(spec_parse_dec(s.subrange(a, e)) == Some(d0));
        lemma_encoded_args_roundtrip(s, e, atail, prec, strip, false, seq_contains_dot(num));
        assert(spec_round_args(args, prec) =~= seq![d0] + spec_round_args(atail, prec));
        assert(spec_parse_args(s, pos, args.len() as nat) == Some(
            (spec_round_args(args, prec), pos + enc.0.len()),
        ));
    }
}


/// The first character of a formatted decimal: a sign, a zero, a point, or
/// a digit.
proof fn first_fmt_char(d: Dec, strip: bool)
    requires
        spec_dec_norm(d) == d,
    ensures
        spec_fmt_dec(d, strip).len() > 0,
        spec_fmt_dec(d, strip)[0] == '-' || spec_fmt_dec(d, strip)[0] == '.'
            || crate::text::is_digit_char(spec_fmt_dec(d, strip)[0]),
{
    let f = spec_fmt_dec(d, strip);
    crate::num::lemma_fmt_chars(d, strip);
    let ds = crate::num::dec_digits(d.mant as int);
    crate::num::lemma_dec_digits(d.mant as int);
    let sign: Seq<char> = if d.neg {
        seq!['-']
    } else {
        Seq::empty()
    };
    if d.scale == 0 {
        assert(f =~= sign + ds);
        if !d.neg {
            assert(f[0] == ds[0]);
        }
    } else if ds.len() > d.scale {
        let cut = ds.len() - d.scale;
        assert(f =~= sign + ds.subrange(0, cut as int) + seq!['.'] + ds.subrange(
            cut as int,
            ds.len() as int,
        ));
        if !d.neg {
            assert(f[0] == ds[0]);
        }
    } else {
        let head: Seq<char> = if strip {
            Seq::empty()
        } else {
            seq!['0']
        };
        let nz = (d.scale - ds.len()) as nat;
        assert(f =~= sign + head + seq!['.'] + crate::num::zeros(nz) + ds);
        if !d.neg {
            if strip {
                assert(f[0] == '.');
            } else {
                assert(f[0] == '0');
            }
        }
    }
}


/// A command letter is not a separator, a digit, a sign or a point.
proof fn lemma_cmd_char_class(c: char)
    requires
        is_cmd_char(c),
    ensures
        !is_psep(c),
        !crate::text::is_digit_char(c),
        c != '.',
        c != '+',
        c != '-',
{
}

/// A sign, a point or a digit is not a command letter.
proof fn lemma_num_char_not_cmd(c: char)
    requires
        c == '-' || c == '.' || crate::text::is_digit_char(c),
    ensures
        !is_cmd_char(c),
{
}

/// The rounded command list: each letter kept, each operand rounded.
pub open spec fn spec_round_cmds(cmds: Seq<PathCmdView>, prec: nat) -> Seq<PathCmdView> {
    Seq::new(
        cmds.len(),
        |i: int| PathCmdView { cmd: cmds[i].cmd, args: spec_round_args(cmds[i].args, prec) },
    )
}

/// Where printed commands continue, the next character is a letter, a
/// separator, a sign, or a point allowed by the dot state.
#[verifier::rlimit(100)]
proof fn lemma_cmds_first_char(
    s: Seq<char>,
    e: int,
    cmds: Seq<PathCmdView>,
    prec: nat,
    strip: bool,
    prevc: char,
    prev_dot: bool,
)
    requires
        forall|j: int|
            0 <= j < cmds.len() ==> dec_wf_args(#[trigger] cmds[j]) && spec_arity(cmds[j].cmd)
                == cmds[j].args.len(),
        0 <= e <= s.len(),
        s.subrange(e, s.len() as int) == spec_encode_from(cmds, prec, strip, prevc, prev_dot),
    ensures
        e == s.len() || (!crate::text::is_digit_char(s[e]) && (prev_dot || s[e] != '.')),
    decreases cmds.len(),
{
    let ef = spec_encode_from(cmds, prec, strip, prevc, prev_dot);
    if cmds.len() == 0 {
        assert(ef.len() == 0);
    } else if e < s.len() {
        let c0 = cmds[0];
        let omit = c0.cmd == prevc && c0.args.len() > 0;
        let argenc = spec_encode_args(c0.args, prec, strip, !omit, prev_dot);
        assert(s[e] == ef[0]) by {
            assert(s.subrange(e, s.len() as int)[0] == ef[0]);
        }
        if !omit {
            assert(ef[0] == c0.cmd);
            lemma_cmd_char_class(c0.cmd);
        } else {
            let d0 = spec_dec_norm(spec_dec_round(c0.args[0], prec));
            crate::num::lemma_round_small(c0.args[0], prec);
            crate::num::lemma_norm_props(spec_dec_round(c0.args[0], prec));
            let num0 = spec_fmt_arg(c0.args[0], prec, strip);
            crate::num::lemma_fmt_chars(d0, strip);
            first_fmt_char(d0, strip);
            let sep0 = spec_sep_before(num0, false, prev_dot);
            let atail = c0.args.subrange(1, c0.args.len() as int);
            let restargs = spec_encode_args(atail, prec, strip, false, seq_contains_dot(num0));
            assert(argenc.0 == sep0 + num0 + restargs.0);
            assert(ef[0] == argenc.0[0]);
            if sep0.len() > 0 {
                assert(sep0 == seq![' ']);
                assert(argenc.0[0] == ' ');
            } else {
                assert(argenc.0[0] == num0[0]);
                assert((num0.len() > 0 && num0[0] == '-') || (num0.len() > 0 && num0[0] == '.'
                    && prev_dot));
            }
        }
    }
}

/// Decoding what the serializer printed recovers exactly the rounded
/// command list: every letter, written or implied by repetition, and every
/// operand. The letters must carry their own operand counts, as decoded
/// commands do.
#[verifier::rlimit(100)]
pub proof fn lemma_encoded_cmds_roundtrip(
    s: Seq<char>,
    pos: int,
    cmds: Seq<PathCmdView>,
    prec: nat,
    strip: bool,
    prevc: char,
    prev_dot: bool,
)
    requires
        forall|j: int|
            0 <= j < cmds.len() ==> dec_wf_args(#[trigger] cmds[j]) && spec_arity(cmds[j].cmd)
                == cmds[j].args.len(),
        0 <= pos <= s.len(),
        s.subrange(pos, s.len() as int) == spec_encode_from(cmds, prec, strip, prevc, prev_dot),
    ensures
        spec_decode_from(s, pos, prevc) == Some(spec_round_cmds(cmds, prec)),
    decreases cmds.len(),
{
    let ef = spec_encode_from(cmds, prec, strip, prevc, prev_dot);
    if cmds.len() == 0 {
        assert(ef.len() == 0);
        assert(pos == s.len());
        assert(skip_pseps(s, pos) == pos);
        assert(spec_round_cmds(cmds, prec) =~= Seq::<PathCmdView>::empty());
    } else {
        let c0 = cmds[0];
        assert(dec_wf_args(cmds[0]) && spec_arity(cmds[0].cmd) == cmds[0].args.len());
        let k = c0.args.len();
        let omit = c0.cmd == prevc && k > 0;
        let argenc = spec_encode_args(c0.args, prec, strip, !omit, prev_dot);
        let letter: Seq<char> = if omit {
            Seq::empty()
        } else {
            seq![c0.cmd]
        };
        let ctail = cmds.subrange(1, cmds.len() as int);
        let encrest = spec_encode_from(ctail, prec, strip, c0.cmd, argenc.1);
        assert(ef == letter + argenc.0 + encrest);
        assert(forall|j: int| 0 <= j < ef.len() ==> s[pos + j] == #[trigger] ef[j]) by {
            assert forall|j: int| 0 <= j < ef.len() implies s[pos + j] == #[trigger] ef[j] by {
                assert(s.subrange(pos, s.len() as int)[j] == ef[j]);
            }
        }
        let astart = pos + letter.len();
        let m = astart + argenc.0.len();
        assert(s.subrange(astart, astart + argenc.0.len() as int) == argenc.0) by {
            assert forall|j: int| 0 <= j < argenc.0.len() implies s.subrange(
                astart,
                astart + argenc.0.len() as int,
            )[j] == argenc.0[j] by {
                assert(s[pos + (letter.len() + j)] == ef[letter.len() + j]);
                assert(ef[letter.len() + j] == argenc.0[j]);
            }
            assert(s.subrange(astart, astart + argenc.0.len() as int) =~= argenc.0);
        }
        assert(s.subrange(m, s.len() as int) == encrest) by {
            assert forall|j: int| 0 <= j < encrest.len() implies s.subrange(
                m,
                s.len() as int,
            )[j] == encrest[j] by {
                assert(s[pos + (letter.len() + argenc.0.len() + j)] == ef[letter.len()
                    + argenc.0.len() + j]);
                assert(ef[letter.len() + argenc.0.len() + j] == encrest[j]);
            }
            assert(s.subrange(m, s.len() as int) =~= encrest);
        }
        lemma_cmds_first_char(s, m, ctail, prec, strip, c0.cmd, argenc.1);
        lemma_encoded_args_roundtrip(s, astart, c0.args, prec, strip, !omit, prev_dot);
        assert(spec_parse_args(s, astart, k as nat) == Some(
            (spec_round_args(c0.args, prec), m),
        ));
        let a = skip_pseps(s, pos);
        if !omit {
            assert(s[pos + 0] == ef[0] && ef[0] == c0.cmd);
            lemma_cmd_char_class(c0.cmd);
            assert(!is_psep(s[pos]));
            assert(a == pos);
            assert(is_cmd_char(s[a]));
            assert(astart == a + 1);
        } else {
            let d0 = spec_dec_norm(spec_dec_round(c0.args[0], prec));
            crate::num::lemma_round_small(c0.args[0], prec);
            crate::num::lemma_norm_props(spec_dec_round(c0.args[0], prec));
            let num0 = spec_fmt_arg(c0.args[0], prec, strip);
            crate::num::lemma_fmt_chars(d0, strip);
            first_fmt_char(d0, strip);
            let sep0 = spec_sep_before(num0, !omit, prev_dot);
            assert(forall|j: int|
                0 <= j < argenc.0.len() ==> s[pos + j] == #[trigger] argenc.0[j]) by {
                assert forall|j: int|
                    0 <= j < argenc.0.len() implies s[pos + j] == #[trigger] argenc.0[j] by {
                    assert(s[pos + j] == ef[j]);
                    assert(ef[j] == argenc.0[j]);
                }
            }
            lemma_step_layout(s, pos, c0.args, prec, strip, !omit, prev_dot);
            assert(a == pos + sep0.len());
            assert(s[a] == num0[0]) by {
                let atail0 = c0.args.subrange(1, c0.args.len() as int);
                let restargs = spec_encode_args(
                    atail0,
                    prec,
                    strip,
                    false,
                    seq_contains_dot(num0),
                );
                assert(argenc.0 == sep0 + num0 + restargs.0);
                assert(argenc.0[sep0.len() as int] == num0[0]);
                assert(s[pos + sep0.len()] == ef[sep0.len() as int]);
                assert(ef[sep0.len() as int] == argenc.0[sep0.len() as int]);
            }
            lemma_num_char_not_cmd(num0[0]);
            assert(!is_cmd_char(s[a]));
            assert(spec_arity(prevc) == k as int && k >= 1);
            assert(skip_pseps(s, a) == a) by {
                assert(!is_psep(num0[0]));
            }
            assert(spec_parse_args(s, a, k as nat) == spec_parse_args(s, pos, k as nat)) by {
                assert(skip_pseps(s, pos) == a);
            }
            assert(astart == pos);
            assert(spec_parse_args(s, a, k as nat) == Some(
                (spec_round_args(c0.args, prec), m),
            ));
        }
        assert(m > pos && m <= s.len());
        assert(pstep(s, pos, m) == m);
        lemma_encoded_cmds_roundtrip(s, m, ctail, prec, strip, c0.cmd, argenc.1);
        assert(spec_round_cmds(cmds, prec) =~= seq![
            PathCmdView { cmd: c0.cmd, args: spec_round_args(c0.args, prec) }
        ] + spec_round_cmds(ctail, prec));
        assert(spec_decode_from(s, pos, prevc) == Some(spec_round_cmds(cmds, prec)));
    }
}

/// Item P-style summary law: decoding what `encode` printed for a command
/// list yields exactly the commands with every operand rounded at the
/// configured precision.
pub proof fn lemma_decode_encode_roundtrip(
    cmds: Seq<PathCmdView>,
    prec: nat,
    strip: bool,
)
    requires
        forall|j: int|
            0 <= j < cmds.len() ==> dec_wf_args(#[trigger] cmds[j]) && spec_arity(cmds[j].cmd)
                == cmds[j].args.len(),
    ensures
        spec_decode(spec_encode(cmds, prec, strip)) == Some(spec_round_cmds(cmds, prec)),
{
    let s = spec_encode(cmds, prec, strip);
    assert(s.subrange(0, s.len() as int) =~= s);
    lemma_encoded_cmds_roundtrip(s, 0, cmds, prec, strip, ' ', false);
}

} // verus!
