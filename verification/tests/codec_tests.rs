use svgtidy::num::Dec;
use svgtidy::path_data::{decode, encode, PathOptions};
use svgtidy::transform::{parse_transform, compose, apply, encode_matrix, TransformOptions};

fn dec(neg: bool, mant: u128, scale: u32) -> Dec {
    Dec { neg, mant, scale }
}

#[test]
fn test_path_decode_basic() {
    let cmds = decode("M10 20h100v50h-100z").unwrap();
    let letters: Vec<char> = cmds.iter().map(|c| c.cmd).collect();
    assert_eq!(letters, vec!['M', 'h', 'v', 'h', 'z']);
    assert_eq!(cmds[0].args, vec![dec(false, 10, 0), dec(false, 20, 0)]);
    assert_eq!(cmds[3].args, vec![dec(true, 100, 0)]);
}

#[test]
fn test_path_decode_implicit_repetition() {
    let cmds = decode("L1 2 3 4 5 6").unwrap();
    assert_eq!(cmds.len(), 3);
    for c in &cmds {
        assert_eq!(c.cmd, 'L');
        assert_eq!(c.args.len(), 2);
    }
    assert_eq!(cmds[2].args, vec![dec(false, 5, 0), dec(false, 6, 0)]);
}

#[test]
fn test_path_decode_packed_numbers() {
    // a sign and a second decimal point both start a new number
    let cmds = decode("l.5.5-3-4").unwrap();
    assert_eq!(cmds.len(), 2);
    assert_eq!(cmds[0].args, vec![dec(false, 5, 1), dec(false, 5, 1)]);
    assert_eq!(cmds[1].args, vec![dec(true, 3, 0), dec(true, 4, 0)]);
}

#[test]
fn test_path_decode_rejects_garbage() {
    assert!(decode("hello world").is_none());
    assert!(decode("M10 x").is_none());
    assert!(decode("10 20").is_none());
}

#[test]
fn test_path_encode_shortest_form() {
    let cmds = decode("M 10 20 L 30 40 L 50 60 Z").unwrap();
    let opts = PathOptions { precision: 3, leading_zero: true };
    assert_eq!(encode(&cmds, &opts), "M10 20L30 40 50 60Z");
}

#[test]
fn test_path_encode_sign_and_dot_elision() {
    let cmds = decode("l 0.5 0.5 -3 -4").unwrap();
    let opts = PathOptions { precision: 3, leading_zero: true };
    assert_eq!(encode(&cmds, &opts), "l.5.5-3-4");
    let opts2 = PathOptions { precision: 3, leading_zero: false };
    assert_eq!(encode(&cmds, &opts2), "l0.5 0.5-3-4");
}

#[test]
fn test_path_encode_rounds() {
    let cmds = decode("M1.23456 7.891011").unwrap();
    let opts = PathOptions { precision: 2, leading_zero: true };
    assert_eq!(encode(&cmds, &opts), "M1.23 7.89");
}

#[test]
fn test_path_roundtrip_within_precision() {
    // decoding what was encoded recovers exactly the rounded operands
    let first = decode("M10.12345 20.5 l-0.4999 0.5001 h3.333 z").unwrap();
    let opts = PathOptions { precision: 3, leading_zero: true };
    let text = encode(&first, &opts);
    let reparsed = decode(&text).unwrap();
    assert_eq!(reparsed.len(), first.len());
    assert_eq!(reparsed[0].args, vec![dec(false, 10123, 3), dec(false, 205, 1)]);
    assert_eq!(reparsed[1].args, vec![dec(true, 5, 1), dec(false, 5, 1)]);
    assert_eq!(reparsed[2].args, vec![dec(false, 3333, 3)]);
    for (a, b) in first.iter().zip(reparsed.iter()) {
        assert_eq!(a.cmd, b.cmd);
    }
}

#[test]
fn test_path_repeated_close_keeps_letters() {
    let cmds = decode("M0 0Z Z").unwrap();
    assert_eq!(cmds.len(), 3);
    let opts = PathOptions { precision: 3, leading_zero: true };
    let text = encode(&cmds, &opts);
    assert_eq!(text, "M0 0ZZ");
    assert_eq!(decode(&text).unwrap().len(), 3);
}

#[test]
fn test_path_empty_encodes_empty() {
    let cmds = decode("").unwrap();
    assert_eq!(cmds.len(), 0);
    let opts = PathOptions { precision: 3, leading_zero: true };
    assert_eq!(encode(&cmds, &opts), "");
}

#[test]
fn test_transform_compose_translate_rotate() {
    // translate(10,0) rotate(90) maps (1,0) to (10,1)
    let cmds = parse_transform("translate(10,0) rotate(90)").unwrap();
    let m = compose(&cmds).unwrap();
    let (x, y) = apply(&m, dec(false, 1, 0), dec(false, 0, 0)).unwrap();
    assert_eq!(x, dec(false, 10, 0));
    assert_eq!(y, dec(false, 1, 0));
}

#[test]
fn test_transform_parse_rejects_unknown() {
    assert!(parse_transform("frobnicate(1)").is_none());
    assert!(parse_transform("translate(1,2,3)").is_none());
    assert!(parse_transform("rotate(45").is_none());
}

#[test]
fn test_transform_rotate_needs_exact_angle() {
    let cmds = parse_transform("rotate(45)").unwrap();
    assert!(compose(&cmds).is_none());
}

#[test]
fn test_transform_matrix_composition() {
    let cmds = parse_transform("matrix(2 0 0 2 5 5) scale(3)").unwrap();
    let m = compose(&cmds).unwrap();
    assert_eq!(m.a, dec(false, 6, 0));
    assert_eq!(m.d, dec(false, 6, 0));
    assert_eq!(m.e, dec(false, 5, 0));
    let (x, y) = apply(&m, dec(false, 1, 0), dec(false, 1, 0)).unwrap();
    assert_eq!(x, dec(false, 11, 0));
    assert_eq!(y, dec(false, 11, 0));
}

#[test]
fn test_transform_encode_prefers_short_forms() {
    let opts = TransformOptions { precision: 3, deg_precision: 3, leading_zero: true };
    let t = compose(&parse_transform("translate(10 20)").unwrap()).unwrap();
    assert_eq!(encode_matrix(&t, &opts), "translate(10 20)");
    let t1 = compose(&parse_transform("translate(10)").unwrap()).unwrap();
    assert_eq!(encode_matrix(&t1, &opts), "translate(10)");
    let s = compose(&parse_transform("scale(2)").unwrap()).unwrap();
    assert_eq!(encode_matrix(&s, &opts), "scale(2)");
    let r = compose(&parse_transform("rotate(90)").unwrap()).unwrap();
    assert_eq!(encode_matrix(&r, &opts), "rotate(90)");
    let g = compose(&parse_transform("matrix(1 2 3 4 5 6)").unwrap()).unwrap();
    assert_eq!(encode_matrix(&g, &opts), "matrix(1 2 3 4 5 6)");
}

#[test]
fn test_transform_rotate_about_center() {
    // rotate(180, 5, 5) maps (0,0) to (10,10)
    let cmds = parse_transform("rotate(180 5 5)").unwrap();
    let m = compose(&cmds).unwrap();
    let (x, y) = apply(&m, dec(false, 0, 0), dec(false, 0, 0)).unwrap();
    assert_eq!(x, dec(false, 10, 0));
    assert_eq!(y, dec(false, 10, 0));
}
