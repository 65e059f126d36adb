use svgtidy::optimize;
use svgtidy::parser;
use svgtidy::parser::ParseErrorKind;
use svgtidy::printer;
use svgtidy::plugins::convert_colors::{convert_color, to_hex};
use svgtidy::plugins::cleanup_numeric_values::{cleanup_number, CleanupNumericValues};
use svgtidy::plugins::Plugin;

#[test]
fn test_optimize_basic() {
    let input = "<svg><!-- c --><g><rect x=\"10\" y=\"20\" width=\"100\" height=\"50\"/></g></svg>";
    let out = optimize(input);
    assert_eq!(out, "<svg><path d=\"M10 20h100v50h-100z\"/></svg>");
    assert!(out.len() <= input.len());
}

#[test]
fn test_optimize_malformed_returns_input() {
    let input = "<svg><rect";
    assert_eq!(optimize(input), input);
}

#[test]
fn test_optimize_idempotent_examples() {
    let cases = [
        "<svg><!-- c --><g><rect x=\"1\" y=\"2\" width=\"3\" height=\"4\"/></g></svg>",
        "<svg width=\"10\" height=\"10\" viewBox=\"0 0 10 10\"><g><g><circle r=\"0\"/></g><rect/></g></svg>",
        "<svg fill=\"rgb(255, 0, 0)\" opacity=\"0.50\">  <script>x</script>text  </svg>",
    ];
    for input in cases {
        let once = optimize(input);
        let twice = optimize(&once);
        assert_eq!(once, twice);
    }
}

#[test]
fn test_optimize_size_non_increase_examples() {
    let cases = [
        "<svg><!-- big comment here --><rect width=\"100px\" height=\"50.5px\"/></svg>",
        "<svg opacity=\"0.123456\"></svg>",
        "<svg fill=\"rgb(255, 0, 0)\"/>",
    ];
    for input in cases {
        assert!(optimize(input).len() <= input.len());
    }
}

#[test]
fn test_parse_error_truncated() {
    let err = parser::parse("<svg><rect").unwrap_err();
    assert_eq!(err.kind, ParseErrorKind::UnterminatedTag);
    assert_eq!(err.offset, 5);
}

#[test]
fn test_parse_error_kinds() {
    assert_eq!(
        parser::parse("<svg><!-- oops</svg>").unwrap_err().kind,
        ParseErrorKind::UnterminatedComment
    );
    assert_eq!(
        parser::parse("<svg><![CDATA[x</svg>").unwrap_err().kind,
        ParseErrorKind::UnterminatedCdata
    );
    assert_eq!(
        parser::parse("<svg><?pi").unwrap_err().kind,
        ParseErrorKind::UnterminatedPi
    );
    assert_eq!(
        parser::parse("<svg a=\"1></svg>").unwrap_err().kind,
        ParseErrorKind::UnterminatedAttribute
    );
    let err = parser::parse("<svg></div>").unwrap_err();
    assert_eq!(err.kind, ParseErrorKind::MismatchedEndTag);
    assert_eq!(err.offset, 5);
}

#[test]
fn test_print_parse_roundtrip() {
    let cases = [
        "<svg viewBox=\"0 0 10 10\"><g fill=\"#f00\"><rect/>text</g></svg>",
        "<?xml version=\"1.0\"?><svg/>",
        "<!DOCTYPE svg><svg/>",
        "<svg><!-- note --><path d=\"M0 0\"/></svg>",
    ];
    for s in cases {
        let doc = parser::parse(s).unwrap();
        assert_eq!(printer::print(&doc), s);
    }
}

#[test]
fn test_entities_decode_and_reencode() {
    let doc = parser::parse("<svg title=\"a &lt; b &amp; c &#65;\">x &gt; y</svg>").unwrap();
    let out = printer::print(&doc);
    assert_eq!(out, "<svg title=\"a &lt; b &amp; c A\">x &gt; y</svg>");
}

#[test]
fn test_cdata_becomes_text() {
    let doc = parser::parse("<svg><![CDATA[1 < 2]]></svg>").unwrap();
    let out = printer::print(&doc);
    assert_eq!(out, "<svg>1 &lt; 2</svg>");
}

#[test]
fn test_quote_style_normalized() {
    let doc = parser::parse("<svg fill='red'/>").unwrap();
    assert_eq!(printer::print(&doc), "<svg fill=\"red\"/>");
}

#[test]
fn test_duplicate_attr_keeps_position_last_value() {
    let doc = parser::parse("<svg a=\"1\" b=\"2\" a=\"3\"/>").unwrap();
    assert_eq!(printer::print(&doc), "<svg a=\"3\" b=\"2\"/>");
}

#[test]
fn test_bom_stripped() {
    let doc = parser::parse("\u{feff}<svg/>").unwrap();
    assert_eq!(printer::print(&doc), "<svg/>");
}

#[test]
fn test_to_hex_values() {
    assert_eq!(to_hex(255, 0, 0), "#f00");
    assert_eq!(to_hex(255, 0, 255), "#f0f");
    assert_eq!(to_hex(102, 51, 153), "#639");
    assert_eq!(to_hex(1, 2, 3), "#010203");
}

#[test]
fn test_cleanup_number_values() {
    let opts = CleanupNumericValues { float_precision: 3, remove_px: true, leading_zero: true };
    assert_eq!(cleanup_number("0.123456", &opts), ".123");
    assert_eq!(cleanup_number("100px", &opts), "100");
    assert_eq!(cleanup_number("-0.5", &opts), "-.5");
    assert_eq!(cleanup_number("0.9999", &opts), "1");
    assert_eq!(cleanup_number("-0.0004", &opts), "0");
    assert_eq!(cleanup_number("10.0", &opts), "10");
    assert_eq!(cleanup_number("auto", &opts), "auto");
    assert_eq!(cleanup_number("0.0005", &opts), ".001");
    let keep = CleanupNumericValues { float_precision: 3, remove_px: false, leading_zero: false };
    assert_eq!(cleanup_number("100px", &keep), "100px");
    assert_eq!(cleanup_number("0.5", &keep), "0.5");
}

#[test]
fn test_rgb_without_spaces() {
    let mut doc = parser::parse("<svg fill=\"rgb(255,0,0)\"/>").unwrap();
    svgtidy::plugins::ConvertColors.apply(&mut doc);
    assert_eq!(printer::print(&doc), "<svg fill=\"#f00\"/>");
}

#[test]
fn test_rgb_out_of_range_kept() {
    let mut doc = parser::parse("<svg fill=\"rgb(300,0,0)\"/>").unwrap();
    svgtidy::plugins::ConvertColors.apply(&mut doc);
    assert_eq!(printer::print(&doc), "<svg fill=\"rgb(300,0,0)\"/>");
}

#[test]
fn test_ellipse_to_path() {
    let mut doc = parser::parse("<svg><ellipse cx=\"10\" cy=\"20\" rx=\"5\" ry=\"4\"/></svg>")
        .unwrap();
    svgtidy::plugins::ConvertShapeToPath.apply(&mut doc);
    assert_eq!(
        printer::print(&doc),
        "<svg><path d=\"M5 20A5 4 0 1 0 15 20A5 4 0 1 0 5 20z\"/></svg>"
    );
}

#[test]
fn test_zero_rect_kept() {
    let input = "<svg><rect width=\"0\" height=\"5\"/></svg>";
    let mut doc = parser::parse(input).unwrap();
    svgtidy::plugins::ConvertShapeToPath.apply(&mut doc);
    assert_eq!(printer::print(&doc), input);
}

#[test]
fn test_collapse_blocked_by_switch() {
    let input = "<svg><switch><g><rect/></g></switch></svg>";
    let mut doc = parser::parse(input).unwrap();
    svgtidy::plugins::CollapseGroups.apply(&mut doc);
    assert_eq!(printer::print(&doc), input);
}

#[test]
fn test_move_skips_id_and_transform() {
    let input = "<svg><g><rect id=\"a\" transform=\"x\"/><circle id=\"a\" transform=\"x\"/></g></svg>";
    let mut doc = parser::parse(input).unwrap();
    svgtidy::plugins::MoveElemsAttrsToGroup.apply(&mut doc);
    assert_eq!(printer::print(&doc), input);
}

#[test]
fn test_empty_document() {
    let doc = parser::parse("").unwrap();
    assert_eq!(printer::print(&doc), "");
    assert_eq!(optimize(""), "");
}

#[test]
fn test_convert_color_only_ascii_digits_match() {
    // Unicode decimal digits are not the digits of an rgb() call
    let arabic = "rgb(\u{0662}\u{0665}\u{0665},0,0)";
    assert_eq!(convert_color(arabic), arabic);
    assert_eq!(convert_color("rgb(255,0,0)"), "#f00");
}

#[test]
fn test_convert_color_never_longer() {
    let cases = [
        "rgb(255, 0, 0)",
        "rgb(1,2,3)",
        "rgb(300,0,0)",
        "#aabbcc",
        "#aabbcd",
        "black",
        "red",
        "green",
        "rebeccapurple",
        "none",
        "",
    ];
    for v in cases {
        assert!(convert_color(v).len() <= v.len());
    }
}

#[test]
fn test_convert_color_fixed_points() {
    let cases = [
        "rgb(255, 0, 0)",
        "rgb(17,34,51)",
        "#aabbcc",
        "#aabbcd",
        "black",
        "white",
        "yellow",
        "magenta",
        "gray",
        "green",
        "red",
        "none",
    ];
    for v in cases {
        let once = convert_color(v);
        assert_eq!(convert_color(&once), once);
    }
    // the one exception: the table hex of rebeccapurple is itself shortenable
    let once = convert_color("rebeccapurple");
    assert_eq!(once, "#663399");
    assert_eq!(convert_color(&once), "#639");
}

#[test]
fn test_parse_error_byte_offset() {
    // two-byte characters before the truncation shift the byte offset
    let err = parser::parse("\u{e9}\u{e9}<svg><rect").unwrap_err();
    assert_eq!(err.kind, ParseErrorKind::UnterminatedTag);
    assert_eq!(err.offset, 9);
}
