use svgtidy::parser;
use svgtidy::printer;
use svgtidy::plugins::Plugin;
use svgtidy::plugins::{CleanupNumericValues, CollapseGroups, ConvertColors, ConvertShapeToPath,
    MoveElemsAttrsToGroup, RemoveComments, RemoveDimensions, RemoveEmptyAttrs, RemoveEmptyText,
    RemoveHiddenElems, RemoveRasterImages, RemoveScriptElement};

#[test]
fn test_cleanup_px() {
    let input = "<svg width=\"100px\" height=\"50.5px\"></svg>";
    let expected = "<svg width=\"100\" height=\"50.5\"/>";

    let mut doc = parser::parse(input).unwrap();
    let plugin = CleanupNumericValues::default();
    plugin.apply(&mut doc);

    assert_eq!(printer::print(&doc), expected);
}

#[test]
fn test_round() {
    let input = "<svg opacity=\"0.123456\"></svg>";
    let expected = "<svg opacity=\".123\"/>";

    let mut doc = parser::parse(input).unwrap();
    let plugin = CleanupNumericValues::default();
    plugin.apply(&mut doc);

    assert_eq!(printer::print(&doc), expected);
}

#[test]
fn test_leading_zero() {
    let input = "<svg opacity=\"0.5\"></svg>";
    let expected = "<svg opacity=\".5\"/>";

    let mut doc = parser::parse(input).unwrap();
    let plugin = CleanupNumericValues::default();
    plugin.apply(&mut doc);

    assert_eq!(printer::print(&doc), expected);
}

#[test]
fn test_ignore_non_numeric() {
    let input = "<svg width=\"auto\"></svg>";
    let expected = "<svg width=\"auto\"/>";

    let mut doc = parser::parse(input).unwrap();
    let plugin = CleanupNumericValues::default();
    plugin.apply(&mut doc);

    assert_eq!(printer::print(&doc), expected);
}

#[test]
fn test_collapse_group() {
    let input = "<svg><g><rect/></g></svg>";
    let expected = "<svg><rect/></svg>";

    let mut doc = parser::parse(input).unwrap();
    CollapseGroups.apply(&mut doc);
    let output = printer::print(&doc);

    assert_eq!(output, expected);
}

#[test]
fn test_nested_collapse() {
    let input = "<svg><g><g><rect/></g></g></svg>";
    let expected = "<svg><rect/></svg>";
    let mut doc = parser::parse(input).unwrap();
    CollapseGroups.apply(&mut doc);
    assert_eq!(printer::print(&doc), expected);
}

#[test]
fn test_keep_attr_group() {
    let input = "<svg><g id=\"g1\"><rect/></g></svg>";
    let expected = "<svg><g id=\"g1\"><rect/></g></svg>";
    let mut doc = parser::parse(input).unwrap();
    CollapseGroups.apply(&mut doc);
    assert_eq!(printer::print(&doc), expected);
}

#[test]
fn test_multiple_children() {
    let input = "<svg><g><rect/><circle/></g></svg>";
    let expected = "<svg><rect/><circle/></svg>";
    let mut doc = parser::parse(input).unwrap();
    CollapseGroups.apply(&mut doc);
    assert_eq!(printer::print(&doc), expected);
}

#[test]
fn test_convert_rgb() {
    let input = "<svg fill=\"rgb(255, 0, 0)\"></svg>";
    let expected = "<svg fill=\"#f00\"/>";
    let mut doc = parser::parse(input).unwrap();
    ConvertColors.apply(&mut doc);
    assert_eq!(printer::print(&doc), expected);
}

#[test]
fn test_convert_named() {
    let input = "<svg stroke=\"black\" fill=\"rebeccapurple\"></svg>";
    let expected = "<svg stroke=\"#000\" fill=\"#663399\"/>";
    let mut doc = parser::parse(input).unwrap();
    ConvertColors.apply(&mut doc);
    assert_eq!(printer::print(&doc), expected);
}

#[test]
fn test_minimize_hex() {
    let input = "<svg fill=\"#ff00ff\"></svg>";
    let expected = "<svg fill=\"#f0f\"/>";
    let mut doc = parser::parse(input).unwrap();
    ConvertColors.apply(&mut doc);
    assert_eq!(printer::print(&doc), expected);
}

#[test]
fn test_ignore_valid_short() {
    let input = "<svg fill=\"red\"></svg>";
    let expected = "<svg fill=\"red\"/>";
    let mut doc = parser::parse(input).unwrap();
    ConvertColors.apply(&mut doc);
    assert_eq!(printer::print(&doc), expected);
}

#[test]
fn test_rect_to_path() {
    let input = "<svg><rect x=\"10\" y=\"20\" width=\"100\" height=\"50\"/></svg>";
    let expected = "<svg><path d=\"M10 20h100v50h-100z\"/></svg>";

    let mut doc = parser::parse(input).unwrap();
    ConvertShapeToPath.apply(&mut doc);
    assert_eq!(printer::print(&doc), expected);
}

#[test]
fn test_circle_to_path() {
    let input = "<svg><circle cx=\"50\" cy=\"50\" r=\"50\"/></svg>";
    let expected = "<svg><path d=\"M0 50A50 50 0 1 0 100 50A50 50 0 1 0 0 50z\"/></svg>";

    let mut doc = parser::parse(input).unwrap();
    ConvertShapeToPath.apply(&mut doc);
    assert_eq!(printer::print(&doc), expected);
}

#[test]
fn test_line_to_path() {
    let input = "<svg><line x1=\"10\" y1=\"10\" x2=\"50\" y2=\"50\"/></svg>";
    let expected = "<svg><path d=\"M10 10L50 50\"/></svg>";

    let mut doc = parser::parse(input).unwrap();
    ConvertShapeToPath.apply(&mut doc);
    assert_eq!(printer::print(&doc), expected);
}

#[test]
fn test_polygon_to_path() {
    let input = "<svg><polygon points=\"0,0 100,0 100,100\"/></svg>";
    let mut doc = parser::parse(input).unwrap();
    ConvertShapeToPath.apply(&mut doc);
    let out = printer::print(&doc);
    assert!(out.contains("path"));
    assert!(out.contains("d=\"M0 0L100 0L100 100z"));
}

#[test]
fn test_move_up_fill() {
    let input = "<svg><g><rect fill=\"red\"/><circle fill=\"red\"/></g></svg>";
    let expected = "<svg><g fill=\"red\"><rect/><circle/></g></svg>";

    let mut doc = parser::parse(input).unwrap();
    MoveElemsAttrsToGroup.apply(&mut doc);
    assert_eq!(printer::print(&doc), expected);
}

#[test]
fn test_no_move_mixed() {
    let input = "<svg><g><rect fill=\"red\"/><circle fill=\"blue\"/></g></svg>";
    let mut doc = parser::parse(input).unwrap();
    MoveElemsAttrsToGroup.apply(&mut doc);
    assert_eq!(printer::print(&doc), input);
}

#[test]
fn test_remove_comments() {
    let input = "<svg><!-- Comment 1 --><rect/><g><!-- Comment 2 --></g></svg>";
    let expected = "<svg><rect/><g/></svg>";

    let mut doc = parser::parse(input).unwrap();
    RemoveComments.apply(&mut doc);
    let output = printer::print(&doc);

    assert_eq!(output, expected);
}

#[test]
fn test_remove_dimensions() {
    let input = "<svg width=\"100\" height=\"100\" viewBox=\"0 0 100 100\"><rect/></svg>";
    let expected = "<svg viewBox=\"0 0 100 100\"><rect/></svg>";

    let mut doc = parser::parse(input).unwrap();
    RemoveDimensions.apply(&mut doc);
    assert_eq!(printer::print(&doc), expected);
}

#[test]
fn test_keep_dimensions_if_no_viewbox() {
    let input = "<svg width=\"100\" height=\"100\"><rect/></svg>";
    let mut doc = parser::parse(input).unwrap();
    RemoveDimensions.apply(&mut doc);
    assert_eq!(printer::print(&doc), input);
}

#[test]
fn test_remove_empty_attrs() {
    let input = "<svg><rect width=\"100\" height=\"\" class=\"\"/></svg>";
    let expected = "<svg><rect width=\"100\"/></svg>";

    let mut doc = parser::parse(input).unwrap();
    RemoveEmptyAttrs.apply(&mut doc);
    let output = printer::print(&doc);

    assert_eq!(output, expected);
}

#[test]
fn test_remove_empty_text() {
    let input = "<svg>   <rect/>   </svg>";
    let expected = "<svg><rect/></svg>";

    let mut doc = parser::parse(input).unwrap();
    RemoveEmptyText.apply(&mut doc);
    let output = printer::print(&doc);

    assert_eq!(output, expected);
}

#[test]
fn test_preserve_space() {
    let input = "<svg xml:space=\"preserve\">   <rect/>   </svg>";
    let expected = "<svg xml:space=\"preserve\">   <rect/>   </svg>";

    let mut doc = parser::parse(input).unwrap();
    RemoveEmptyText.apply(&mut doc);
    let output = printer::print(&doc);

    assert_eq!(output, expected);
}

#[test]
fn test_nested_preserve() {
    let input = "<svg>   <g xml:space=\"preserve\">  </g>   </svg>";
    let expected = "<svg><g xml:space=\"preserve\">  </g></svg>";

    let mut doc = parser::parse(input).unwrap();
    RemoveEmptyText.apply(&mut doc);
    let output = printer::print(&doc);

    assert_eq!(output, expected);
}

#[test]
fn test_remove_hidden() {
    let input = "<svg><rect display=\"none\"/><circle opacity=\"0\"/><g>visible</g></svg>";
    let expected = "<svg><g>visible</g></svg>";

    let mut doc = parser::parse(input).unwrap();
    RemoveHiddenElems.apply(&mut doc);
    let output = printer::print(&doc);

    assert_eq!(output, expected);
}

#[test]
fn test_remove_zero_size() {
    let input = "<svg><rect width=\"0\" height=\"10\"/><circle r=\"0\"/></svg>";
    let expected = "<svg/>";

    let mut doc = parser::parse(input).unwrap();
    RemoveHiddenElems.apply(&mut doc);
    let output = printer::print(&doc);
    assert_eq!(output, expected);
}

#[test]
fn test_remove_image() {
    let input = "<svg><image href=\"foo.jpg\"/><rect/></svg>";
    let expected = "<svg><rect/></svg>";

    let mut doc = parser::parse(input).unwrap();
    RemoveRasterImages.apply(&mut doc);
    assert_eq!(printer::print(&doc), expected);
}

#[test]
fn test_remove_script() {
    let input = "<svg><script>alert(1)</script><rect/></svg>";
    let expected = "<svg><rect/></svg>";

    let mut doc = parser::parse(input).unwrap();
    RemoveScriptElement.apply(&mut doc);
    assert_eq!(printer::print(&doc), expected);
}
