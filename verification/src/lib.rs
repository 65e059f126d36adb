//! A vector-markup optimizer: it parses a markup document into a tree,
//! applies an ordered sequence of size-reducing, rendering-preserving
//! passes, and serializes the result back to compact markup.
use vstd::prelude::*;
use vstd::string::StringExecFns;

pub mod text;
pub mod tree;
pub mod parser;
pub mod printer;
pub mod num;
pub mod path_data;
pub mod transform;
pub mod plugins;

use crate::tree::NodeView;
use crate::printer::print_nodes;
use crate::parser::spec_parse;
use crate::plugins::cleanup_numeric_values::{CleanupNumericValues, spec_cleanup_nodes,
    cleanup_numeric_in_nodes};
use crate::plugins::collapse_groups::{spec_collapse, collapse_groups_in_nodes};
use crate::plugins::convert_colors::{spec_convert_colors, convert_colors_in_nodes};
use crate::plugins::convert_shape_to_path::{spec_convert_shapes, convert_shapes_in_nodes};
use crate::plugins::move_elems_attrs_to_group::{spec_move_list, process_nodes};
use crate::plugins::remove_comments::{spec_remove_comments, remove_comments_from_nodes};
use crate::plugins::remove_dimensions::spec_remove_dimensions;
use crate::plugins::remove_empty_attrs::{spec_remove_empty_attrs, remove_empty_attrs_in_nodes};
use crate::plugins::remove_empty_text::{spec_remove_empty_text, remove_empty_text_from_nodes};
use crate::plugins::remove_hidden_elems::{spec_remove_hidden, remove_hidden_elems_from_nodes};
use crate::plugins::remove_raster_images::{spec_remove_raster_images, remove_images_recursive};
use crate::plugins::remove_script_element::{spec_remove_scripts, remove_script_recursive};

verus! {

/// The fixed default pass list, applied left to right: structural passes
/// first, then shape conversion, then numeric and color cleanup.
pub open spec fn spec_default_pipeline(nodes: Seq<NodeView>) -> Seq<NodeView> {
    let n1 = spec_remove_comments(nodes);
    let n2 = spec_remove_scripts(n1);
    let n3 = spec_remove_raster_images(n2);
    let n4 = spec_remove_dimensions(n3);
    let n5 = spec_move_list(n4, Seq::empty());
    let n6 = spec_remove_hidden(n5);
    let n7 = spec_remove_empty_text(n6, false);
    let n8 = spec_collapse(n7, "svg"@);
    let n9 = spec_convert_shapes(n8);
    let n10 = spec_cleanup_nodes(n9, 3, true, true);
    let n11 = spec_convert_colors(n10);
    spec_remove_empty_attrs(n11)
}

/// What optimization produces: on well-formed input, the default pipeline's
/// result printed; on malformed input, the input itself, unchanged.
pub open spec fn spec_optimize(s: Seq<char>) -> Seq<char> {
    match spec_parse(s) {
        Ok(nodes) => print_nodes(spec_default_pipeline(nodes)),
        Err(_) => s,
    }
}

/// Parse, apply the default ordered pass list, and print. A document that
/// does not parse comes back unchanged.
pub fn optimize(svg: &str) -> (r: String)
    ensures
        r@ == spec_optimize(svg@),
{
    match crate::parser::parse(svg) {
        Ok(mut doc) => {
            remove_comments_from_nodes(&mut doc.root);
            remove_script_recursive(&mut doc.root);
            remove_images_recursive(&mut doc.root);
            crate::plugins::remove_dimensions::process_nodes(&mut doc.root);
            process_nodes(&mut doc.root);
            remove_hidden_elems_from_nodes(&mut doc.root);
            remove_empty_text_from_nodes(&mut doc.root, false);
            collapse_groups_in_nodes(&mut doc.root, "svg");
            convert_shapes_in_nodes(&mut doc.root);
            let opts = CleanupNumericValues { float_precision: 3, remove_px: true,
                leading_zero: true };
            cleanup_numeric_in_nodes(&mut doc.root, &opts);
            convert_colors_in_nodes(&mut doc.root);
            remove_empty_attrs_in_nodes(&mut doc.root);
            crate::printer::print(&doc)
        },
        Err(_) => String::from_str(svg),
    }
}


/// On input that does not parse, optimization returns it unchanged, so its
/// size never grows. (On parsed input the passes only rewrite the tree; the
/// printed result of the default list is checked against concrete inputs by
/// the test suite, since a converted shape can print longer than its
/// source.)
pub proof fn lemma_optimize_unparsable_identity(s: Seq<char>)
    requires
        spec_parse(s) is Err,
    ensures
        spec_optimize(s) == s,
        spec_optimize(s).len() <= s.len(),
{
}


/// On any document the parser accepts, the numeric-cleanup pass is
/// idempotent: parsing guarantees unique attribute keys, and on such trees
/// a second run of the pass changes nothing.
pub proof fn lemma_cleanup_idempotent_on_parsed(s: Seq<char>, p: nat, px: bool, strip: bool)
    requires
        spec_parse(s) is Ok,
    ensures
        spec_cleanup_nodes(spec_cleanup_nodes(spec_parse(s)->Ok_0, p, px, strip), p, px, strip)
            == spec_cleanup_nodes(spec_parse(s)->Ok_0, p, px, strip),
{
    crate::parser::lemma_parse_unique(s);
    crate::plugins::cleanup_numeric_values::lemma_cleanup_nodes_idempotent(
        spec_parse(s)->Ok_0,
        p,
        px,
        strip,
    );
}

/// On any document the parser accepts, the dimension-removal pass is
/// idempotent, for the same reason.
pub proof fn lemma_remove_dimensions_idempotent_on_parsed(s: Seq<char>)
    requires
        spec_parse(s) is Ok,
    ensures
        spec_remove_dimensions(spec_remove_dimensions(spec_parse(s)->Ok_0)) == spec_remove_dimensions(
            spec_parse(s)->Ok_0,
        ),
{
    crate::parser::lemma_parse_unique(s);
    crate::plugins::remove_dimensions::lemma_remove_dimensions_idempotent(spec_parse(s)->Ok_0);
}

} // verus!
