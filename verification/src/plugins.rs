//! The transformation passes. Each pass mutates the document in place; its
//! exact effect is stated by a spec function over the document's value, and
//! the pass's public worker function carries that contract.
use vstd::prelude::*;

pub mod cleanup_numeric_values;
pub mod collapse_groups;
pub mod convert_colors;
pub mod convert_shape_to_path;
pub mod move_elems_attrs_to_group;
pub mod remove_comments;
pub mod remove_dimensions;
pub mod remove_empty_attrs;
pub mod remove_empty_text;
pub mod remove_hidden_elems;
pub mod remove_raster_images;
pub mod remove_script_element;

pub use cleanup_numeric_values::CleanupNumericValues;
pub use collapse_groups::CollapseGroups;
pub use convert_colors::ConvertColors;
pub use convert_shape_to_path::ConvertShapeToPath;
pub use move_elems_attrs_to_group::MoveElemsAttrsToGroup;
pub use remove_comments::RemoveComments;
pub use remove_dimensions::RemoveDimensions;
pub use remove_empty_attrs::RemoveEmptyAttrs;
pub use remove_empty_text::RemoveEmptyText;
pub use remove_hidden_elems::RemoveHiddenElems;
pub use remove_raster_images::RemoveRasterImages;
pub use remove_script_element::RemoveScriptElement;

use crate::tree::Document;

verus! {

/// One ordered, mutating transformation step of the pipeline.
pub trait Plugin {
    fn apply(&self, doc: &mut Document);
}

} // verus!
