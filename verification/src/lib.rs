//! The core of a retained-mode UI: selectors, HTML body checking, declarations, the package
//! format, textures, the scene and its run-time edits, pointer input, hit testing, and the
//! per-frame draw order, batching and merging of render nodes.
use vstd::prelude::*;

pub mod text;
pub mod selector;
pub mod dom;
pub mod css;
pub mod node;
pub mod resolved;
pub mod render;
pub mod input;
pub mod texture;
pub mod asset;
pub mod dynamic;
pub mod package;
pub mod package_read;
pub mod package_law;
pub mod package_prefix;
pub mod dump;
pub mod mapping;
pub mod html;
pub mod scrape;
pub mod decl;
pub mod scene;
pub mod gather;
pub mod batch;
pub mod tree;
pub mod tree_remove_law;
pub mod draw_order;
pub mod hit;
pub mod merge;
pub mod mesh;
pub mod inline_css;

verus! {

/// The version label of the library.
pub fn version() -> (v: &'static str)
    ensures
        v@ == "v0-skeleton"@,
{
    "v0-skeleton"
}

} // verus!
