//! Render-side plain types and the choices a frame makes per node: which mesh a node draws,
//! with which shader program and texture, and whether its payload can be sent as unchanged.
use vstd::prelude::*;
use crate::node::NodeKind;

verus! {

/// Clip layer of a render node: 0 means no clip, a positive value names a clip layer.
#[derive(Debug, Clone, Copy, PartialEq, Eq, Hash)]
pub struct MaskContext(pub u32);

/// Blend mode; only normal blending exists.
#[derive(Debug, Clone, Copy, PartialEq, Eq)]
pub enum BlendMode {
    Normal,
}

/// The mesh a node draws.
#[derive(Debug, Clone, Copy, PartialEq, Eq)]
pub enum MeshShape {
    Quad,
    RoundedRect,
    NineSlice,
    NineSliceRounded,
}

/// How a mesh node is drawn: its shape, its shader program (0 texture times vertex colour, 2
/// background image composited, 3 colour filter, 4 colour filter over a background image), its
/// texture (0 for none or an unregistered image) and whether its geometry shrinks to the
/// image's aspect (`background-size: contain`).
#[derive(Debug, Clone, Copy, PartialEq, Eq)]
pub struct MeshChoice {
    pub shape: MeshShape,
    pub program: u32,
    pub texture: u32,
    pub shrink_to_contain: bool,
}

/// The shader program of text.
pub open spec fn text_program() -> u32 {
    1
}

/// What a node draws: text draws no mesh (`None`); an image draws its texture, nine-sliced when
/// it has a border-image slice, through the filter program when it has a colour filter; a
/// container or button draws a quad, a rounded rectangle (some corner radius not zero), a
/// nine-slice or both, with its background texture when registered, the program by filter and
/// texture, and shrinks to `contain` unless nine-sliced.
pub open spec fn spec_mesh_choice(kind: NodeKind, has_slice: bool, all_zero: bool, has_filter: bool, texture: u32, contain: bool) -> Option<MeshChoice> {
    match kind {
        NodeKind::Text { .. } => None,
        NodeKind::Image { .. } => Some(MeshChoice {
            shape: if has_slice { MeshShape::NineSlice } else { MeshShape::Quad },
            program: if has_filter { 3 } else { 0 },
            texture,
            shrink_to_contain: false,
        }),
        _ => Some(MeshChoice {
            shape: if has_slice {
                if all_zero { MeshShape::NineSlice } else { MeshShape::NineSliceRounded }
            } else {
                if all_zero { MeshShape::Quad } else { MeshShape::RoundedRect }
            },
            program: if has_filter {
                if texture != 0 { 4 } else { 3 }
            } else {
                if texture != 0 { 2 } else { 0 }
            },
            texture,
            shrink_to_contain: !has_slice && contain,
        }),
    }
}

/// The mesh choice of a node (see `spec_mesh_choice`): `has_slice` whether it has a border-image
/// slice, `all_zero` whether every corner radius is zero, `has_filter` whether it has a colour
/// filter, `texture` the texture of its image (0 when none or unregistered), `contain` whether
/// its background size is `contain`.
pub fn mesh_choice(kind: &NodeKind, has_slice: bool, all_zero: bool, has_filter: bool, texture: u32, contain: bool) -> (r: Option<MeshChoice>)
    ensures
        r == spec_mesh_choice(*kind, has_slice, all_zero, has_filter, texture, contain),
{
    match kind {
        NodeKind::Text { .. } => None,
        NodeKind::Image { .. } => Some(MeshChoice {
            shape: if has_slice { MeshShape::NineSlice } else { MeshShape::Quad },
            program: if has_filter { 3 } else { 0 },
            texture,
            shrink_to_contain: false,
        }),
        _ => {
            let shape = if has_slice {
                if all_zero { MeshShape::NineSlice } else { MeshShape::NineSliceRounded }
            } else {
                if all_zero { MeshShape::Quad } else { MeshShape::RoundedRect }
            };
            let program: u32 = if has_filter {
                if texture != 0 { 4 } else { 3 }
            } else {
                if texture != 0 { 2 } else { 0 }
            };
            Some(MeshChoice { shape, program, texture, shrink_to_contain: !has_slice && contain })
        },
    }
}

/// The shader program of text (see `text_program`).
pub fn text_shader() -> (p: u32)
    ensures
        p == text_program(),
{
    1
}

/// Whether the payload of the node at `pos` goes out as unchanged: only when last frame's hashes
/// cover exactly this frame's `n_nodes` nodes and the node's hash is the same.
pub fn payload_unchanged(prev_hashes: &Vec<u64>, n_nodes: usize, pos: usize, h: u64) -> (b: bool)
    requires
        pos < n_nodes,
    ensures
        b == (prev_hashes@.len() == n_nodes && prev_hashes@[pos as int] == h),
{
    prev_hashes.len() == n_nodes && prev_hashes[pos] == h
}

} // verus!
