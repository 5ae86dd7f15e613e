//! Depth assignment for layered sprites.
//!
//! Every entity of a scene that stands under a root with a layer is given a
//! depth: the start of its layer's band plus, where ordering by vertical
//! position is switched on, a fraction that grows as the position falls.
//! A frame runs four stages in order: clear, inherit, assign, write back.

pub mod assign;
pub mod compare;
pub mod depth;
pub mod hierarchy;
pub mod layer;
pub mod sorting;
pub mod stages;

pub use assign::{assign_depths, compute_render_z_coordinates};
pub use depth::{RenderZCoordinate, ZIndexSortKey};
pub use hierarchy::{checked_inherited_layers, inherited_layers, propagate_layers_impl, SceneNode};
pub use layer::{LayerIndex, SpriteLayerOptions};
pub use stages::{
    clear_z_coordinates, record_depths, run_frame, update_global_transforms, SceneDepths,
};
