use vstd::prelude::*;

verus! {

/// The type that names the layers of a scene.
///
/// A layer stands for a depth band of width one that starts at
/// `as_z_coordinate`. Entities are given a layer explicitly; the layer is not
/// handed down by the scene itself.
pub trait LayerIndex: Clone {
    /// The start of the layer's depth band. The depth of an entity on this
    /// layer lies at or above this value and below the next integer.
    fn as_z_coordinate(&self) -> i32;
}

/// `base` is a value that `as_z_coordinate` may return for `layer`.
pub open spec fn is_base_of<L: LayerIndex>(layer: L, base: int) -> bool {
    exists|z: i32| z == base && call_ensures(L::as_z_coordinate, (&layer,), z)
}

/// How depths are assigned.
#[derive(Clone, Copy, Debug)]
pub struct SpriteLayerOptions {
    /// Order the entities by vertical position inside their bands.
    pub y_sort: bool,
    /// Sort on several threads. The depths are the same either way.
    pub parallel_y_sort: bool,
}

impl Default for SpriteLayerOptions {
    fn default() -> (options: Self)
        ensures
            options.y_sort,
            !options.parallel_y_sort,
    {
        SpriteLayerOptions { y_sort: true, parallel_y_sort: false }
    }
}

} // verus!
