//! Rendering: the layers a 2D scene is drawn in, back to front.
use vstd::prelude::*;

verus! {

/// The draw layers, from the back to the front.
#[derive(Clone, Copy, Debug, PartialEq, Eq, Structural, PartialOrd, Ord)]
pub enum RenderLayer {
    Background,
    Tilemap,
    Entities,
    Particles,
    UI,
}

/// The position of a layer from the back, starting at 0.
pub open spec fn layer_rank(l: RenderLayer) -> nat {
    match l {
        RenderLayer::Background => 0,
        RenderLayer::Tilemap => 1,
        RenderLayer::Entities => 2,
        RenderLayer::Particles => 3,
        RenderLayer::UI => 4,
    }
}

/// The position of a layer from the back, starting at 0.
pub fn layer_index(l: RenderLayer) -> (i: u8)
    ensures
        i == layer_rank(l),
{
    match l {
        RenderLayer::Background => 0,
        RenderLayer::Tilemap => 1,
        RenderLayer::Entities => 2,
        RenderLayer::Particles => 3,
        RenderLayer::UI => 4,
    }
}

} // verus!
