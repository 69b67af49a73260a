//! A path tracer's integer-valued core: the pixel buffer that stores,
//! samples and filters rendered or decoded images, texture addressing, the
//! nearest-hit selection over a scene, and the bounce loop of the
//! light-transport estimator.

use vstd::prelude::*;

pub mod objects;
pub mod render;
pub mod sampling;
pub mod textures;

verus! {

/// Width in pixels of a rendered image.
pub const WIDTH: usize = 500;

/// Height in pixels of a rendered image.
pub const HEIGHT: usize = 500;

} // verus!
