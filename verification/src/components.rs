//! Marker components and the systems of the game loop that carry no state.

use vstd::prelude::*;

verus! {

/// Marks the entity that the player steers: the camera.
#[derive(Clone, Copy, Debug, PartialEq, Eq, Structural)]
pub struct FlyingControls {}

/// Marks an entity that turns a little every frame.
#[derive(Clone, Copy, Debug, PartialEq, Eq, Structural)]
pub struct RotateRandomly {}

/// The system that adds a light at the camera when the light key is pressed.
#[derive(Clone, Copy, Debug, PartialEq, Eq, Structural)]
pub struct AddLightSystem {}

/// The system that draws a frame.
#[derive(Clone, Copy, Debug, PartialEq, Eq, Structural)]
pub struct RenderSystem {}

/// The system that resizes the render targets when the window was resized.
#[derive(Clone, Copy, Debug, PartialEq, Eq, Structural)]
pub struct ResizeTexturesSystem {}

/// The system that turns the entities marked `RotateRandomly`.
#[derive(Clone, Copy, Debug, PartialEq, Eq, Structural)]
pub struct RotateRandomlySystem {}

} // verus!
