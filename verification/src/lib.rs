//! Game logic of a voxel world viewer: decoding of voxel maps, keyboard
//! state, render-target selection, mesh grouping, stores by name, frame
//! pacing and collision lookups.

pub mod collision;
pub mod components;
pub mod frame;
pub mod input;
pub mod map;
pub mod model;
pub mod store;
pub mod textures;
pub mod vxl;
