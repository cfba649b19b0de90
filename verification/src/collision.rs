//! Collision of the walking camera with the voxels of the map.

use vstd::prelude::*;
use crate::map::{VoxelGrid, grid_view};

verus! {

/// The height of a map: the vertical voxel index counts down from it.
pub const MAP_HEIGHT: usize = 512;

/// Whether the voxel at the world position `(x, y, z)` is solid. The map is
/// indexed `[x][z][h]`, where the voxel index `h = 512 - y` counts down from the
/// top of the map.
pub fn is_point_blocked(map: &VoxelGrid, x: usize, y: usize, z: usize) -> (blocked: bool)
    requires
        y <= MAP_HEIGHT,
        x < map@.len(),
        z < map@[x as int]@.len(),
        MAP_HEIGHT - y < map@[x as int]@[z as int]@.len(),
    ensures
        blocked == grid_view(map)[x as int][z as int][MAP_HEIGHT - y] is Some,
{
    let h: usize = MAP_HEIGHT - y;
    match map[x][z][h] {
        Some(_) => true,
        None => false,
    }
}

} // verus!
