use vstd::prelude::*;

verus! {

/// The colour of one voxel of a map.
#[derive(Clone, Copy, Debug, PartialEq, Eq, Structural)]
pub struct Color {
    pub r: u8,
    pub g: u8,
    pub b: u8,
}

/// A voxel map indexed as `grid[x][y][z]`; `None` marks an empty voxel.
pub type VoxelGrid = Vec<Vec<Vec<Option<Color>>>>;

/// The cells of a voxel grid as nested sequences.
pub open spec fn grid_view(grid: &VoxelGrid) -> Seq<Seq<Seq<Option<Color>>>> {
    Seq::new(grid@.len(), |x: int| Seq::new(grid@[x]@.len(), |y: int| grid@[x]@[y]@))
}

} // verus!
