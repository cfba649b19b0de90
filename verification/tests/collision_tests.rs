use voxel_world::collision::is_point_blocked;
use voxel_world::map::Color;

#[test]
fn height_counts_down_from_the_top() {
    // a map of 2 x 2 columns, 513 voxels deep; voxel [1][0][500] is solid
    let mut map = vec![vec![vec![None; 513]; 2]; 2];
    map[1][0][500] = Some(Color { r: 1, g: 2, b: 3 });
    assert!(is_point_blocked(&map, 1, 12, 0));
    assert!(!is_point_blocked(&map, 1, 13, 0));
    assert!(!is_point_blocked(&map, 0, 12, 1));
    assert!(!is_point_blocked(&map, 1, 512, 0));
}
