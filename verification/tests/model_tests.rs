use voxel_world::model::{group_by_texture, mesh_vertices, MeshPart};

fn part(material: Option<usize>, vertices: Vec<char>, indices: Vec<u32>) -> MeshPart<char> {
    MeshPart { material, vertices, indices }
}

fn textures() -> Vec<String> {
    vec!["rock.png".to_string(), "moss.png".to_string(), "rock.png".to_string()]
}

#[test]
fn meshes_sharing_a_texture_are_merged() {
    let parts = vec![
        part(Some(0), vec!['a', 'b', 'c'], vec![0, 1, 2]),
        part(Some(1), vec!['x', 'y', 'z'], vec![2, 1, 0]),
        part(Some(2), vec!['d', 'e', 'f'], vec![0, 2, 1]),
    ];
    let groups = group_by_texture(parts, &textures()).unwrap();
    assert_eq!(groups.len(), 2);
    assert_eq!(groups[0].texture, "rock.png");
    assert_eq!(groups[0].vertices, vec!['a', 'b', 'c', 'd', 'e', 'f']);
    assert_eq!(groups[0].indices, vec![0, 1, 2, 3, 5, 4]);
    assert_eq!(groups[1].texture, "moss.png");
    assert_eq!(groups[1].vertices, vec!['x', 'y', 'z']);
    assert_eq!(groups[1].indices, vec![2, 1, 0]);
}

#[test]
fn meshes_without_material_are_left_out() {
    let parts = vec![part(None, vec!['a'], vec![0]), part(Some(1), vec!['b'], vec![0])];
    let groups = group_by_texture(parts, &textures()).unwrap();
    assert_eq!(groups.len(), 1);
    assert_eq!(groups[0].vertices, vec!['b']);
}

#[test]
fn unknown_material_is_refused() {
    let parts = vec![part(Some(3), vec!['a'], vec![0])];
    assert!(group_by_texture(parts, &textures()).is_none());
}

#[test]
fn index_overflow_is_refused() {
    let parts = vec![part(Some(0), vec!['a'], vec![0]), part(Some(0), vec!['b'], vec![u32::MAX])];
    assert!(group_by_texture(parts, &textures()).is_none());
    let parts = vec![part(Some(0), vec!['a'], vec![0]), part(Some(1), vec!['b'], vec![u32::MAX])];
    assert!(group_by_texture(parts, &textures()).is_some());
}

#[test]
fn no_meshes_no_groups() {
    assert!(group_by_texture(Vec::<MeshPart<char>>::new(), &textures()).unwrap().is_empty());
}

#[test]
fn vertices_interleave_positions_and_texcoords() {
    let positions = vec![1.0f32, 2.0, 3.0, 4.0, 5.0, 6.0, 7.0];
    let texcoords = vec![0.1f32, 0.2, 0.3, 0.4];
    let v = mesh_vertices(&positions, &texcoords).unwrap();
    assert_eq!(v, vec![([1.0, 2.0, 3.0], [0.1, 0.2]), ([4.0, 5.0, 6.0], [0.3, 0.4])]);
}

#[test]
fn short_texcoords_are_refused() {
    let positions = vec![1u8, 2, 3, 4, 5, 6];
    let texcoords = vec![0u8, 1, 2];
    assert!(mesh_vertices(&positions, &texcoords).is_none());
    assert_eq!(mesh_vertices(&positions[..3].to_vec(), &texcoords).unwrap(), vec![([1, 2, 3], [0, 1])]);
}
