use voxel_world::textures::{switch_active_texture, ActiveTexture};

fn names() -> Vec<String> {
    ["light", "camera", "composed", "sun_depth"].iter().map(|s| s.to_string()).collect()
}

fn active(name: &str, depth: bool) -> ActiveTexture {
    ActiveTexture { active_texture: name.to_string(), depth }
}

fn state(a: &ActiveTexture) -> (String, bool) {
    (a.active_texture.clone(), a.depth)
}

#[test]
fn next_shows_depth_then_following_colour() {
    let mut a = active("composed", false);
    switch_active_texture(names(), &mut a, true, false);
    assert_eq!(state(&a), ("composed".to_string(), true));
    switch_active_texture(names(), &mut a, true, false);
    assert_eq!(state(&a), ("light".to_string(), false));
}

#[test]
fn next_wraps_to_first_name() {
    let mut a = active("sun_depth", true);
    switch_active_texture(names(), &mut a, true, false);
    assert_eq!(state(&a), ("camera".to_string(), false));
}

#[test]
fn back_goes_from_depth_to_colour() {
    let mut a = active("light", true);
    switch_active_texture(names(), &mut a, false, true);
    assert_eq!(state(&a), ("light".to_string(), false));
}

#[test]
fn back_goes_to_depth_of_previous_name() {
    let mut a = active("light", false);
    switch_active_texture(names(), &mut a, false, true);
    assert_eq!(state(&a), ("composed".to_string(), true));
}

#[test]
fn no_key_changes_nothing() {
    let mut a = active("light", true);
    switch_active_texture(names(), &mut a, false, false);
    assert_eq!(state(&a), ("light".to_string(), true));
}

#[test]
fn both_keys_in_one_frame() {
    // "next" turns the depth view off and moves on; "back" then uses the index of the frame's start
    let mut a = active("composed", true);
    switch_active_texture(names(), &mut a, true, true);
    assert_eq!(state(&a), ("camera".to_string(), true));
    let mut b = active("composed", false);
    switch_active_texture(names(), &mut b, true, true);
    assert_eq!(state(&b), ("composed".to_string(), false));
}

#[test]
fn back_undoes_next() {
    let start = active("composed", true);
    let mut a = start.clone();
    switch_active_texture(names(), &mut a, true, false);
    switch_active_texture(names(), &mut a, false, true);
    assert_eq!(state(&a), state(&start));
    let start = active("camera", false);
    let mut b = start.clone();
    switch_active_texture(names(), &mut b, true, false);
    switch_active_texture(names(), &mut b, false, true);
    assert_eq!(state(&b), state(&start));
}

#[test]
fn checked_switch_refuses_unlisted_name() {
    let mut a = active("missing", true);
    assert!(!voxel_world::textures::try_switch_active_texture(names(), &mut a, true, false));
    assert_eq!(state(&a), ("missing".to_string(), true));
}

#[test]
fn checked_switch_refuses_back_before_first_name() {
    let mut a = active("camera", false);
    assert!(!voxel_world::textures::try_switch_active_texture(names(), &mut a, false, true));
    assert_eq!(state(&a), ("camera".to_string(), false));
    let mut b = active("camera", true);
    assert!(voxel_world::textures::try_switch_active_texture(names(), &mut b, false, true));
    assert_eq!(state(&b), ("camera".to_string(), false));
}

#[test]
fn checked_switch_moves_like_switch() {
    let mut a = active("composed", true);
    assert!(voxel_world::textures::try_switch_active_texture(names(), &mut a, true, false));
    assert_eq!(state(&a), ("light".to_string(), false));
}
