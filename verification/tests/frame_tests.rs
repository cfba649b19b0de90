use voxel_world::frame::{control_for, end_frame, take_event, window_resize, Action, LoopControl, LoopEvent, UpdateWindowSystem};
use voxel_world::components::{AddLightSystem, FlyingControls, RenderSystem, ResizeTexturesSystem, RotateRandomly, RotateRandomlySystem};

#[test]
fn events_wait_for_the_next_frame() {
    let mut pending: Vec<u8> = Vec::new();
    assert!(!take_event(&mut pending, LoopEvent::Event(1)));
    assert!(!take_event(&mut pending, LoopEvent::Wake));
    assert!(!take_event(&mut pending, LoopEvent::Transient));
    assert!(!take_event(&mut pending, LoopEvent::Event(2)));
    assert!(take_event(&mut pending, LoopEvent::FrameDue));
    assert_eq!(pending, vec![1, 2]);
    assert_eq!(end_frame(&mut pending, Action::Continue), LoopControl::WaitForNextFrame);
    assert!(pending.is_empty());
}

#[test]
fn stop_leaves_the_loop() {
    let mut pending = vec![5u8];
    assert_eq!(end_frame(&mut pending, Action::Stop), LoopControl::Exit);
    assert!(pending.is_empty());
    assert_eq!(control_for(Action::Continue), LoopControl::WaitForNextFrame);
    assert_eq!(control_for(Action::Stop), LoopControl::Exit);
}

#[test]
fn resize_is_reported_once() {
    let s = window_resize(800, 600, 1024, 600);
    assert_eq!((s.width, s.height, s.resized), (1024, 600, true));
    let s = window_resize(s.width, s.height, 1024, 600);
    assert_eq!((s.width, s.height, s.resized), (1024, 600, false));
    let s = window_resize(1024, 600, 1024, 700);
    assert!(s.resized);
}

#[test]
fn frame_start_gives_previous_time() {
    let mut system = UpdateWindowSystem::new();
    let t1 = std::time::Instant::now();
    let first = system.start_frame(t1);
    assert!(first <= t1);
    let t2 = t1 + std::time::Duration::from_millis(16);
    assert_eq!(system.start_frame(t2), t1);
    assert_eq!(system.start_frame(t2), t2);
}

#[test]
fn marker_types_compare_equal() {
    assert_eq!(FlyingControls {}, FlyingControls {});
    assert_eq!(RotateRandomly {}, RotateRandomly {});
    assert_eq!(AddLightSystem {}, AddLightSystem {});
    assert_eq!(RenderSystem {}, RenderSystem {});
    assert_eq!(ResizeTexturesSystem {}, ResizeTexturesSystem {});
    assert_eq!(RotateRandomlySystem {}, RotateRandomlySystem {});
}

#[test]
fn system_starting_at_remembers_its_start() {
    let t = std::time::Instant::now();
    let mut system = UpdateWindowSystem::starting_at(t);
    let later = t + std::time::Duration::from_millis(5);
    assert_eq!(system.start_frame(later), t);
}
