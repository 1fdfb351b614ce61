use touch_drag::gestures::{FingerState, GestureState, Point, Touch, TouchPhase, Vector};

fn touch(id: u64, phase: TouchPhase, x: i32, y: i32) -> Touch {
    Touch { id, phase, location: Point { x, y } }
}

#[test]
fn fresh_tracker_drags_zero() {
    let mut g = GestureState::new();
    assert_eq!(g.drag(), (0, 0));
    assert_eq!(g.active_fingers(), 0);
}

#[test]
fn single_finger_drag() {
    let mut g = GestureState::new();
    g.on_touch_event(&touch(1, TouchPhase::Started, 0, 0));
    g.on_touch_event(&touch(1, TouchPhase::Moved, 10, 5));
    assert_eq!(g.drag(), (10, 5));
}

#[test]
fn consumption_resets() {
    let mut g = GestureState::new();
    g.on_touch_event(&touch(1, TouchPhase::Started, 0, 0));
    g.on_touch_event(&touch(1, TouchPhase::Moved, 10, 5));
    assert_eq!(g.drag(), (10, 5));
    assert_eq!(g.drag(), (0, 0));
    assert_eq!(g.active_fingers(), 1);
    g.on_touch_event(&touch(1, TouchPhase::Moved, 13, 1));
    assert_eq!(g.drag(), (3, -4));
}

#[test]
fn multi_finger_averaging() {
    let mut g = GestureState::new();
    g.on_touch_event(&touch(1, TouchPhase::Started, 0, 0));
    g.on_touch_event(&touch(2, TouchPhase::Started, 100, 100));
    g.on_touch_event(&touch(1, TouchPhase::Moved, 10, 0));
    g.on_touch_event(&touch(2, TouchPhase::Moved, 100, 110));
    assert_eq!(g.drag(), (5, 5));
}

#[test]
fn still_finger_counts_in_mean() {
    let mut g = GestureState::new();
    g.on_touch_event(&touch(1, TouchPhase::Started, 0, 0));
    g.on_touch_event(&touch(2, TouchPhase::Started, 50, 50));
    g.on_touch_event(&touch(1, TouchPhase::Moved, 20, -8));
    assert_eq!(g.drag(), (10, -4));
}

#[test]
fn mean_rounds_toward_zero() {
    let mut g = GestureState::new();
    g.on_touch_event(&touch(1, TouchPhase::Started, 0, 0));
    g.on_touch_event(&touch(2, TouchPhase::Started, 0, 0));
    g.on_touch_event(&touch(1, TouchPhase::Moved, -3, 3));
    assert_eq!(g.drag(), (-1, 1));
}

#[test]
fn move_overwrites_pending_motion() {
    let mut g = GestureState::new();
    g.on_touch_event(&touch(1, TouchPhase::Started, 0, 0));
    g.on_touch_event(&touch(1, TouchPhase::Moved, 10, 0));
    g.on_touch_event(&touch(1, TouchPhase::Moved, 10, 10));
    assert_eq!(g.drag(), (0, 10));
}

#[test]
fn unknown_move_is_ignored() {
    let mut g = GestureState::new();
    g.on_touch_event(&touch(99, TouchPhase::Moved, 5, 5));
    assert_eq!(g.active_fingers(), 0);
    assert_eq!(g.drag(), (0, 0));
    g.on_touch_event(&touch(1, TouchPhase::Started, 0, 0));
    g.on_touch_event(&touch(99, TouchPhase::Moved, 5, 5));
    g.on_touch_event(&touch(1, TouchPhase::Moved, 2, 4));
    assert_eq!(g.drag(), (2, 4));
}

#[test]
fn start_then_end_leaves_no_finger() {
    let mut g = GestureState::new();
    g.on_touch_event(&touch(7, TouchPhase::Started, 1, 1));
    assert_eq!(g.active_fingers(), 1);
    g.on_touch_event(&touch(7, TouchPhase::Ended, 1, 1));
    assert_eq!(g.active_fingers(), 0);
    g.on_touch_event(&touch(7, TouchPhase::Moved, 9, 9));
    assert_eq!(g.active_fingers(), 0);
    assert_eq!(g.drag(), (0, 0));
}

#[test]
fn cancel_removes_finger() {
    let mut g = GestureState::new();
    g.on_touch_event(&touch(3, TouchPhase::Started, 0, 0));
    g.on_touch_event(&touch(4, TouchPhase::Started, 0, 0));
    g.on_touch_event(&touch(3, TouchPhase::Moved, 8, 8));
    g.on_touch_event(&touch(3, TouchPhase::Cancelled, 8, 8));
    assert_eq!(g.active_fingers(), 1);
    assert_eq!(g.drag(), (0, 0));
}

#[test]
fn end_twice_is_idempotent() {
    let mut g = GestureState::new();
    g.on_touch_event(&touch(1, TouchPhase::Started, 0, 0));
    g.on_touch_event(&touch(2, TouchPhase::Started, 0, 0));
    g.on_touch_event(&touch(2, TouchPhase::Moved, 4, 6));
    g.on_touch_event(&touch(1, TouchPhase::Ended, 0, 0));
    g.on_touch_event(&touch(1, TouchPhase::Ended, 0, 0));
    g.on_touch_event(&touch(1, TouchPhase::Cancelled, 0, 0));
    assert_eq!(g.active_fingers(), 1);
    assert_eq!(g.drag(), (4, 6));
}

#[test]
fn restart_rearms_finger() {
    let mut g = GestureState::new();
    g.on_touch_event(&touch(1, TouchPhase::Started, 0, 0));
    g.on_touch_event(&touch(1, TouchPhase::Moved, 10, 10));
    g.on_touch_event(&touch(1, TouchPhase::Started, 50, 50));
    assert_eq!(g.active_fingers(), 1);
    assert_eq!(g.drag(), (0, 0));
    g.on_touch_event(&touch(1, TouchPhase::Moved, 53, 50));
    assert_eq!(g.drag(), (3, 0));
}

#[test]
fn extreme_coordinates_do_not_overflow() {
    let mut g = GestureState::new();
    g.on_touch_event(&touch(1, TouchPhase::Started, i32::MIN, i32::MAX));
    g.on_touch_event(&touch(1, TouchPhase::Moved, i32::MAX, i32::MIN));
    assert_eq!(g.drag(), (4294967295, -4294967295));
}

#[test]
fn finger_state_move_to_records_displacement() {
    let mut f = FingerState::new(Point { x: 3, y: 4 });
    assert_eq!(*f.motion_vector(), Vector { x: 0, y: 0 });
    f.move_to(Point { x: 1, y: 10 });
    assert_eq!(*f.motion_vector(), Vector { x: -2, y: 6 });
    assert_eq!(f.current, Point { x: 1, y: 10 });
    f.move_to(Point { x: 1, y: 12 });
    assert_eq!(*f.motion_vector(), Vector { x: 0, y: 2 });
}
