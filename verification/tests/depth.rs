use lsystem::depth::{topological_depths, DepthTracker};

fn depths(symbols: &str) -> Vec<u32> {
    topological_depths(&symbols.as_bytes().to_vec())
}

#[test]
fn turtle2d_topological_depth_starts_at_zero_and_increments_per_drawn_segment() {
    assert_eq!(depths("FF"), [0, 1]);
}

#[test]
fn turtle2d_topological_depth_restores_across_branches() {
    assert_eq!(depths("F[+F]F"), [0, 1, 1]);
}

#[test]
fn turtle2d_nested_branches_restore_topological_depth() {
    assert_eq!(depths("F[+F[+F]F]F"), [0, 1, 2, 2, 1]);
}

#[test]
fn non_drawing_forward_does_not_increment_topological_depth() {
    assert_eq!(depths("FfF"), [0, 1]);
}

#[test]
fn turtle3d_topological_depth_starts_at_zero_and_increments_per_drawn_segment() {
    assert_eq!(depths("FF"), [0, 1]);
}

#[test]
fn turtle3d_topological_depth_restores_across_branches() {
    assert_eq!(depths("F[+F]F"), [0, 1, 1]);
}

#[test]
fn turtle3d_nested_branches_restore_topological_depth() {
    assert_eq!(depths("F[+F[+F]F]F"), [0, 1, 2, 2, 1]);
}

#[test]
fn moves_and_rotations_do_not_increment_topological_depth() {
    assert_eq!(depths(r"Ff&^/\F"), [0, 1]);
}

// --- Further cases ---

#[test]
fn tracker_reports_depth_of_each_drawn_segment() {
    let mut tracker = DepthTracker::new();
    assert_eq!(tracker.apply(b'F'), Some(0));
    assert_eq!(tracker.apply(b'['), None);
    assert!(!tracker.stack_is_empty());
    assert_eq!(tracker.apply(b'F'), Some(1));
    assert_eq!(tracker.topological_depth(), 2);
    assert_eq!(tracker.apply(b']'), None);
    assert!(tracker.stack_is_empty());
    assert_eq!(tracker.topological_depth(), 1);
    // An unmatched `]` changes nothing.
    assert_eq!(tracker.apply(b']'), None);
    assert_eq!(tracker.topological_depth(), 1);
}

#[test]
fn branches_do_not_count_towards_what_follows() {
    assert_eq!(depths("[FFF][FF]F"), [0, 1, 2, 0, 1, 0]);
}
