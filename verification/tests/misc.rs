use lsystem::animation::{hue_rotation_active, HueRotationDirection};
use lsystem::cancellation::{cancellation_check_due, is_cancelled, CANCELLATION_CHECK_INTERVAL};
use lsystem::config::{LineColorConfig, Rgb};
use lsystem::dimension::{D2, D3};
use lsystem::config::Dimensions;

#[test]
fn hue_rotation_runs_only_for_enabled_hue_cycles() {
    let c = Rgb::new(1, 2, 3);
    assert!(hue_rotation_active(true, &LineColorConfig::HueCycle { initial: c }));
    assert!(!hue_rotation_active(false, &LineColorConfig::HueCycle { initial: c }));
    assert!(!hue_rotation_active(true, &LineColorConfig::Solid(c)));
    assert_eq!(HueRotationDirection::ALL.len(), 2);
    assert_eq!(HueRotationDirection::Reverse.label(), "Reverse");
}

#[test]
fn cancellation_is_checked_every_interval() {
    assert!(cancellation_check_due(0));
    assert!(!cancellation_check_due(1));
    assert!(!cancellation_check_due(CANCELLATION_CHECK_INTERVAL - 1));
    assert!(cancellation_check_due(CANCELLATION_CHECK_INTERVAL));
    assert!(is_cancelled(7, 8));
    assert!(!is_cancelled(7, 7));
}

#[test]
fn dimension_markers_name_their_runtime_dimension() {
    assert_eq!(D2::RUNTIME, Dimensions::TwoD);
    assert_eq!(D3::RUNTIME, Dimensions::ThreeD);
}
