use niri::input::plane_gesture::PlaneGesture;
use niri::input::spatial_movement_grab::{FrameStep, SpatialMovementGrab};

#[test]
fn grab_on_view_offset_pans_from_the_start() {
    let grab = SpatialMovementGrab::new((), "output-1", true);
    assert_eq!(grab.view_offset_output(), Some(&"output-1"));
    assert_eq!(grab.workspace_switch_output(), None);
    assert!(grab.ends_plane_on_release());
}

#[test]
fn grab_recognizes_then_pans() {
    let mut grab = SpatialMovementGrab::new(7u32, "out", false);
    assert_eq!(grab.view_offset_output(), None);
    assert_eq!(grab.frame(false, true), FrameStep::Idle);
    assert_eq!(grab.view_offset_output(), None);
    assert_eq!(grab.frame(true, false), FrameStep::KeepRecognizing);
    assert!(!grab.ends_plane_on_release());
    assert_eq!(grab.frame(true, true), FrameStep::BeginPlane);
    assert_eq!(grab.view_offset_output(), Some(&"out"));
    assert_eq!(grab.frame(true, false), FrameStep::UpdatePlane);
    assert_eq!(grab.frame(false, false), FrameStep::Idle);
    assert!(grab.ends_plane_on_release());
    assert_eq!(*grab.start_data(), 7);
    assert_eq!(*grab.output(), "out");
}

#[test]
fn ending_a_pan_drops_a_pinch() {
    let mut gesture: PlaneGesture<u32, &str> = PlaneGesture::new();
    assert_eq!(gesture.take_pan(), None);
    gesture.begin_pinch("pinch");
    assert_eq!(gesture.take_pan(), None);
    assert_eq!(gesture.end_pan(), None);
    assert_eq!(gesture.end_pinch(), None);
}

#[test]
fn pan_can_be_taken_and_restored() {
    let mut gesture: PlaneGesture<u32, &str> = PlaneGesture::default();
    gesture.begin_pan(3);
    let pan = gesture.take_pan().unwrap();
    assert_eq!(gesture.take_pan(), None);
    gesture.begin_pan(pan + 1);
    assert_eq!(gesture.take_pinch(), None);
    assert_eq!(gesture.end_pan(), Some(4));
    assert_eq!(gesture.end_pan(), None);
}

#[test]
fn pinch_end_reports_the_pinch() {
    let mut gesture: PlaneGesture<u32, &str> = PlaneGesture::new();
    gesture.begin_pinch("p");
    assert_eq!(gesture.take_pinch(), Some("p"));
    gesture.begin_pinch("q");
    assert_eq!(gesture.end_pinch(), Some("q"));
    gesture.begin_pan(1);
    assert_eq!(gesture.end_pinch(), None);
    assert_eq!(gesture.end_pan(), None);
}
