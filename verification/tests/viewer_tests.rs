use splatrs::renderer::ToneMap;
use splatrs::viewer::{
    drawn_instances, first_marked, next_tone_map, should_resort, thinned_indices, ControlKey, FrameCounter,
    KeyAction, SortRequest, ViewerInput,
};

#[test]
fn a_new_viewer_sorts_before_its_first_frame() {
    let input = ViewerInput::new();
    assert_eq!(input.sort_request, SortRequest::Immediate);
    assert!(!input.dragging);
}

#[test]
fn dragging_orbits_after_the_first_cursor_move() {
    let mut input = ViewerInput::new();
    input.frame_drawn(true);
    input.left_button(true, false);
    assert!(input.dragging);
    assert!(!input.cursor_moved(false, true));
    assert!(input.cursor_moved(false, true));
    assert_eq!(input.sort_request, SortRequest::Throttled);
    input.left_button(false, false);
    assert!(!input.dragging && !input.has_cursor);
    assert_eq!(input.sort_request, SortRequest::Immediate);
}

#[test]
fn the_ui_takes_the_pointer_first() {
    let mut input = ViewerInput::new();
    input.frame_drawn(true);
    input.left_button(true, false);
    input.left_button(true, true);
    assert!(!input.dragging);
    assert!(!input.cursor_moved(false, true));
    assert!(!input.wheel(true, true));
    assert_eq!(input.sort_request, SortRequest::Idle);
    assert!(input.wheel(false, true));
    assert_eq!(input.sort_request, SortRequest::Throttled);
}

#[test]
fn frames_settle_sort_requests() {
    let mut input = ViewerInput::new();
    input.frame_drawn(false);
    assert_eq!(input.sort_request, SortRequest::Idle);
    input.wheel(false, true);
    input.frame_drawn(false);
    assert_eq!(input.sort_request, SortRequest::Throttled);
    input.frame_drawn(true);
    assert_eq!(input.sort_request, SortRequest::Idle);
    input.request_full_sort();
    assert_eq!(input.sort_request, SortRequest::Immediate);
}

#[test]
fn throttled_sorts_wait_for_the_interval() {
    assert!(should_resort(SortRequest::Immediate, 0, 120));
    assert!(!should_resort(SortRequest::Throttled, 119, 120));
    assert!(should_resort(SortRequest::Throttled, 120, 120));
    assert!(should_resort(SortRequest::Throttled, 0, 0));
    assert!(should_resort(SortRequest::Idle, 1_000_000, 0));
    assert!(should_resort(SortRequest::Idle, 80, 80));
    assert!(!should_resort(SortRequest::Idle, 79, 80));
}

#[test]
fn interaction_caps_the_drawn_splats() {
    assert_eq!(drawn_instances(1000, SortRequest::Throttled, 150), 150);
    assert_eq!(drawn_instances(100, SortRequest::Throttled, 150), 100);
    assert_eq!(drawn_instances(1000, SortRequest::Throttled, 0), 1000);
    assert_eq!(drawn_instances(1000, SortRequest::Idle, 150), 1000);
    assert_eq!(drawn_instances(1000, SortRequest::Immediate, 150), 1000);
}

#[test]
fn frame_counter_reports_every_half_second() {
    let mut counter = FrameCounter::new();
    assert_eq!(counter.tick(100), None);
    assert_eq!(counter.tick(300), None);
    assert_eq!(counter.tick(500), Some(3));
    assert_eq!(counter.frames, 0);
    assert_eq!(counter.tick(10), None);
    assert_eq!(counter.frames, 1);
}

#[test]
fn full_quality_returns_after_a_sorted_frame() {
    let mut input = ViewerInput::new();
    input.frame_drawn(true);
    input.wheel(false, true);
    assert_eq!(drawn_instances(1000, input.sort_request, 10), 10);
    input.frame_drawn(true);
    assert_eq!(drawn_instances(1000, input.sort_request, 10), 1000);
}

#[test]
fn full_quality_returns_after_a_wheel_zoom() {
    let total = 1000;
    let cap = 10;
    let interval = 100;
    let mut input = ViewerInput::new();
    input.frame_drawn(should_resort(input.sort_request, 0, interval));
    assert!(input.wheel(false, true));
    // The zoom frame sorts once the interval has passed, capped.
    assert!(should_resort(input.sort_request, 200, interval));
    assert_eq!(drawn_instances(total, input.sort_request, cap), cap);
    input.frame_drawn(true);
    // No more input: the next frame past the interval sorts every splat.
    assert!(should_resort(input.sort_request, 150, interval));
    assert_eq!(drawn_instances(total, input.sort_request, cap), total);
}

#[test]
fn thinning_spreads_positions_evenly() {
    assert_eq!(thinned_indices(10, 5), vec![0, 2, 4, 6, 8]);
    assert_eq!(thinned_indices(7, 3), vec![0, 2, 4]);
    assert_eq!(thinned_indices(4, 4), vec![0, 1, 2, 3]);
    assert!(thinned_indices(4, 0).is_empty());
}

#[test]
fn first_marked_finds_the_first_acceptable_choice() {
    assert_eq!(first_marked(&[false, true, true]), Some(1));
    assert_eq!(first_marked(&[false, false]), None);
    assert_eq!(first_marked(&[]), None);
}

#[test]
fn keys_map_to_viewer_actions() {
    let mut input = ViewerInput::new();
    input.frame_drawn(true);
    assert_eq!(input.key_pressed(ControlKey::O, false), Some(KeyAction::OpacityUp));
    assert_eq!(input.key_pressed(ControlKey::Minus, false), Some(KeyAction::SplatScaleDown));
    assert_eq!(input.key_pressed(ControlKey::T, false), Some(KeyAction::CycleToneMap));
    assert_eq!(input.sort_request, SortRequest::Idle);
    assert_eq!(input.key_pressed(ControlKey::Digit(2), false), Some(KeyAction::SetShDegree(2)));
    assert_eq!(input.sort_request, SortRequest::Immediate);
    assert_eq!(input.key_pressed(ControlKey::Digit(7), false), None);
}

#[test]
fn the_ui_takes_keys_except_escape() {
    let mut input = ViewerInput::new();
    input.frame_drawn(true);
    assert_eq!(input.key_pressed(ControlKey::P, true), None);
    assert_eq!(input.sort_request, SortRequest::Idle);
    assert_eq!(input.key_pressed(ControlKey::Escape, true), Some(KeyAction::Quit));
    assert_eq!(input.key_pressed(ControlKey::P, false), Some(KeyAction::TogglePointMode));
    assert_eq!(input.sort_request, SortRequest::Immediate);
}

#[test]
fn tone_mapping_cycles_through_three_curves() {
    assert_eq!(next_tone_map(ToneMap::Off), ToneMap::Reinhard);
    assert_eq!(next_tone_map(ToneMap::Reinhard), ToneMap::Aces);
    assert_eq!(next_tone_map(ToneMap::Aces), ToneMap::Off);
}
