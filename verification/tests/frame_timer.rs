use std::time::Instant;
use voxel_ray_traversal::frame_timer::{FrameTimer, NANOS_PER_SECOND};

#[test]
fn new_timer_reports_zero_fps() {
    let timer = FrameTimer::new();
    assert_eq!(timer.fps(), 0);
}

#[test]
fn frames_within_a_second_do_not_update_fps() {
    let mut timer = FrameTimer::new();
    let now = Instant::now();
    assert_eq!(timer.frame_at(now, 0), None);
    assert_eq!(timer.frame_at(now, NANOS_PER_SECOND - 1), None);
    assert_eq!(timer.fps(), 0);
}

#[test]
fn a_full_second_publishes_the_frame_count() {
    let mut timer = FrameTimer::new();
    let now = Instant::now();
    for _ in 0..4 {
        assert_eq!(timer.frame_at(now, 10), None);
    }
    assert_eq!(timer.frame_at(now, NANOS_PER_SECOND), Some(5));
    assert_eq!(timer.fps(), 5);
    // The count restarts with the new window.
    assert_eq!(timer.frame_at(now, 0), None);
    assert_eq!(timer.frame_at(now, 2 * NANOS_PER_SECOND), Some(2));
    assert_eq!(timer.fps(), 2);
}

#[test]
fn frame_counts_against_the_clock() {
    let mut timer = FrameTimer::new();
    // Right after creation less than a second has passed.
    assert_eq!(timer.frame(), None);
    assert_eq!(timer.fps(), 0);
}

#[test]
fn fps_is_the_last_published_value() {
    let mut timer = FrameTimer::new();
    let now = Instant::now();
    let mut last = 0;
    for (i, elapsed) in [0u128, NANOS_PER_SECOND, 5, 7, NANOS_PER_SECOND * 3, 1].into_iter().enumerate() {
        if let Some(f) = timer.frame_at(now, elapsed) {
            last = f;
        }
        assert_eq!(timer.fps(), last, "after frame {i}");
    }
    assert_eq!(last, 3);
}
