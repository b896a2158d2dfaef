use path_animation::{linear, AnimationError, PathAnimation, Point, UNIT};

const SECOND: u64 = 1_000_000;

fn pt(x: i32, y: i32) -> Point {
    Point { x, y }
}

fn cubic_in(progress: i64) -> i64 {
    progress * progress / UNIT * progress / UNIT
}

fn late(progress: i64) -> i64 {
    progress / 2
}

#[test]
fn a_straight_path_at_constant_speed() {
    let mut path = PathAnimation::new(pt(0, 0), pt(600, 600), 10 * SECOND, Vec::new(), linear)
        .unwrap();
    assert!(!path.finished());
    assert_eq!(path.get_position(), pt(0, 0));
    path.step(5 * SECOND);
    assert!(!path.finished());
    assert_eq!(path.get_position(), pt(300, 300));
    path.step(5 * SECOND);
    assert_eq!(path.get_position(), pt(600, 600));
    path.step(1);
    assert!(path.finished());
    assert_eq!(path.get_position(), pt(600, 600));
}

#[test]
fn a_straight_path_in_small_steps() {
    let mut path = PathAnimation::new(pt(0, 0), pt(600, 600), 10 * SECOND, Vec::new(), linear)
        .unwrap();
    for _ in 0..5_000 {
        path.step(1_000);
    }
    assert_eq!(path.get_position(), pt(300, 300));
    for _ in 0..5_000 {
        path.step(1_000);
    }
    assert!(!path.finished());
    assert_eq!(path.get_position(), pt(600, 600));
    path.step(1_000);
    assert!(path.finished());
    assert_eq!(path.get_position(), pt(600, 600));
}

#[test]
fn a_path_with_one_stop() {
    let mut path = PathAnimation::new(
        pt(0, 0),
        pt(100, 100),
        2 * SECOND,
        vec![pt(100, 0)],
        linear,
    )
    .unwrap();
    path.step(SECOND / 2);
    assert_eq!(path.get_position(), pt(50, 0));
    path.step(SECOND / 2);
    assert_eq!(path.get_position(), pt(100, 0));
    assert!(!path.finished());
    path.step(1);
    assert_eq!(path.get_position(), pt(100, 0));
    assert!(!path.finished());
    path.step(SECOND / 2);
    assert_eq!(path.get_position(), pt(100, 50));
    path.step(SECOND / 2);
    assert_eq!(path.get_position(), pt(100, 100));
    assert!(!path.finished());
    path.step(1);
    assert!(path.finished());
    assert_eq!(path.get_position(), pt(100, 100));
}

#[test]
fn a_path_with_one_stop_in_small_steps() {
    let mut path = PathAnimation::new(
        pt(0, 0),
        pt(100, 100),
        2 * SECOND,
        vec![pt(100, 0)],
        linear,
    )
    .unwrap();
    for _ in 0..1_000 {
        path.step(1_000);
    }
    assert_eq!(path.get_position(), pt(100, 0));
    for _ in 0..1_000 {
        path.step(1_000);
    }
    assert!(!path.finished());
    assert_eq!(path.get_position(), pt(100, 99));
    path.step(1_000);
    assert_eq!(path.get_position(), pt(100, 100));
    assert!(!path.finished());
    path.step(1_000);
    assert!(path.finished());
    assert_eq!(path.get_position(), pt(100, 100));
}

#[test]
fn an_empty_path_is_over_at_once() {
    let mut path =
        PathAnimation::new(pt(7, 7), pt(7, 7), SECOND, Vec::new(), linear).unwrap();
    assert!(path.finished());
    assert_eq!(path.get_position(), pt(7, 7));
    path.step(16_000);
    assert!(path.finished());
    assert_eq!(path.get_position(), pt(7, 7));
    path.restart();
    assert!(path.finished());
    assert_eq!(path.get_position(), pt(7, 7));
}

#[test]
fn a_path_that_only_stands_still_is_over_at_once() {
    let mut path = PathAnimation::new(
        pt(5, 5),
        pt(5, 5),
        SECOND,
        vec![pt(5, 5), pt(5, 5)],
        linear,
    )
    .unwrap();
    assert!(path.finished());
    assert_eq!(path.get_position(), pt(5, 5));
    path.step(0);
    assert!(path.finished());
    path.step(SECOND);
    assert!(path.finished());
    assert_eq!(path.get_position(), pt(5, 5));
    path.restart();
    assert!(path.finished());
    assert_eq!(path.get_position(), pt(5, 5));
}

#[test]
fn a_path_that_returns_to_its_start_is_not_over_at_once() {
    let mut path =
        PathAnimation::new(pt(5, 5), pt(5, 5), SECOND, vec![pt(5, 6)], linear).unwrap();
    assert!(!path.finished());
    assert_eq!(path.get_position(), pt(5, 5));
    path.step(SECOND / 2 + 1);
    assert!(!path.finished());
    assert_eq!(path.get_position(), pt(5, 6));
    path.step(SECOND / 2 + 1);
    assert!(path.finished());
    assert_eq!(path.get_position(), pt(5, 5));
}

#[test]
fn a_path_without_time_is_refused() {
    let made = PathAnimation::new(pt(0, 0), pt(600, 600), 0, Vec::new(), linear);
    assert_eq!(made.err(), Some(AnimationError::InvalidConfiguration));
    let made = PathAnimation::new(pt(0, 0), pt(0, 0), 0, vec![pt(1, 1)], linear);
    assert_eq!(made.err(), Some(AnimationError::InvalidConfiguration));
}

#[test]
fn the_shortest_time_is_accepted() {
    let mut path = PathAnimation::new(pt(0, 0), pt(10, 0), 1, Vec::new(), linear).unwrap();
    assert!(!path.finished());
    path.step(1);
    assert_eq!(path.get_position(), pt(10, 0));
    path.step(1);
    assert!(path.finished());
}

#[test]
fn restart_after_the_end_begins_again() {
    let mut path = PathAnimation::new(
        pt(0, 0),
        pt(100, 100),
        2 * SECOND,
        vec![pt(100, 0)],
        linear,
    )
    .unwrap();
    path.step(2 * SECOND);
    path.step(2 * SECOND);
    assert!(path.finished());
    path.restart();
    assert!(!path.finished());
    assert_eq!(path.get_position(), pt(0, 0));
    path.step(SECOND / 2);
    assert_eq!(path.get_position(), pt(50, 0));
}

#[test]
fn restart_on_the_way_begins_again() {
    let mut path = PathAnimation::new(
        pt(0, 0),
        pt(100, 100),
        2 * SECOND,
        vec![pt(100, 0)],
        linear,
    )
    .unwrap();
    path.step(SECOND + 1);
    path.step(SECOND / 4);
    assert_eq!(path.get_position(), pt(100, 25));
    path.restart();
    assert_eq!(path.get_position(), pt(0, 0));
    path.restart();
    assert_eq!(path.get_position(), pt(0, 0));
    path.step(SECOND / 4);
    assert_eq!(path.get_position(), pt(25, 0));
}

#[test]
fn one_step_moves_on_by_one_segment_at_most() {
    let mut path = PathAnimation::new(
        pt(0, 0),
        pt(100, 100),
        2 * SECOND,
        vec![pt(100, 0)],
        linear,
    )
    .unwrap();
    path.step(100 * SECOND);
    assert!(!path.finished());
    assert_eq!(path.get_position(), pt(100, 0));
    path.step(100 * SECOND);
    assert!(path.finished());
    assert_eq!(path.get_position(), pt(100, 100));
}

#[test]
fn time_beyond_the_end_of_a_segment_is_dropped() {
    let mut path = PathAnimation::new(
        pt(0, 0),
        pt(100, 100),
        2 * SECOND,
        vec![pt(100, 0)],
        linear,
    )
    .unwrap();
    path.step(SECOND + SECOND / 2);
    assert_eq!(path.get_position(), pt(100, 0));
    path.step(SECOND / 2);
    assert_eq!(path.get_position(), pt(100, 50));
}

#[test]
fn segments_get_time_in_proportion_to_their_length() {
    let mut path = PathAnimation::new(
        pt(0, 0),
        pt(0, 0),
        12 * SECOND,
        vec![pt(3, 4), pt(3, 0)],
        linear,
    )
    .unwrap();
    path.step(5 * SECOND);
    assert_eq!(path.get_position(), pt(3, 4));
    path.step(1);
    path.step(4 * SECOND);
    assert_eq!(path.get_position(), pt(3, 0));
    path.step(1);
    path.step(3 * SECOND);
    assert_eq!(path.get_position(), pt(0, 0));
    assert!(!path.finished());
    path.step(1);
    assert!(path.finished());
}

#[test]
fn segment_times_are_rounded_down() {
    let mut path = PathAnimation::new(
        pt(0, 0),
        pt(3, 0),
        SECOND,
        vec![pt(1, 0), pt(2, 0)],
        linear,
    )
    .unwrap();
    path.step(333_333);
    assert_eq!(path.get_position(), pt(1, 0));
    path.step(1);
    path.step(333_333);
    assert_eq!(path.get_position(), pt(2, 0));
    path.step(1);
    path.step(333_333);
    assert_eq!(path.get_position(), pt(3, 0));
    assert!(!path.finished());
    path.step(1);
    assert!(path.finished());
}

#[test]
fn a_stop_that_repeats_takes_one_step_of_some_time() {
    let mut path = PathAnimation::new(
        pt(0, 0),
        pt(10, 0),
        SECOND,
        vec![pt(0, 0), pt(10, 0)],
        linear,
    )
    .unwrap();
    assert!(!path.finished());
    assert_eq!(path.get_position(), pt(0, 0));
    path.step(0);
    path.step(SECOND / 2);
    assert_eq!(path.get_position(), pt(0, 0));
    path.step(SECOND / 2);
    assert_eq!(path.get_position(), pt(5, 0));
    assert!(!path.finished());
    path.step(SECOND / 2 + 1);
    assert!(!path.finished());
    assert_eq!(path.get_position(), pt(10, 0));
    path.step(0);
    assert!(!path.finished());
    path.step(1);
    assert!(path.finished());
    assert_eq!(path.get_position(), pt(10, 0));
}

#[test]
fn the_step_past_the_last_stop_leads_to_the_final_segment() {
    let mut path = PathAnimation::new(
        pt(0, 0),
        pt(10, 0),
        SECOND,
        vec![pt(10, 0)],
        linear,
    )
    .unwrap();
    path.step(SECOND + 1);
    assert!(!path.finished());
    assert_eq!(path.get_position(), pt(10, 0));
    path.step(1);
    assert!(path.finished());
    assert_eq!(path.get_position(), pt(10, 0));
}

#[test]
fn a_first_segment_too_short_for_any_time_shows_its_start() {
    let mut path =
        PathAnimation::new(pt(0, 0), pt(20, 0), 1, vec![pt(10, 0)], linear).unwrap();
    assert!(!path.finished());
    assert_eq!(path.get_position(), pt(0, 0));
    path.step(0);
    assert!(!path.finished());
    assert_eq!(path.get_position(), pt(0, 0));
    path.step(1);
    assert!(!path.finished());
    assert_eq!(path.get_position(), pt(10, 0));
    path.step(1);
    assert!(path.finished());
    assert_eq!(path.get_position(), pt(20, 0));
    path.restart();
    assert!(!path.finished());
    assert_eq!(path.get_position(), pt(0, 0));
}

#[test]
fn a_finished_path_stays_at_its_end() {
    let mut path =
        PathAnimation::new(pt(0, 0), pt(10, 10), SECOND, Vec::new(), linear).unwrap();
    path.step(3 * SECOND);
    assert!(path.finished());
    assert_eq!(path.get_position(), pt(10, 10));
    path.step(3 * SECOND);
    assert!(path.finished());
    assert_eq!(path.get_position(), pt(10, 10));
}

#[test]
fn the_easing_function_applies_to_every_segment() {
    let mut path = PathAnimation::new(
        pt(0, 0),
        pt(1_000, 1_000),
        2 * SECOND,
        vec![pt(1_000, 0)],
        cubic_in,
    )
    .unwrap();
    path.step(SECOND / 2);
    assert_eq!(path.get_position(), pt(125, 0));
    path.step(SECOND / 2);
    assert_eq!(path.get_position(), pt(1_000, 0));
    path.step(1);
    path.step(SECOND / 2);
    assert_eq!(path.get_position(), pt(1_000, 125));
}

#[test]
fn the_end_is_shown_exactly_once_the_path_is_over() {
    let mut path =
        PathAnimation::new(pt(0, 0), pt(100, 100), SECOND, Vec::new(), late).unwrap();
    path.step(SECOND);
    assert_eq!(path.get_position(), pt(50, 50));
    path.step(1);
    assert!(path.finished());
    assert_eq!(path.get_position(), pt(100, 100));
}

#[test]
fn a_path_through_many_stops_ends_where_it_should() {
    let top_left = pt(0, 0);
    let top_right = pt(600, 0);
    let bottom_left = pt(0, 600);
    let bottom_right = pt(600, 600);
    let stops = vec![
        bottom_left,
        bottom_right,
        top_right,
        bottom_left,
        top_right,
        top_left,
        bottom_right,
    ];
    let mut path = PathAnimation::new(top_left, top_left, 10 * SECOND, stops, linear).unwrap();
    let mut ticks: u64 = 0;
    while !path.finished() {
        path.step(1_000);
        ticks += 1;
        assert!(ticks <= 10_008);
    }
    assert!(ticks > 9_990);
    assert_eq!(path.get_position(), top_left);
    path.restart();
    assert!(!path.finished());
    assert_eq!(path.get_position(), top_left);
}

fn ease_in_out(t: f32) -> f32 {
    if t < 0.5 {
        2.0 * t * t
    } else {
        1.0 - 2.0 * (1.0 - t) * (1.0 - t)
    }
}

#[test]
fn an_easing_function_on_fractions_can_be_adapted() {
    let shaped = |progress: i64| (ease_in_out(progress as f32 / UNIT as f32) * UNIT as f32) as i64;
    let mut path =
        PathAnimation::new(pt(0, 0), pt(1_000, 0), 4 * SECOND, Vec::new(), shaped).unwrap();
    assert_eq!(path.get_position(), pt(0, 0));
    path.step(SECOND);
    assert_eq!(path.get_position(), pt(125, 0));
    path.step(SECOND);
    assert_eq!(path.get_position(), pt(500, 0));
    path.step(SECOND);
    assert_eq!(path.get_position(), pt(875, 0));
    path.step(SECOND);
    assert_eq!(path.get_position(), pt(1_000, 0));
}
