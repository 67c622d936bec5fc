use raytracer::image::{pixel_count, pixel_position};
use raytracer::integrator::{next_step, Event, Step, MAX_DEPTH};

#[test]
fn miss_sees_background() {
    assert_eq!(next_step(0, Event::Missed), Step::Background);
    assert_eq!(next_step(50, Event::Missed), Step::Background);
}

#[test]
fn absorbed_is_black() {
    assert_eq!(next_step(3, Event::Absorbed), Step::Black);
}

#[test]
fn scatter_goes_deeper_below_cap() {
    assert_eq!(next_step(0, Event::Scattered), Step::Continue(1));
    assert_eq!(next_step(49, Event::Scattered), Step::Continue(50));
    assert_eq!(next_step(50, Event::Scattered), Step::Black);
    assert_eq!(next_step(u32::MAX, Event::Scattered), Step::Black);
}

#[test]
fn mirror_path_stops_at_cap() {
    let mut depth: u32 = 0;
    let mut bounces = 0;
    let end = loop {
        match next_step(depth, Event::Scattered) {
            Step::Continue(d) => {
                depth = d;
                bounces += 1;
                assert!(bounces <= 50);
            }
            s => break s,
        }
    };
    assert_eq!(end, Step::Black);
    assert_eq!(depth, MAX_DEPTH);
    assert_eq!(bounces, 50);
}

#[test]
fn pixel_layout() {
    assert_eq!(pixel_position(0, 800, 400), (0, 399));
    assert_eq!(pixel_position(799, 800, 400), (799, 399));
    assert_eq!(pixel_position(800, 800, 400), (0, 398));
    assert_eq!(pixel_position(800 * 400 - 1, 800, 400), (799, 0));
}

#[test]
fn pixel_count_checks_overflow() {
    assert_eq!(pixel_count(800, 400), Some(320_000));
    assert_eq!(pixel_count(0, 400), Some(0));
    assert_eq!(pixel_count(usize::MAX, 2), None);
}
