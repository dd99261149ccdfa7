use ipv6_placer::Pixel;
use ipv6_placer::frame_delta;

fn colored(x: u16, y: u16, r: u16, g: u16, b: u16) -> Pixel {
    Pixel { x, y, r, g, b, big: false }
}

#[test]
fn one_changed_channel_is_reported() {
    let previous = vec![colored(0, 0, 1, 1, 1)];
    let current = vec![colored(0, 0, 2, 1, 1)];
    let delta = frame_delta(&previous, &current);
    assert_eq!(delta, vec![colored(0, 0, 2, 1, 1)]);
}

#[test]
fn unchanged_frame_gives_empty_delta() {
    let previous = vec![colored(0, 0, 1, 1, 1)];
    let current = vec![colored(0, 0, 1, 1, 1)];
    let delta = frame_delta(&previous, &current);
    assert!(delta.is_empty());
}

#[test]
fn any_single_channel_difference_counts() {
    let previous = vec![
        colored(0, 0, 1, 1, 1),
        colored(1, 0, 1, 1, 1),
        colored(2, 0, 1, 1, 1),
    ];
    let current = vec![
        colored(0, 0, 1, 2, 1),
        colored(1, 0, 1, 1, 2),
        colored(2, 0, 1, 1, 1),
    ];
    let delta = frame_delta(&previous, &current);
    assert_eq!(delta, vec![colored(0, 0, 1, 2, 1), colored(1, 0, 1, 1, 2)]);
}

#[test]
fn pixel_new_to_current_is_reported() {
    let previous = vec![colored(0, 0, 1, 1, 1)];
    let current = vec![colored(0, 0, 1, 1, 1), colored(5, 5, 9, 9, 9)];
    let delta = frame_delta(&previous, &current);
    assert_eq!(delta, vec![colored(5, 5, 9, 9, 9)]);
}

#[test]
fn pixel_gone_from_current_is_not_reported() {
    let previous = vec![colored(0, 0, 1, 1, 1), colored(5, 5, 9, 9, 9)];
    let current = vec![colored(0, 0, 1, 1, 1)];
    let delta = frame_delta(&previous, &current);
    assert!(delta.is_empty());
}

#[test]
fn later_previous_pixel_at_a_coordinate_wins() {
    let previous = vec![colored(0, 0, 1, 1, 1), colored(0, 0, 2, 2, 2)];
    let current = vec![colored(0, 0, 2, 2, 2)];
    let delta = frame_delta(&previous, &current);
    assert!(delta.is_empty());
}

#[test]
fn delta_keeps_current_order() {
    let previous: Vec<Pixel> = Vec::new();
    let current = vec![
        colored(3, 0, 1, 1, 1),
        colored(1, 0, 1, 1, 1),
        colored(2, 0, 1, 1, 1),
    ];
    let delta = frame_delta(&previous, &current);
    assert_eq!(delta, current);
}
