use ipv6_placer::CanvasAddress;
use ipv6_placer::Pixel;
use ipv6_placer::Placer;
use ipv6_placer::draw_pixels;
use ipv6_placer::optimize_pixels;
use ipv6_placer::pixels;

#[test]
fn rectangle_fill_unpacks_the_color() {
    let pixels = draw_pixels(0, 0, 1, 1, 0x123456);
    assert_eq!(pixels, vec![Pixel { x: 0, y: 0, r: 0x12, g: 0x34, b: 0x56, big: false }]);
}

#[test]
fn rectangle_fill_covers_the_half_open_box() {
    let filled = draw_pixels(2, 5, 4, 8, 0);
    let expected: Vec<(u16, u16)> =
        vec![(2, 5), (2, 6), (2, 7), (3, 5), (3, 6), (3, 7)];
    assert_eq!(filled.len(), 6);
    for (p, (x, y)) in filled.iter().zip(expected.iter()) {
        assert_eq!((p.x, p.y), (*x, *y));
        assert_eq!((p.r, p.g, p.b, p.big), (0, 0, 0, false));
    }
}

#[test]
fn empty_box_fills_nothing() {
    assert!(draw_pixels(4, 4, 4, 4, 0xffffff).is_empty());
    assert!(draw_pixels(5, 0, 3, 10, 0xffffff).is_empty());
}

#[test]
fn module_entry_point_matches_free_function() {
    let a = pixels::draw(0, 0, 3, 2, 0xabcdef);
    let b = draw_pixels(0, 0, 3, 2, 0xabcdef);
    assert_eq!(a, b);
}

#[test]
fn red_square_fills_and_merges_end_to_end() {
    let filled = draw_pixels(0, 0, 2, 2, 0xff0000);
    assert_eq!(filled.len(), 4);
    for p in &filled {
        assert_eq!((p.r, p.g, p.b, p.big), (255, 0, 0, false));
    }
    let optimized = optimize_pixels(&filled);
    assert_eq!(optimized, vec![Pixel { x: 0, y: 0, r: 255, g: 0, b: 0, big: true }]);

    let placer = Placer::new(CanvasAddress {
        s0: 0x2a01,
        s1: 0x04f8,
        s2: 0xc012,
        s3: 0xf8e6,
        s4: 0,
        s5: 0,
        s6: 0,
        s7: 0,
    });
    let addresses = placer.build_batch_addresses(&optimized);
    assert_eq!(addresses.len(), 1);
    assert_eq!(addresses[0].s4, 0x2000);
    assert_eq!(addresses[0].s5, 0);
    assert_eq!(addresses[0].s6, 255);
    assert_eq!(addresses[0].s7, 0);
}
