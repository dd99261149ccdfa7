use ipv6_placer::Pixel;
use ipv6_placer::optimize_pixels;

fn colored(x: u16, y: u16, r: u16, g: u16, b: u16) -> Pixel {
    Pixel { x, y, r, g, b, big: false }
}

#[test]
fn full_quad_merges_to_one_big_pixel() {
    let pixels = vec![
        colored(0, 0, 10, 20, 30),
        colored(1, 0, 10, 20, 30),
        colored(0, 1, 10, 20, 30),
        colored(1, 1, 10, 20, 30),
    ];
    let optimized = optimize_pixels(&pixels);
    assert_eq!(optimized, vec![Pixel { x: 0, y: 0, r: 10, g: 20, b: 30, big: true }]);
}

#[test]
fn quad_with_one_differing_color_passes_through() {
    let pixels = vec![
        colored(0, 0, 10, 20, 30),
        colored(1, 0, 10, 20, 30),
        colored(0, 1, 10, 20, 30),
        colored(1, 1, 99, 20, 30),
    ];
    let optimized = optimize_pixels(&pixels);
    assert_eq!(optimized.len(), 4);
    for (i, p) in optimized.iter().enumerate() {
        assert!(!p.big);
        assert_eq!((p.x, p.y), (pixels[i].x, pixels[i].y));
        assert_eq!((p.r, p.g, p.b), (pixels[i].r, pixels[i].g, pixels[i].b));
    }
}

#[test]
fn output_never_longer_than_input() {
    let pixels = vec![
        colored(0, 0, 1, 1, 1),
        colored(1, 0, 1, 1, 1),
        colored(0, 1, 1, 1, 1),
        colored(1, 1, 1, 1, 1),
        colored(5, 5, 2, 2, 2),
    ];
    let optimized = optimize_pixels(&pixels);
    assert_eq!(optimized.len(), 2);
    assert_eq!(optimized[0], Pixel { x: 0, y: 0, r: 1, g: 1, b: 1, big: true });
    assert_eq!(optimized[1], colored(5, 5, 2, 2, 2));
}

#[test]
fn no_quad_keeps_length() {
    let pixels = vec![
        colored(0, 0, 1, 1, 1),
        colored(2, 0, 1, 1, 1),
        colored(4, 0, 1, 1, 1),
    ];
    let optimized = optimize_pixels(&pixels);
    assert_eq!(optimized.len(), 3);
    assert!(optimized.iter().all(|p| !p.big));
}

#[test]
fn merge_is_greedy_in_encounter_order() {
    // The three neighbors come before their anchor, so each has
    // already passed through by the time the anchor merges: the
    // anchor still becomes big, but nothing is removed.
    let pixels = vec![
        colored(1, 0, 7, 7, 7),
        colored(0, 1, 7, 7, 7),
        colored(1, 1, 7, 7, 7),
        colored(0, 0, 7, 7, 7),
    ];
    let optimized = optimize_pixels(&pixels);
    assert_eq!(optimized.len(), 4);
    assert!(!optimized[0].big);
    assert!(!optimized[1].big);
    assert!(!optimized[2].big);
    assert!(optimized[3].big);
    assert_eq!((optimized[3].x, optimized[3].y), (0, 0));
}

#[test]
fn quad_free_output_is_stable_under_reoptimization() {
    let pixels = vec![
        colored(0, 0, 1, 1, 1),
        colored(2, 0, 1, 1, 1),
        colored(4, 0, 2, 2, 2),
    ];
    let once = optimize_pixels(&pixels);
    let twice = optimize_pixels(&once);
    assert_eq!(once, twice);
}

#[test]
fn consumed_neighbor_is_not_merged_again() {
    // (0,1) merges first and consumes (1,1); the quad anchored at
    // (1,0) is complete in the input but reuses the consumed (1,1),
    // so it must not merge: merged blocks never overlap.
    let pixels = vec![
        colored(0, 1, 7, 7, 7),
        colored(1, 1, 7, 7, 7),
        colored(0, 2, 7, 7, 7),
        colored(1, 2, 7, 7, 7),
        colored(1, 0, 7, 7, 7),
        colored(2, 0, 7, 7, 7),
        colored(2, 1, 7, 7, 7),
    ];
    let optimized = optimize_pixels(&pixels);
    assert_eq!(
        optimized,
        vec![
            Pixel { x: 0, y: 1, r: 7, g: 7, b: 7, big: true },
            colored(1, 0, 7, 7, 7),
            colored(2, 0, 7, 7, 7),
            colored(2, 1, 7, 7, 7),
        ]
    );
}

#[test]
fn merged_anchor_is_not_reused_as_neighbor() {
    // (1,1) merges as an anchor; the later quad anchored at (0,0)
    // would reuse (1,1) as its diagonal neighbor and must not merge.
    let pixels = vec![
        colored(1, 1, 3, 3, 3),
        colored(2, 1, 3, 3, 3),
        colored(1, 2, 3, 3, 3),
        colored(2, 2, 3, 3, 3),
        colored(0, 0, 3, 3, 3),
        colored(1, 0, 3, 3, 3),
        colored(0, 1, 3, 3, 3),
    ];
    let optimized = optimize_pixels(&pixels);
    assert_eq!(
        optimized,
        vec![
            Pixel { x: 1, y: 1, r: 3, g: 3, b: 3, big: true },
            colored(0, 0, 3, 3, 3),
            colored(1, 0, 3, 3, 3),
            colored(0, 1, 3, 3, 3),
        ]
    );
}

#[test]
fn pixels_on_the_last_row_and_column_pass_through() {
    let pixels = vec![
        colored(0xffff, 0xffff, 1, 1, 1),
        colored(0xffff, 0, 2, 2, 2),
        colored(0, 0xffff, 3, 3, 3),
    ];
    let optimized = optimize_pixels(&pixels);
    assert_eq!(optimized, pixels);
}

fn painted_cells(pixels: &[Pixel]) -> std::collections::BTreeSet<(u16, u16, u16, u16, u16)> {
    let mut cells = std::collections::BTreeSet::new();
    for p in pixels {
        cells.insert((p.x, p.y, p.r, p.g, p.b));
        if p.big {
            cells.insert((p.x + 1, p.y, p.r, p.g, p.b));
            cells.insert((p.x, p.y + 1, p.r, p.g, p.b));
            cells.insert((p.x + 1, p.y + 1, p.r, p.g, p.b));
        }
    }
    cells
}

#[test]
fn adjacent_quads_merge_into_disjoint_blocks() {
    let pixels = vec![
        colored(0, 0, 9, 9, 9),
        colored(1, 0, 9, 9, 9),
        colored(2, 0, 9, 9, 9),
        colored(3, 0, 9, 9, 9),
        colored(0, 1, 9, 9, 9),
        colored(1, 1, 9, 9, 9),
        colored(2, 1, 9, 9, 9),
        colored(3, 1, 9, 9, 9),
    ];
    let optimized = optimize_pixels(&pixels);
    assert_eq!(
        optimized,
        vec![
            Pixel { x: 0, y: 0, r: 9, g: 9, b: 9, big: true },
            Pixel { x: 2, y: 0, r: 9, g: 9, b: 9, big: true },
        ]
    );
    let big_blocks: Vec<_> = optimized
        .iter()
        .filter(|p| p.big)
        .map(|p| painted_cells(std::slice::from_ref(p)))
        .collect();
    for (i, a) in big_blocks.iter().enumerate() {
        for b in &big_blocks[i + 1..] {
            assert!(a.is_disjoint(b));
        }
    }
    assert_eq!(painted_cells(&optimized), painted_cells(&pixels));
}

#[test]
fn optimization_is_lossless_over_painted_cells() {
    let pixels = vec![
        colored(0, 0, 5, 5, 5),
        colored(1, 0, 5, 5, 5),
        colored(0, 1, 5, 5, 5),
        colored(1, 1, 5, 5, 5),
        colored(2, 1, 8, 8, 8),
        colored(7, 7, 5, 5, 5),
    ];
    let optimized = optimize_pixels(&pixels);
    assert_eq!(painted_cells(&optimized), painted_cells(&pixels));
    assert!(optimized.len() < pixels.len());
}

#[test]
fn empty_input_gives_empty_output() {
    let optimized = optimize_pixels(&Vec::new());
    assert!(optimized.is_empty());
}

#[test]
fn overlapping_quads_do_not_double_merge() {
    // A 2x3 strip: the first quad consumes (1,0), (0,1), (1,1); the
    // remaining two pixels no longer complete a quad of unmerged
    // pixels.
    let pixels = vec![
        colored(0, 0, 5, 5, 5),
        colored(1, 0, 5, 5, 5),
        colored(0, 1, 5, 5, 5),
        colored(1, 1, 5, 5, 5),
        colored(0, 2, 5, 5, 5),
        colored(1, 2, 5, 5, 5),
    ];
    let optimized = optimize_pixels(&pixels);
    assert_eq!(optimized.len(), 3);
    assert_eq!(optimized[0], Pixel { x: 0, y: 0, r: 5, g: 5, b: 5, big: true });
    assert_eq!(optimized[1], colored(0, 2, 5, 5, 5));
    assert_eq!(optimized[2], colored(1, 2, 5, 5, 5));
}
