use mondrian::PaletteColor;
use mondrian::Rect;
use mondrian::colorize;
use mondrian::candidate_positions;
use mondrian::generate_partition;
use mondrian::generate_partition_with;
use mondrian::split_on_x;
use mondrian::split_on_y;
use mondrian::split_squares;

fn white_rect(left: i64, right: i64, bottom: i64, top: i64) -> Rect {
    Rect { left, right, bottom, top, color: PaletteColor::White }
}

fn interiors_disjoint(a: &Rect, b: &Rect) -> bool {
    a.right <= b.left || b.right <= a.left || a.top <= b.bottom || b.top <= a.bottom
}

fn contained(outer: &Rect, inner: &Rect) -> bool {
    outer.left <= inner.left
        && inner.right <= outer.right
        && outer.bottom <= inner.bottom
        && inner.top <= outer.top
}

#[test]
fn base_case_returns_single_canvas_rect() {
    let positions: Vec<i64> = Vec::new();
    let rects = generate_partition_with(1000, &positions, 42);
    assert_eq!(rects.len(), 1);
    let r = rects[0];
    assert_eq!(r.left, -500);
    assert_eq!(r.right, 500);
    assert_eq!(r.bottom, -500);
    assert_eq!(r.top, 500);
    // center (0, 0), width 1000, height 1000
    assert_eq!(r.left + r.right, 0);
    assert_eq!(r.bottom + r.top, 0);
    assert_eq!(r.right - r.left, 1000);
    assert_eq!(r.top - r.bottom, 1000);
    assert_eq!(r.color, PaletteColor::White);
}

#[test]
fn generation_is_deterministic() {
    let a = generate_partition(1000, 50, 42);
    let b = generate_partition(1000, 50, 42);
    assert_eq!(a, b);
    let ca = colorize(&a, 42);
    let cb = colorize(&b, 42);
    assert_eq!(ca, cb);
}

#[test]
fn area_is_conserved() {
    for seed in [42u64, 7, 123, 2024] {
        let rects = generate_partition(1000, 50, seed);
        let total: i128 = rects
            .iter()
            .map(|r| (r.right - r.left) as i128 * (r.top - r.bottom) as i128)
            .sum();
        assert_eq!(total, 1000 * 1000);
    }
}

#[test]
fn interiors_never_overlap() {
    for seed in [42u64, 7] {
        let rects = generate_partition(1000, 50, seed);
        for i in 0..rects.len() {
            for j in (i + 1)..rects.len() {
                assert!(interiors_disjoint(&rects[i], &rects[j]));
            }
        }
    }
}

#[test]
fn every_rect_lies_inside_canvas_with_positive_extent() {
    let canvas = white_rect(-500, 500, -500, 500);
    let rects = generate_partition(1000, 50, 42);
    for r in &rects {
        assert!(contained(&canvas, r));
        assert!(r.left < r.right);
        assert!(r.bottom < r.top);
    }
}

#[test]
fn split_on_x_tiles_parent_exactly() {
    let parent = Rect { left: -100, right: 60, bottom: -30, top: 50, color: PaletteColor::Red };
    let children = split_on_x(&parent, 20);
    assert_eq!(children.len(), 2);
    assert_eq!(children[0], white_rect(-100, 20, -30, 50));
    assert_eq!(children[1], white_rect(20, 60, -30, 50));
    // contained in parent, no gap, no overlap, widths sum to parent's
    assert!(contained(&parent, &children[0]));
    assert!(contained(&parent, &children[1]));
    assert!(interiors_disjoint(&children[0], &children[1]));
    assert_eq!(children[0].right, children[1].left);
    let w0 = children[0].right - children[0].left;
    let w1 = children[1].right - children[1].left;
    assert_eq!(w0 + w1, parent.right - parent.left);
}

#[test]
fn split_on_y_tiles_parent_exactly() {
    let parent = Rect { left: -100, right: 60, bottom: -30, top: 50, color: PaletteColor::Blue };
    let children = split_on_y(&parent, 10);
    assert_eq!(children.len(), 2);
    // top child first, then bottom child
    assert_eq!(children[0], white_rect(-100, 60, 10, 50));
    assert_eq!(children[1], white_rect(-100, 60, -30, 10));
    assert!(contained(&parent, &children[0]));
    assert!(contained(&parent, &children[1]));
    assert!(interiors_disjoint(&children[0], &children[1]));
    assert_eq!(children[1].top, children[0].bottom);
    let h0 = children[0].top - children[0].bottom;
    let h1 = children[1].top - children[1].bottom;
    assert_eq!(h0 + h1, parent.top - parent.bottom);
}

#[test]
fn candidate_positions_are_evenly_spaced() {
    let positions = candidate_positions(1000, 50);
    assert_eq!(positions.len(), 20);
    assert_eq!(positions[0], -500);
    assert_eq!(positions[19], 450);
    for (i, p) in positions.iter().enumerate() {
        assert_eq!(*p, -500 + 50 * i as i64);
    }
    // a spacing wider than the canvas leaves a single candidate
    let wide = candidate_positions(100, 1000);
    assert_eq!(wide, vec![-50]);
    // an odd canvas still spans exactly its own size
    let odd = candidate_positions(7, 3);
    assert_eq!(odd, vec![-3, 0, 3]);
}

#[test]
fn split_squares_without_loci_reverses_the_sequence() {
    let a = white_rect(-500, 0, -500, 500);
    let b = white_rect(0, 500, -500, 500);
    let out = split_squares(&vec![a, b], (None, None), 42);
    assert_eq!(out, vec![b, a]);
}

#[test]
fn splits_actually_happen_under_the_real_stream() {
    // a constant pseudo-random stream would leave the canvas unsplit
    let rects = generate_partition(1000, 50, 42);
    assert!(rects.len() > 1);
}

#[test]
fn generation_leaves_every_rect_white() {
    for seed in [42u64, 7] {
        let rects = generate_partition(1000, 50, seed);
        for r in &rects {
            assert_eq!(r.color, PaletteColor::White);
        }
    }
}

#[test]
fn colorize_keeps_geometry_and_length() {
    let rects = generate_partition(1000, 50, 42);
    let colored = colorize(&rects, 42);
    assert_eq!(colored.len(), rects.len());
    for (before, after) in rects.iter().zip(colored.iter()) {
        assert_eq!(before.left, after.left);
        assert_eq!(before.right, after.right);
        assert_eq!(before.bottom, after.bottom);
        assert_eq!(before.top, after.top);
    }
}

#[test]
fn colorize_recolors_some_rect_for_some_seed() {
    // a constant pseudo-random stream would never pass the color threshold
    let mut changed = false;
    for seed in 1u64..=20 {
        let rects = generate_partition(1000, 50, seed);
        let colored = colorize(&rects, seed);
        if rects
            .iter()
            .zip(colored.iter())
            .any(|(before, after)| before.color != after.color)
        {
            changed = true;
        }
    }
    assert!(changed);
}

#[test]
fn different_seeds_give_different_pictures() {
    let a = colorize(&generate_partition(1000, 50, 42), 42);
    let b = colorize(&generate_partition(1000, 50, 7), 7);
    assert_ne!(a, b);
}
