//! The partition generator: the seeded pass that turns one canvas-spanning
//! rectangle into a gapless, non-overlapping partition by repeated guillotine
//! cuts.
//!
//! One outer iteration consumes one candidate coordinate `p`, re-derives a
//! fresh pseudo-random sub-stream from the unchanging seed, and walks the
//! current rectangle sequence in reverse order. Each rectangle draws one
//! sample per present axis; if `p` falls strictly inside the rectangle's
//! horizontal span and the X sample exceeds the split threshold of one half,
//! the rectangle is replaced by its vertical split at `p`; otherwise the Y
//! axis is tried the same way; otherwise the rectangle passes through
//! unchanged. At most one axis splits a given rectangle per iteration, with
//! the X axis taking priority, so every pass keeps the sequence an exact
//! partition of the canvas.

use crate::palette::PaletteColor;
use crate::palette::SAMPLE_ONE;
use crate::rect::Rect;
use crate::rect::spec_split_on_x;
use crate::rect::spec_split_on_y;
use crate::rect::split_on_x;
use crate::rect::split_on_y;
use crate::stream::draw_samples;
use crate::stream::sample_at;
use vstd::prelude::*;

verus! {

/// Largest accepted canvas size, in canvas units. It keeps every rectangle
/// count and every area sum comfortably inside the machine's integer ranges:
/// a partition of a canvas of size `s` holds at most `s * s` rectangles.
pub const MAX_CANVAS: i64 = 0x8000;

/// A sample exceeds the split threshold of one half when the fraction
/// `sample / SAMPLE_ONE` is strictly above `1 / 2`.
pub open spec fn spec_exceeds_split_threshold(sample: u64) -> bool {
    2 * (sample as int) > SAMPLE_ONE as int
}

/// How many samples one rectangle consumes in one pass: one per present axis.
pub open spec fn locus_sample_count(locus: (Option<i64>, Option<i64>)) -> nat {
    (match locus.0 {
        Option::Some(_) => 1nat,
        Option::None => 0nat,
    }) + (match locus.1 {
        Option::Some(_) => 1nat,
        Option::None => 0nat,
    })
}

/// What one pass makes of the single rectangle `s`: its X split if the X
/// coordinate is present, strictly inside, and the X sample (at stream
/// position `base`) exceeds the threshold; otherwise its Y split under the
/// same test with the Y sample; otherwise `s` unchanged.
pub open spec fn spec_step(s: Rect, locus: (Option<i64>, Option<i64>), seed: u64, base: nat) -> Seq<
    Rect,
> {
    match locus {
        (Option::None, Option::None) => seq![s],
        (Option::Some(x), Option::None) => {
            if s.x_strictly_inside(x) && spec_exceeds_split_threshold(sample_at(seed, base)) {
                spec_split_on_x(s, x)
            } else {
                seq![s]
            }
        },
        (Option::None, Option::Some(y)) => {
            if s.y_strictly_inside(y) && spec_exceeds_split_threshold(sample_at(seed, base)) {
                spec_split_on_y(s, y)
            } else {
                seq![s]
            }
        },
        (Option::Some(x), Option::Some(y)) => {
            if s.x_strictly_inside(x) && spec_exceeds_split_threshold(sample_at(seed, base)) {
                spec_split_on_x(s, x)
            } else if s.y_strictly_inside(y) && spec_exceeds_split_threshold(
                sample_at(seed, base + 1),
            ) {
                spec_split_on_y(s, y)
            } else {
                seq![s]
            }
        },
    }
}

/// The output of one pass after its first `j` steps. The pass walks the
/// input in reverse, so step number `j` (counted from zero) reads the input
/// rectangle at index `len - 1 - j` and the samples at stream positions
/// `c * j` and up, where `c` is the per-rectangle sample count.
pub open spec fn spec_split_prefix(
    squares: Seq<Rect>,
    locus: (Option<i64>, Option<i64>),
    seed: u64,
    j: nat,
) -> Seq<Rect>
    decreases j,
{
    if j == 0 {
        Seq::empty()
    } else {
        spec_split_prefix(squares, locus, seed, (j - 1) as nat) + spec_step(
            squares[squares.len() - j],
            locus,
            seed,
            locus_sample_count(locus) * ((j - 1) as nat),
        )
    }
}

/// The full output of one pass over `squares`.
pub open spec fn spec_split_squares(
    squares: Seq<Rect>,
    locus: (Option<i64>, Option<i64>),
    seed: u64,
) -> Seq<Rect> {
    spec_split_prefix(squares, locus, seed, squares.len())
}

/// One pass of the generator: walk `squares` in reverse under a fresh
/// pseudo-random sub-stream derived from `seed`, splitting each rectangle on
/// at most one axis of `locus` as `spec_step` says, and return the new
/// sequence.
pub fn split_squares(
    squares: &Vec<Rect>,
    locus: (Option<i64>, Option<i64>),
    seed: u64,
) -> (new_squares: Vec<Rect>)
    requires
        2 * squares@.len() <= usize::MAX,
    ensures
        new_squares@ == spec_split_squares(squares@, locus, seed),
{
    let n = squares.len();
    let c: usize = match locus {
        (Option::None, Option::None) => 0,
        (Option::Some(_), Option::None) => 1,
        (Option::None, Option::Some(_)) => 1,
        (Option::Some(_), Option::Some(_)) => 2,
    };
    proof {
        assert(c == locus_sample_count(locus));
        assert(n * c <= 2 * n) by (nonlinear_arith)
            requires
                c <= 2,
        ;
    }
    let samples = draw_samples(seed, n * c);
    let mut new_squares: Vec<Rect> = Vec::new();
    let mut j: usize = 0;
    while j < n
        invariant
            j <= n,
            n == squares@.len(),
            c == locus_sample_count(locus),
            c <= 2,
            2 * n <= usize::MAX,
            samples@.len() == n * c,
            forall|t: int| 0 <= t < samples@.len() ==> samples@[t] == sample_at(seed, t as nat),
            forall|t: int| 0 <= t < samples@.len() ==> samples@[t] < SAMPLE_ONE,
            new_squares@ == spec_split_prefix(squares@, locus, seed, j as nat),
        decreases n - j,
    {
        let s = squares[n - 1 - j];
        let ghost prev = new_squares@;
        let ghost base_nat = locus_sample_count(locus) * (j as nat);
        match locus {
            (Option::None, Option::None) => {
                new_squares.push(s);
                proof {
                    assert(spec_step(s, locus, seed, base_nat) =~= seq![s]);
                }
            },
            (Option::Some(x), Option::None) => {
                proof {
                    assert(n * c == n) by (nonlinear_arith)
                        requires
                            c == 1,
                    ;
                    assert(base_nat == j as nat) by (nonlinear_arith)
                        requires
                            base_nat == locus_sample_count(locus) * (j as nat),
                            locus_sample_count(locus) == 1,
                    ;
                }
                let base: usize = j;
                let k = samples[base];
                if s.left < x && x < s.right && 2 * k > SAMPLE_ONE {
                    let pair = split_on_x(&s, x);
                    new_squares.push(pair[0]);
                    new_squares.push(pair[1]);
                } else {
                    new_squares.push(s);
                }
            },
            (Option::None, Option::Some(y)) => {
                proof {
                    assert(n * c == n) by (nonlinear_arith)
                        requires
                            c == 1,
                    ;
                    assert(base_nat == j as nat) by (nonlinear_arith)
                        requires
                            base_nat == locus_sample_count(locus) * (j as nat),
                            locus_sample_count(locus) == 1,
                    ;
                }
                let base: usize = j;
                let k = samples[base];
                if s.bottom < y && y < s.top && 2 * k > SAMPLE_ONE {
                    let pair = split_on_y(&s, y);
                    new_squares.push(pair[0]);
                    new_squares.push(pair[1]);
                } else {
                    new_squares.push(s);
                }
            },
            (Option::Some(x), Option::Some(y)) => {
                proof {
                    assert(n * c == 2 * n) by (nonlinear_arith)
                        requires
                            c == 2,
                    ;
                    assert(base_nat == 2 * (j as nat)) by (nonlinear_arith)
                        requires
                            base_nat == locus_sample_count(locus) * (j as nat),
                            locus_sample_count(locus) == 2,
                    ;
                }
                let base: usize = 2 * j;
                let kx = samples[base];
                if s.left < x && x < s.right && 2 * kx > SAMPLE_ONE {
                    let pair = split_on_x(&s, x);
                    new_squares.push(pair[0]);
                    new_squares.push(pair[1]);
                } else {
                    let ky = samples[base + 1];
                    if s.bottom < y && y < s.top && 2 * ky > SAMPLE_ONE {
                        let pair = split_on_y(&s, y);
                        new_squares.push(pair[0]);
                        new_squares.push(pair[1]);
                    } else {
                        new_squares.push(s);
                    }
                }
            },
        }
        proof {
            assert(new_squares@ =~= prev + spec_step(s, locus, seed, base_nat));
            assert(s == squares@[squares@.len() - ((j + 1) as nat)]);
            assert(spec_split_prefix(squares@, locus, seed, (j + 1) as nat) == spec_split_prefix(
                squares@,
                locus,
                seed,
                j as nat,
            ) + spec_step(s, locus, seed, base_nat));
        }
        j = j + 1;
    }
    new_squares
}

/// Sum of `width * height` over a rectangle sequence.
pub open spec fn sum_areas(squares: Seq<Rect>) -> int
    decreases squares.len(),
{
    if squares.len() == 0 {
        0
    } else {
        squares[0].area() + sum_areas(squares.drop_first())
    }
}

/// `r` lies inside one of the rectangles of `squares` with index in
/// `[lo, hi)`.
pub open spec fn covered_by(r: Rect, squares: Seq<Rect>, lo: int, hi: int) -> bool {
    exists|i: int| lo <= i < hi && (#[trigger] squares[i]).contains_rect(r)
}

/// The sequence is an exact partition of `canvas`: every rectangle is
/// well-formed and lies inside the canvas, the open interiors are pairwise
/// disjoint, and the areas sum exactly to the canvas area.
pub open spec fn partition_wf(squares: Seq<Rect>, canvas: Rect) -> bool {
    &&& forall|i: int| 0 <= i < squares.len() ==> (#[trigger] squares[i]).is_wf()
    &&& forall|i: int| 0 <= i < squares.len() ==> canvas.contains_rect(#[trigger] squares[i])
    &&& forall|i1: int, i2: int|
        0 <= i1 < i2 < squares.len() ==> (#[trigger] squares[i1]).disjoint_from(
            #[trigger] squares[i2],
        )
    &&& sum_areas(squares) == canvas.area()
}

proof fn lemma_sum_areas_single(r: Rect)
    ensures
        sum_areas(seq![r]) == r.area(),
{
    assert(seq![r].drop_first() =~= Seq::<Rect>::empty());
    assert(sum_areas(Seq::<Rect>::empty()) == 0);
}

proof fn lemma_sum_areas_pair(a: Rect, b: Rect)
    ensures
        sum_areas(seq![a, b]) == a.area() + b.area(),
{
    assert(seq![a, b].drop_first() =~= seq![b]);
    lemma_sum_areas_single(b);
}

proof fn lemma_sum_areas_concat(a: Seq<Rect>, b: Seq<Rect>)
    ensures
        sum_areas(a + b) == sum_areas(a) + sum_areas(b),
    decreases a.len(),
{
    if a.len() == 0 {
        assert(a + b =~= b);
    } else {
        assert((a + b).drop_first() =~= a.drop_first() + b);
        assert((a + b)[0] == a[0]);
        lemma_sum_areas_concat(a.drop_first(), b);
    }
}

proof fn lemma_sum_areas_suffix(squares: Seq<Rect>, i: int)
    requires
        0 <= i < squares.len(),
    ensures
        sum_areas(squares.subrange(i, squares.len() as int)) == squares[i].area() + sum_areas(
            squares.subrange(i + 1, squares.len() as int),
        ),
{
    let tail = squares.subrange(i, squares.len() as int);
    assert(tail.drop_first() =~= squares.subrange(i + 1, squares.len() as int));
    assert(tail[0] == squares[i]);
}

/// Every rectangle of a well-formed sequence has area at least one, so the
/// area sum bounds the rectangle count.
proof fn lemma_sum_areas_at_least_len(squares: Seq<Rect>)
    requires
        forall|i: int| 0 <= i < squares.len() ==> (#[trigger] squares[i]).is_wf(),
    ensures
        sum_areas(squares) >= squares.len(),
    decreases squares.len(),
{
    if squares.len() > 0 {
        assert(squares[0].area() >= 1) by (nonlinear_arith)
            requires
                squares[0].area() == squares[0].width() * squares[0].height(),
                squares[0].width() >= 1,
                squares[0].height() >= 1,
        ;
        let tail = squares.drop_first();
        assert forall|i: int| 0 <= i < tail.len() implies (#[trigger] tail[i]).is_wf() by {
            assert(tail[i] == squares[i + 1]);
        }
        lemma_sum_areas_at_least_len(tail);
    }
}

/// What one step makes of one well-formed rectangle tiles that rectangle:
/// one or two well-formed pieces, contained in it, pairwise disjoint, with
/// areas summing exactly to its area.
proof fn lemma_step_tiles(s: Rect, locus: (Option<i64>, Option<i64>), seed: u64, base: nat)
    requires
        s.is_wf(),
    ensures
        1 <= spec_step(s, locus, seed, base).len() <= 2,
        forall|k: int|
            0 <= k < spec_step(s, locus, seed, base).len() ==> (#[trigger] spec_step(
                s,
                locus,
                seed,
                base,
            )[k]).is_wf(),
        forall|k: int|
            0 <= k < spec_step(s, locus, seed, base).len() ==> s.contains_rect(
                #[trigger] spec_step(s, locus, seed, base)[k],
            ),
        forall|k1: int, k2: int|
            0 <= k1 < k2 < spec_step(s, locus, seed, base).len() ==> (#[trigger] spec_step(
                s,
                locus,
                seed,
                base,
            )[k1]).disjoint_from(#[trigger] spec_step(s, locus, seed, base)[k2]),
        sum_areas(spec_step(s, locus, seed, base)) == s.area(),
{
    let out = spec_step(s, locus, seed, base);
    match locus {
        (Option::None, Option::None) => {
            lemma_sum_areas_single(s);
        },
        (Option::Some(x), Option::None) => {
            if s.x_strictly_inside(x) && spec_exceeds_split_threshold(sample_at(seed, base)) {
                crate::rect::lemma_split_on_x_tiles(s, x);
                lemma_sum_areas_pair(out[0], out[1]);
            } else {
                lemma_sum_areas_single(s);
            }
        },
        (Option::None, Option::Some(y)) => {
            if s.y_strictly_inside(y) && spec_exceeds_split_threshold(sample_at(seed, base)) {
                crate::rect::lemma_split_on_y_tiles(s, y);
                lemma_sum_areas_pair(out[0], out[1]);
            } else {
                lemma_sum_areas_single(s);
            }
        },
        (Option::Some(x), Option::Some(y)) => {
            if s.x_strictly_inside(x) && spec_exceeds_split_threshold(sample_at(seed, base)) {
                crate::rect::lemma_split_on_x_tiles(s, x);
                lemma_sum_areas_pair(out[0], out[1]);
            } else if s.y_strictly_inside(y) && spec_exceeds_split_threshold(
                sample_at(seed, base + 1),
            ) {
                crate::rect::lemma_split_on_y_tiles(s, y);
                lemma_sum_areas_pair(out[0], out[1]);
            } else {
                lemma_sum_areas_single(s);
            }
        },
    }
}

/// The first `j` steps of one pass keep the output well-formed, covered by
/// the last `j` input rectangles, pairwise disjoint, and area-preserving.
proof fn lemma_split_prefix_partition(
    squares: Seq<Rect>,
    locus: (Option<i64>, Option<i64>),
    seed: u64,
    j: nat,
)
    requires
        j <= squares.len(),
        forall|i: int| 0 <= i < squares.len() ==> (#[trigger] squares[i]).is_wf(),
        forall|i1: int, i2: int|
            0 <= i1 < i2 < squares.len() ==> (#[trigger] squares[i1]).disjoint_from(
                #[trigger] squares[i2],
            ),
    ensures
        forall|k: int|
            0 <= k < spec_split_prefix(squares, locus, seed, j).len() ==> (
            #[trigger] spec_split_prefix(squares, locus, seed, j)[k]).is_wf(),
        forall|k: int|
            0 <= k < spec_split_prefix(squares, locus, seed, j).len() ==> covered_by(
                #[trigger] spec_split_prefix(squares, locus, seed, j)[k],
                squares,
                squares.len() - j,
                squares.len() as int,
            ),
        forall|k1: int, k2: int|
            0 <= k1 < k2 < spec_split_prefix(squares, locus, seed, j).len() ==> (
            #[trigger] spec_split_prefix(squares, locus, seed, j)[k1]).disjoint_from(
                #[trigger] spec_split_prefix(squares, locus, seed, j)[k2],
            ),
        sum_areas(spec_split_prefix(squares, locus, seed, j)) == sum_areas(
            squares.subrange(squares.len() - j, squares.len() as int),
        ),
    decreases j,
{
    let out = spec_split_prefix(squares, locus, seed, j);
    if j == 0 {
        assert(squares.subrange(squares.len() as int, squares.len() as int) =~= Seq::<
            Rect,
        >::empty());
    } else {
        let jm = (j - 1) as nat;
        lemma_split_prefix_partition(squares, locus, seed, jm);
        let prev = spec_split_prefix(squares, locus, seed, jm);
        let idx = squares.len() - j;
        let s = squares[idx];
        let base = locus_sample_count(locus) * jm;
        let chunk = spec_step(s, locus, seed, base);
        lemma_step_tiles(s, locus, seed, base);
        assert(out == prev + chunk);
        lemma_sum_areas_concat(prev, chunk);
        lemma_sum_areas_suffix(squares, idx);
        assert(squares.subrange(idx + 1, squares.len() as int) =~= squares.subrange(
            squares.len() - jm,
            squares.len() as int,
        ));
        assert forall|k: int| 0 <= k < out.len() implies (#[trigger] out[k]).is_wf() by {
            if k < prev.len() {
                assert(out[k] == prev[k]);
            } else {
                assert(out[k] == chunk[k - prev.len()]);
            }
        }
        assert forall|k: int| 0 <= k < out.len() implies covered_by(
            #[trigger] out[k],
            squares,
            squares.len() - j,
            squares.len() as int,
        ) by {
            if k < prev.len() {
                assert(out[k] == prev[k]);
                assert(covered_by(prev[k], squares, squares.len() - jm, squares.len() as int));
                let w = choose|i: int|
                    squares.len() - jm <= i < squares.len() && (#[trigger] squares[i]).contains_rect(
                        prev[k],
                    );
                assert(squares.len() - j <= w < squares.len() && squares[w].contains_rect(out[k]));
            } else {
                assert(out[k] == chunk[k - prev.len()]);
                assert(s.contains_rect(out[k]));
                assert(squares.len() - j <= idx < squares.len() && squares[idx].contains_rect(
                    out[k],
                ));
            }
        }
        assert forall|k1: int, k2: int| 0 <= k1 < k2 < out.len() implies (
        #[trigger] out[k1]).disjoint_from(#[trigger] out[k2]) by {
            if k2 < prev.len() {
                assert(out[k1] == prev[k1] && out[k2] == prev[k2]);
            } else if k1 >= prev.len() {
                assert(out[k1] == chunk[k1 - prev.len()] && out[k2] == chunk[k2 - prev.len()]);
            } else {
                assert(out[k1] == prev[k1] && out[k2] == chunk[k2 - prev.len()]);
                assert(covered_by(prev[k1], squares, squares.len() - jm, squares.len() as int));
                let w = choose|i: int|
                    squares.len() - jm <= i < squares.len() && (#[trigger] squares[i]).contains_rect(
                        prev[k1],
                    );
                assert(squares[idx].disjoint_from(squares[w]));
                assert(s.contains_rect(out[k2]));
                crate::rect::lemma_contained_disjoint(squares[w], squares[idx], out[k1], out[k2]);
            }
        }
    }
}

/// Partition preservation law: one whole pass of the generator turns an
/// exact partition of the canvas into an exact partition of the canvas —
/// whatever the candidate coordinates and whatever the seed.
pub proof fn lemma_split_squares_preserves_partition(
    squares: Seq<Rect>,
    locus: (Option<i64>, Option<i64>),
    seed: u64,
    canvas: Rect,
)
    requires
        partition_wf(squares, canvas),
    ensures
        partition_wf(spec_split_squares(squares, locus, seed), canvas),
{
    lemma_split_prefix_partition(squares, locus, seed, squares.len());
    let out = spec_split_squares(squares, locus, seed);
    assert forall|k: int| 0 <= k < out.len() implies canvas.contains_rect(#[trigger] out[k]) by {
        assert(covered_by(out[k], squares, 0, squares.len() as int));
        let w = choose|i: int|
            0 <= i < squares.len() && (#[trigger] squares[i]).contains_rect(out[k]);
        assert(canvas.contains_rect(squares[w]));
    }
    assert(squares.subrange(0, squares.len() as int) =~= squares);
}

/// Half the canvas size, rounded down: the canvas spans the coordinate
/// interval `[-half, canvas_size - half]` on both axes.
pub open spec fn canvas_half(canvas_size: i64) -> int {
    canvas_size as int / 2
}

/// The single rectangle spanning the whole canvas, in the default color.
pub open spec fn canvas_rect(canvas_size: i64) -> Rect {
    Rect {
        left: (-canvas_half(canvas_size)) as i64,
        right: (canvas_size - canvas_half(canvas_size)) as i64,
        bottom: (-canvas_half(canvas_size)) as i64,
        top: (canvas_size - canvas_half(canvas_size)) as i64,
        color: PaletteColor::White,
    }
}

pub proof fn lemma_canvas_rect_props(canvas_size: i64)
    requires
        0 < canvas_size,
    ensures
        canvas_rect(canvas_size).is_wf(),
        canvas_rect(canvas_size).width() == canvas_size,
        canvas_rect(canvas_size).height() == canvas_size,
        canvas_rect(canvas_size).area() == canvas_size * canvas_size,
        canvas_rect(canvas_size).color == PaletteColor::White,
{
    let c = canvas_size as int;
    let h = c / 2;
    vstd::arithmetic::div_mod::lemma_fundamental_div_mod(c, 2);
    vstd::arithmetic::div_mod::lemma_mod_bound(c, 2);
    assert(0 <= h <= c);
    assert(canvas_rect(canvas_size).area() == canvas_size * canvas_size) by (nonlinear_arith)
        requires
            canvas_rect(canvas_size).area() == canvas_rect(canvas_size).width() * canvas_rect(
                canvas_size,
            ).height(),
            canvas_rect(canvas_size).width() == canvas_size,
            canvas_rect(canvas_size).height() == canvas_size,
    ;
}

/// How many candidate coordinates a canvas of size `canvas_size` yields at
/// spacing `step`: the coordinates run from `-half` up in steps of `step`
/// while they stay strictly below `canvas_size - half`.
pub open spec fn spec_candidate_count(canvas_size: i64, step: int) -> int {
    (canvas_size as int + step - 1) / step
}

/// The evenly spaced candidate coordinates spanning the canvas.
pub open spec fn spec_candidate_positions(canvas_size: i64, step: int) -> Seq<i64> {
    Seq::new(
        spec_candidate_count(canvas_size, step) as nat,
        |i: int| (-canvas_half(canvas_size) + i * step) as i64,
    )
}

/// A count `k` with `k * step` at least `c` and `(k - 1) * step` below `c`
/// is the rounded-up quotient of `c` by `step`.
proof fn lemma_count_unique(c: int, s: int, k: int)
    requires
        s >= 1,
        c >= 1,
        k * s >= c,
        (k - 1) * s < c,
    ensures
        k == (c + s - 1) / s,
{
    let q = (c + s - 1) / s;
    let r = (c + s - 1) % s;
    vstd::arithmetic::div_mod::lemma_fundamental_div_mod(c + s - 1, s);
    vstd::arithmetic::div_mod::lemma_mod_bound(c + s - 1, s);
    assert(k >= q) by (nonlinear_arith)
        requires
            k * s >= c,
            c == s * q + r - s + 1,
            0 <= r < s,
            s >= 1,
    ;
    assert(k <= q) by (nonlinear_arith)
        requires
            (k - 1) * s < c,
            c == s * q + r - s + 1,
            0 <= r < s,
            s >= 1,
    ;
}

/// Build the evenly spaced candidate coordinates for a canvas of size
/// `canvas_size`: from `-half` in steps of `step`, strictly below the
/// canvas's upper edge.
pub fn candidate_positions(canvas_size: i64, step: usize) -> (positions: Vec<i64>)
    requires
        0 < canvas_size <= MAX_CANVAS,
        1 <= step,
    ensures
        positions@ == spec_candidate_positions(canvas_size, step as int),
        positions@.len() >= 1,
{
    let mut positions: Vec<i64> = Vec::new();
    let half: i64 = ((canvas_size as u64) / 2) as i64;
    let lo: i64 = -half;
    let hi: i64 = canvas_size - half;
    proof {
        assert(half as int == canvas_half(canvas_size));
        assert(lo as int == -canvas_half(canvas_size));
        assert(hi as int == canvas_size - canvas_half(canvas_size));
        assert(lo < hi);
    }
    if step >= canvas_size as usize {
        positions.push(lo);
        proof {
            lemma_count_unique(canvas_size as int, step as int, 1);
            assert(positions@ =~= spec_candidate_positions(canvas_size, step as int));
        }
    } else {
        let step_i: i64 = step as i64;
        let mut p: i64 = lo;
        while p < hi
            invariant
                1 <= step_i < canvas_size,
                step_i == step as int,
                0 < canvas_size <= MAX_CANVAS,
                lo as int == -canvas_half(canvas_size),
                hi as int == canvas_size - canvas_half(canvas_size),
                lo <= p,
                p as int == lo as int + positions@.len() * step_i,
                positions@.len() >= 1 ==> lo as int + (positions@.len() - 1) * step_i < hi as int,
                forall|t: int|
                    0 <= t < positions@.len() ==> #[trigger] positions@[t] == ((lo as int + t
                        * step_i) as i64),
            decreases hi - p + step_i,
        {
            positions.push(p);
            proof {
                let len = positions@.len() as int;
                assert(len * step_i == (len - 1) * step_i + step_i) by (nonlinear_arith);
            }
            p = p + step_i;
        }
        proof {
            let k = positions@.len() as int;
            assert(k >= 1);
            assert(k * step_i >= canvas_size as int);
            lemma_count_unique(canvas_size as int, step as int, k);
            assert(positions@ =~= spec_candidate_positions(canvas_size, step as int));
        }
    }
    positions
}

/// The partition after the first `n` candidate coordinates have each driven
/// one full pass over the rectangle sequence.
pub open spec fn spec_apply_splits(
    rects: Seq<Rect>,
    positions: Seq<i64>,
    seed: u64,
    n: nat,
) -> Seq<Rect>
    decreases n,
{
    if n == 0 {
        rects
    } else {
        spec_split_squares(
            spec_apply_splits(rects, positions, seed, (n - 1) as nat),
            (Option::Some(positions[n - 1]), Option::Some(positions[n - 1])),
            seed,
        )
    }
}

/// The partition generated from the canvas rectangle by the given candidate
/// coordinates under the given seed.
pub open spec fn spec_generate_partition_with(
    canvas_size: i64,
    positions: Seq<i64>,
    seed: u64,
) -> Seq<Rect> {
    spec_apply_splits(seq![canvas_rect(canvas_size)], positions, seed, positions.len())
}

/// The partition generated from a canvas size, a candidate spacing and a
/// seed.
pub open spec fn spec_generate_partition(canvas_size: i64, step: int, seed: u64) -> Seq<Rect> {
    spec_generate_partition_with(canvas_size, spec_candidate_positions(canvas_size, step), seed)
}

/// Every rectangle of the sequence carries the default white color.
pub open spec fn all_white(squares: Seq<Rect>) -> bool {
    forall|i: int| 0 <= i < squares.len() ==> (#[trigger] squares[i]).color == PaletteColor::White
}

proof fn lemma_split_prefix_white(
    squares: Seq<Rect>,
    locus: (Option<i64>, Option<i64>),
    seed: u64,
    j: nat,
)
    requires
        j <= squares.len(),
        all_white(squares),
    ensures
        all_white(spec_split_prefix(squares, locus, seed, j)),
    decreases j,
{
    if j != 0 {
        let jm = (j - 1) as nat;
        lemma_split_prefix_white(squares, locus, seed, jm);
        let prev = spec_split_prefix(squares, locus, seed, jm);
        let chunk = spec_step(
            squares[squares.len() - j],
            locus,
            seed,
            locus_sample_count(locus) * jm,
        );
        let out = spec_split_prefix(squares, locus, seed, j);
        assert(out == prev + chunk);
        assert forall|k: int| 0 <= k < out.len() implies (#[trigger] out[k]).color
            == PaletteColor::White by {
            if k < prev.len() {
                assert(out[k] == prev[k]);
            } else {
                assert(out[k] == chunk[k - prev.len()]);
            }
        }
    }
}

/// Color law: one pass of the generator keeps an all-white sequence all
/// white — splitting never introduces color, only the colorizer does.
pub proof fn lemma_split_squares_keeps_white(
    squares: Seq<Rect>,
    locus: (Option<i64>, Option<i64>),
    seed: u64,
)
    requires
        all_white(squares),
    ensures
        all_white(spec_split_squares(squares, locus, seed)),
{
    lemma_split_prefix_white(squares, locus, seed, squares.len());
}

/// Base-case law: with no candidate coordinates at all, generation returns
/// exactly the single white canvas-spanning rectangle, whatever the seed.
pub proof fn lemma_generate_empty_positions(canvas_size: i64, seed: u64)
    ensures
        spec_generate_partition_with(canvas_size, Seq::<i64>::empty(), seed) == seq![
            canvas_rect(canvas_size),
        ],
{
}

/// Generate the partition of the canvas cut at the given candidate
/// coordinates: start from the single white canvas-spanning rectangle and
/// run one pass of `split_squares` per coordinate, each pass checking that
/// coordinate on both axes. The result is a function of the arguments alone,
/// and it is always an exact partition: well-formed rectangles inside the
/// canvas, pairwise disjoint interiors, areas summing to the squared canvas
/// size.
pub fn generate_partition_with(canvas_size: i64, positions: &Vec<i64>, seed: u64) -> (rects: Vec<
    Rect,
>)
    requires
        0 < canvas_size <= MAX_CANVAS,
    ensures
        rects@ == spec_generate_partition_with(canvas_size, positions@, seed),
        partition_wf(rects@, canvas_rect(canvas_size)),
        sum_areas(rects@) == canvas_size * canvas_size,
        all_white(rects@),
        rects@.len() >= 1,
{
    let ghost canvas = canvas_rect(canvas_size);
    let ghost init = seq![canvas_rect(canvas_size)];
    let half: i64 = ((canvas_size as u64) / 2) as i64;
    let first = Rect {
        left: -half,
        right: canvas_size - half,
        bottom: -half,
        top: canvas_size - half,
        color: PaletteColor::White,
    };
    let mut rects: Vec<Rect> = Vec::new();
    rects.push(first);
    proof {
        lemma_canvas_rect_props(canvas_size);
        assert(first == canvas_rect(canvas_size));
        assert(rects@ =~= init);
        lemma_sum_areas_single(canvas_rect(canvas_size));
        assert(partition_wf(rects@, canvas));
        assert(canvas.area() <= 0x4000_0000) by (nonlinear_arith)
            requires
                canvas.area() == canvas_size * canvas_size,
                0 < canvas_size <= 0x8000,
        ;
    }
    let mut i: usize = 0;
    while i < positions.len()
        invariant
            i <= positions@.len(),
            0 < canvas_size <= MAX_CANVAS,
            canvas == canvas_rect(canvas_size),
            init == seq![canvas_rect(canvas_size)],
            canvas.area() <= 0x4000_0000,
            rects@ == spec_apply_splits(init, positions@, seed, i as nat),
            partition_wf(rects@, canvas),
            all_white(rects@),
        decreases positions@.len() - i,
    {
        proof {
            lemma_sum_areas_at_least_len(rects@);
            assert(rects@.len() <= 0x4000_0000);
        }
        let p = positions[i];
        let ghost old_rects = rects@;
        rects = split_squares(&rects, (Option::Some(p), Option::Some(p)), seed);
        proof {
            lemma_split_squares_preserves_partition(
                old_rects,
                (Option::Some(p), Option::Some(p)),
                seed,
                canvas,
            );
            lemma_split_squares_keeps_white(old_rects, (Option::Some(p), Option::Some(p)), seed);
            assert(spec_apply_splits(init, positions@, seed, (i + 1) as nat) == spec_split_squares(
                spec_apply_splits(init, positions@, seed, i as nat),
                (Option::Some(positions@[i as int]), Option::Some(positions@[i as int])),
                seed,
            ));
        }
        i = i + 1;
    }
    proof {
        lemma_canvas_rect_props(canvas_size);
        if rects@.len() == 0 {
            assert(sum_areas(rects@) == 0);
            assert(canvas_size * canvas_size >= 1) by (nonlinear_arith)
                requires
                    canvas_size >= 1,
            ;
        }
    }
    rects
}

/// Determinism law: the generated partition is a function of the canvas
/// size, the candidate spacing and the seed alone, so two runs on the same
/// inputs yield identical rectangle sequences, in the same order.
pub proof fn lemma_generation_deterministic(
    canvas_size: i64,
    step: int,
    seed: u64,
    first: Seq<Rect>,
    second: Seq<Rect>,
)
    requires
        first == spec_generate_partition(canvas_size, step, seed),
        second == spec_generate_partition(canvas_size, step, seed),
    ensures
        first == second,
{
}

/// Generate the partition of a canvas of size `canvas_size` cut at evenly
/// spaced candidate coordinates of spacing `step`, under `seed`. Same
/// guarantees as `generate_partition_with`, with the candidate coordinates
/// built by `candidate_positions`.
pub fn generate_partition(canvas_size: i64, step: usize, seed: u64) -> (rects: Vec<Rect>)
    requires
        0 < canvas_size <= MAX_CANVAS,
        1 <= step,
    ensures
        rects@ == spec_generate_partition(canvas_size, step as int, seed),
        partition_wf(rects@, canvas_rect(canvas_size)),
        sum_areas(rects@) == canvas_size * canvas_size,
        all_white(rects@),
        rects@.len() >= 1,
{
    let positions = candidate_positions(canvas_size, step);
    generate_partition_with(canvas_size, &positions, seed)
}

} // verus!
