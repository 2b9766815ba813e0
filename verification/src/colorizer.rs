//! The colorizer: the seeded second pass that recolors a probabilistic
//! subset of the rectangles from the palette, leaving geometry untouched.
//!
//! A single fresh pseudo-random stream is derived from the seed for the
//! whole pass and walked in sequence order: each rectangle draws one sample,
//! and only when that sample exceeds the color threshold of seven tenths is
//! a second sample drawn to pick the new color by the palette weighting.

use crate::palette::PaletteColor;
use crate::palette::SAMPLE_ONE;
use crate::rect::Rect;
use crate::stream::draw_samples;
use crate::stream::sample_at;
use vstd::prelude::*;

verus! {

/// A sample exceeds the color threshold when the fraction
/// `sample / SAMPLE_ONE` is strictly above `7 / 10`.
pub open spec fn spec_exceeds_color_threshold(sample: u64) -> bool {
    10 * (sample as int) > 7 * (SAMPLE_ONE as int)
}

/// `r` with its color replaced by `color`.
pub open spec fn spec_recolor(r: Rect, color: PaletteColor) -> Rect {
    Rect { color, ..r }
}

/// The recolored tail of `squares` from index `i` on, with `used` samples of
/// the stream already consumed by the earlier rectangles. A rectangle whose
/// sample stays at or below the threshold keeps its color and consumes one
/// sample; one whose sample exceeds it takes the weighted palette color of
/// the next sample and consumes two.
pub open spec fn spec_colorize_from(squares: Seq<Rect>, seed: u64, i: int, used: nat) -> Seq<Rect>
    decreases squares.len() - i,
{
    if i < 0 || i >= squares.len() {
        Seq::empty()
    } else {
        if spec_exceeds_color_threshold(sample_at(seed, used)) {
            seq![
                spec_recolor(
                    squares[i],
                    PaletteColor::spec_random_color(sample_at(seed, used + 1)),
                ),
            ] + spec_colorize_from(squares, seed, i + 1, used + 2)
        } else {
            seq![squares[i]] + spec_colorize_from(squares, seed, i + 1, used + 1)
        }
    }
}

/// The whole recolored sequence.
pub open spec fn spec_colorize(squares: Seq<Rect>, seed: u64) -> Seq<Rect> {
    spec_colorize_from(squares, seed, 0, 0)
}

/// Determinism law: the recoloring is a function of the rectangle sequence
/// and the seed alone, so two runs on the same inputs yield identical
/// colorings.
pub proof fn lemma_colorize_deterministic(
    squares: Seq<Rect>,
    seed: u64,
    first: Seq<Rect>,
    second: Seq<Rect>,
)
    requires
        first == spec_colorize(squares, seed),
        second == spec_colorize(squares, seed),
    ensures
        first == second,
{
}

/// Recolor a probabilistic subset of `squares` under a fresh pseudo-random
/// stream derived from `seed`. The result is a function of the arguments
/// alone; it has the same length as the input, and every rectangle keeps its
/// exact position and size — only colors change.
pub fn colorize(squares: &Vec<Rect>, seed: u64) -> (colored: Vec<Rect>)
    requires
        2 * squares@.len() <= usize::MAX,
    ensures
        colored@ == spec_colorize(squares@, seed),
        colored@.len() == squares@.len(),
        forall|i: int|
            0 <= i < squares@.len() ==> (#[trigger] colored@[i]).same_geometry(squares@[i]),
{
    let n = squares.len();
    let samples = draw_samples(seed, 2 * n);
    let mut colored: Vec<Rect> = Vec::new();
    let mut i: usize = 0;
    let mut used: usize = 0;
    while i < n
        invariant
            i <= n,
            n == squares@.len(),
            used <= 2 * i,
            2 * n <= usize::MAX,
            samples@.len() == 2 * n,
            forall|t: int| 0 <= t < samples@.len() ==> samples@[t] == sample_at(seed, t as nat),
            forall|t: int| 0 <= t < samples@.len() ==> samples@[t] < SAMPLE_ONE,
            colored@.len() == i,
            spec_colorize(squares@, seed) == colored@ + spec_colorize_from(
                squares@,
                seed,
                i as int,
                used as nat,
            ),
            forall|j: int|
                0 <= j < i as int ==> (#[trigger] colored@[j]).same_geometry(squares@[j]),
        decreases n - i,
    {
        let s = squares[i];
        let ghost prev = colored@;
        let ghost rest = spec_colorize_from(squares@, seed, i as int, used as nat);
        let k = samples[used];
        if 10 * k > 7 * SAMPLE_ONE {
            let k2 = samples[used + 1];
            let c = PaletteColor::random_color(k2);
            colored.push(Rect { color: c, ..s });
            used = used + 2;
            proof {
                assert(rest == seq![
                    spec_recolor(
                        squares@[i as int],
                        PaletteColor::spec_random_color(sample_at(seed, (used - 1) as nat)),
                    ),
                ] + spec_colorize_from(squares@, seed, i as int + 1, used as nat));
            }
        } else {
            colored.push(s);
            used = used + 1;
            proof {
                assert(rest == seq![squares@[i as int]] + spec_colorize_from(
                    squares@,
                    seed,
                    i as int + 1,
                    used as nat,
                ));
            }
        }
        proof {
            assert(colored@ =~= prev + rest.subrange(0, 1));
            assert(rest.subrange(1, rest.len() as int) =~= spec_colorize_from(
                squares@,
                seed,
                i as int + 1,
                used as nat,
            ));
            assert(colored@ + spec_colorize_from(squares@, seed, i as int + 1, used as nat) =~= prev
                + rest);
        }
        i = i + 1;
    }
    proof {
        assert(spec_colorize_from(squares@, seed, n as int, used as nat) =~= Seq::<Rect>::empty());
        assert(colored@ + Seq::<Rect>::empty() =~= colored@);
    }
    colored
}

} // verus!
