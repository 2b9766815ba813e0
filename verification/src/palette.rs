//! The fixed four-color palette and its weighted random selection.

use vstd::prelude::*;

verus! {

/// Resolution of one uniform pseudo-random sample. A sample is carried as the
/// numerator `k` of the fixed-point fraction `k / SAMPLE_ONE`, with
/// `0 <= k < SAMPLE_ONE`, so it stands for a value in `[0, 1)` at the 53-bit
/// resolution that one double-precision draw from a pseudo-random stream has.
pub const SAMPLE_ONE: u64 = 0x20_0000_0000_0000;

/// The closed set of colors a rectangle can carry. White doubles as the
/// default background color and is by far the most probable random draw.
#[derive(Clone, Copy, Debug, PartialEq, Eq, Structural)]
pub enum PaletteColor {
    White,
    Blue,
    Red,
    Yellow,
}

impl PaletteColor {
    /// The fixed opaque RGB constant of each palette color.
    pub open spec fn spec_hex_color(self) -> u32 {
        match self {
            PaletteColor::White => 0xFFFFFF,
            PaletteColor::Blue => 0x0000FF,
            PaletteColor::Red => 0xFF0000,
            PaletteColor::Yellow => 0xFFD500,
        }
    }

    pub fn hex_color(&self) -> (rgb: u32)
        ensures
            rgb == self.spec_hex_color(),
    {
        match *self {
            PaletteColor::White => 0xFFFFFF,
            PaletteColor::Blue => 0x0000FF,
            PaletteColor::Red => 0xFF0000,
            PaletteColor::Yellow => 0xFFD500,
        }
    }

    /// The color selected by one uniform sample: the sample is scaled by ten
    /// and truncated, and the tenths 0 through 6 select white, 7 red, 8 blue
    /// and 9 yellow, so white carries a 70% weight and each other color 10%.
    pub open spec fn spec_random_color(sample: u64) -> PaletteColor {
        let tenth = 10 * (sample as int) / (SAMPLE_ONE as int);
        if tenth <= 6 {
            PaletteColor::White
        } else if tenth == 7 {
            PaletteColor::Red
        } else if tenth == 8 {
            PaletteColor::Blue
        } else if tenth == 9 {
            PaletteColor::Yellow
        } else {
            PaletteColor::White
        }
    }

    pub fn random_color(sample: u64) -> (color: PaletteColor)
        requires
            sample < SAMPLE_ONE,
        ensures
            color == Self::spec_random_color(sample),
    {
        let tenth: u64 = (10 * sample) / SAMPLE_ONE;
        if tenth <= 6 {
            PaletteColor::White
        } else if tenth == 7 {
            PaletteColor::Red
        } else if tenth == 8 {
            PaletteColor::Blue
        } else {
            PaletteColor::Yellow
        }
    }
}

/// Palette weighting law: over the whole sample space `[0, SAMPLE_ONE)` the
/// preimage of each color under `spec_random_color` is one contiguous
/// interval, and the intervals cut the space in the ratio 7 : 1 : 1 : 1 —
/// white is drawn for exactly the samples below 7/10 of the space, and red,
/// blue and yellow for the three tenths above it.
pub proof fn lemma_palette_weights(sample: u64)
    requires
        sample < SAMPLE_ONE,
    ensures
        (PaletteColor::spec_random_color(sample) == PaletteColor::White) <==> 10 * sample < 7
            * SAMPLE_ONE,
        (PaletteColor::spec_random_color(sample) == PaletteColor::Red) <==> (7 * SAMPLE_ONE <= 10
            * sample < 8 * SAMPLE_ONE),
        (PaletteColor::spec_random_color(sample) == PaletteColor::Blue) <==> (8 * SAMPLE_ONE <= 10
            * sample < 9 * SAMPLE_ONE),
        (PaletteColor::spec_random_color(sample) == PaletteColor::Yellow) <==> 9 * SAMPLE_ONE <= 10
            * sample,
{
    let k = SAMPLE_ONE as int;
    let s = 10 * (sample as int);
    vstd::arithmetic::div_mod::lemma_fundamental_div_mod(s, k);
    let tenth = s / k;
    assert(s == k * tenth + s % k);
    assert(0 <= s % k < k) by {
        vstd::arithmetic::div_mod::lemma_mod_bound(s, k);
    }
    assert(tenth <= 9);
}

} // verus!
