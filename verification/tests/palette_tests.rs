use mondrian::PaletteColor;
use mondrian::SAMPLE_ONE;
use rand::Rng;
use rand::SeedableRng;

#[test]
fn hex_colors_are_the_fixed_constants() {
    assert_eq!(PaletteColor::White.hex_color(), 0xFFFFFF);
    assert_eq!(PaletteColor::Blue.hex_color(), 0x0000FF);
    assert_eq!(PaletteColor::Red.hex_color(), 0xFF0000);
    assert_eq!(PaletteColor::Yellow.hex_color(), 0xFFD500);
}

#[test]
fn random_color_boundaries_are_exact() {
    // the preimage of each color is one contiguous interval of samples
    assert_eq!(PaletteColor::random_color(0), PaletteColor::White);
    assert_eq!(PaletteColor::random_color(6305039478318694), PaletteColor::White);
    assert_eq!(PaletteColor::random_color(6305039478318695), PaletteColor::Red);
    assert_eq!(PaletteColor::random_color(7205759403792793), PaletteColor::Red);
    assert_eq!(PaletteColor::random_color(7205759403792794), PaletteColor::Blue);
    assert_eq!(PaletteColor::random_color(8106479329266892), PaletteColor::Blue);
    assert_eq!(PaletteColor::random_color(8106479329266893), PaletteColor::Yellow);
    assert_eq!(PaletteColor::random_color(SAMPLE_ONE - 1), PaletteColor::Yellow);
}

fn weight_counts(samples: impl Iterator<Item = u64>) -> (u64, u64, u64, u64, u64) {
    let mut total = 0u64;
    let mut white = 0u64;
    let mut red = 0u64;
    let mut blue = 0u64;
    let mut yellow = 0u64;
    for sample in samples {
        total += 1;
        match PaletteColor::random_color(sample) {
            PaletteColor::White => white += 1,
            PaletteColor::Red => red += 1,
            PaletteColor::Blue => blue += 1,
            PaletteColor::Yellow => yellow += 1,
        }
    }
    (total, white, red, blue, yellow)
}

fn assert_weights(total: u64, white: u64, red: u64, blue: u64, yellow: u64) {
    // white about 70%, the other three about 10% each, within 2% of total
    let tolerance = total / 50;
    assert!(white.abs_diff(total * 7 / 10) <= tolerance);
    assert!(red.abs_diff(total / 10) <= tolerance);
    assert!(blue.abs_diff(total / 10) <= tolerance);
    assert!(yellow.abs_diff(total / 10) <= tolerance);
}

#[test]
fn palette_weights_over_an_even_grid() {
    let stride = 9007199254u64;
    let (total, white, red, blue, yellow) =
        weight_counts((0..1_000_000u64).map(|i| i * stride));
    assert_eq!(total, 1_000_000);
    assert_eq!(white + red + blue + yellow, total);
    assert_weights(total, white, red, blue, yellow);
}

#[test]
fn palette_weights_over_uniform_draws() {
    let mut rng = rand::rngs::StdRng::seed_from_u64(7);
    let (total, white, red, blue, yellow) = weight_counts((0..200_000).map(|_| {
        let uniform: f64 = rng.sample(rand::distributions::Standard);
        (uniform * SAMPLE_ONE as f64) as u64
    }));
    assert_eq!(total, 200_000);
    assert_weights(total, white, red, blue, yellow);
}
