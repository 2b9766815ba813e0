//! The seeded pseudo-random stream that drives every split and recolor
//! decision.
//!
//! One 64-bit seed determines one stream of 64-bit words. A decision consumes
//! one word, reduced to a uniform 53-bit sample: the top 53 bits of the word,
//! the numerator of a fraction over `SAMPLE_ONE` — the same value a
//! double-precision draw in `[0, 1)` from the same stream would carry.

use rand::Rng;
use rand::SeedableRng;
use vstd::prelude::*;

verus! {

/// The word at position `idx` of the pseudo-random stream that the seed
/// `seed` determines.
pub uninterp spec fn stream_word(seed: u64, idx: nat) -> u64;

/// The first `n` words of the stream of `seed`.
///
/// Relies on `rand::rngs::StdRng::seed_from_u64` and the `Standard`
/// distribution of `rand` 0.8: seeding is a pure function of the seed value,
/// the generator is the portable ChaCha12 cipher, and each `u64` draw returns
/// the generator's next word — so the words are a function of the seed and of
/// their position in the stream alone.
#[verifier::external_body]
fn stream_words(seed: u64, n: usize) -> (words: Vec<u64>)
    ensures
        words@.len() == n as nat,
        forall|i: int| 0 <= i < n as int ==> words@[i] == stream_word(seed, i as nat),
{
    let rng = rand::rngs::StdRng::seed_from_u64(seed);
    let words: Vec<u64> = rng.sample_iter(rand::distributions::Standard).take(n).collect();
    words
}

/// The uniform 53-bit sample carried by the word at position `idx`: the
/// word's top 53 bits, numerator of a fraction over `SAMPLE_ONE`.
pub open spec fn sample_at(seed: u64, idx: nat) -> u64 {
    stream_word(seed, idx) >> 11
}

/// Every sample lies below `SAMPLE_ONE`, so it stands for a value in
/// `[0, 1)`.
pub proof fn lemma_sample_in_range(seed: u64, idx: nat)
    ensures
        sample_at(seed, idx) < crate::palette::SAMPLE_ONE,
{
    let w = stream_word(seed, idx);
    assert(w >> 11 < 0x20_0000_0000_0000u64) by (bit_vector);
}

/// Draw the first `n` samples of the stream of `seed`, in stream order.
pub fn draw_samples(seed: u64, n: usize) -> (samples: Vec<u64>)
    ensures
        samples@.len() == n as nat,
        forall|i: int| 0 <= i < n as int ==> samples@[i] == sample_at(seed, i as nat),
        forall|i: int| 0 <= i < n as int ==> samples@[i] < crate::palette::SAMPLE_ONE,
{
    let words = stream_words(seed, n);
    let mut samples: Vec<u64> = Vec::new();
    let mut i: usize = 0;
    while i < n
        invariant
            i <= n,
            words@.len() == n as nat,
            forall|j: int| 0 <= j < n as int ==> words@[j] == stream_word(seed, j as nat),
            samples@.len() == i as nat,
            forall|j: int| 0 <= j < i as int ==> samples@[j] == sample_at(seed, j as nat),
            forall|j: int| 0 <= j < i as int ==> samples@[j] < crate::palette::SAMPLE_ONE,
        decreases n - i,
    {
        let w = words[i];
        proof {
            lemma_sample_in_range(seed, i as nat);
        }
        samples.push(w >> 11);
        i = i + 1;
    }
    samples
}

} // verus!
