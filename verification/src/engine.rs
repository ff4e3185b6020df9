//! Seeds of the rendering engine and the printed-text layer: a fixed seed
//! makes preview and export identical, and each text region and the stroke
//! jitter get random streams of their own derived from it.

use vstd::prelude::*;
use crate::text::{push_str, push_chars};
use std::hash::{Hash, Hasher};

verus! {

/// The hash std's `DefaultHasher::new()` gives a string (fixed keys, so the
/// same text always hashes the same with one standard library).
pub uninterp spec fn default_hash_of_str(s: Seq<char>) -> u64;

/// Hashes a string with a fresh `DefaultHasher` (`str::hash`, then `finish`).
#[verifier::external_body]
fn hash_text(s: &str) -> (r: u64)
    ensures
        r == default_hash_of_str(s@),
{
    let mut hasher = std::collections::hash_map::DefaultHasher::new();
    s.hash(&mut hasher);
    hasher.finish()
}

/// Decimal digits of a number (`{}` formatting).
pub open spec fn decimal(n: nat) -> Seq<char>
    decreases n,
{
    if n < 10 {
        seq![digit_char(n)]
    } else {
        decimal(n / 10) + seq![digit_char(n % 10)]
    }
}

pub open spec fn digit_char(d: nat) -> char {
    seq!['0', '1', '2', '3', '4', '5', '6', '7', '8', '9'][d as int]
}

/// Appends the decimal digits of `n`.
pub fn push_decimal(out: &mut String, n: u64)
    ensures
        final(out)@ == old(out)@ + decimal(n as nat),
    decreases n,
{
    let digits = ['0', '1', '2', '3', '4', '5', '6', '7', '8', '9'];
    assert(digits@ =~= seq!['0', '1', '2', '3', '4', '5', '6', '7', '8', '9']);
    if n >= 10 {
        push_decimal(out, n / 10);
    }
    out.push(digits[(n % 10) as usize]);
    assert(final(out)@ =~= old(out)@ + decimal(n as nat));
}

/// The rendering engine's seed.
#[derive(Debug, Clone, Copy, PartialEq, Eq)]
pub struct DefaultEngine {
    seed: u64,
}

impl DefaultEngine {
    /// An engine whose randomness is fixed by `seed`.
    pub fn new(seed: u64) -> (r: DefaultEngine)
        ensures
            r.spec_seed() == seed,
    {
        DefaultEngine { seed }
    }

    pub closed spec fn spec_seed(&self) -> u64 {
        self.seed
    }

    /// The engine's seed.
    pub fn seed(&self) -> (r: u64)
        ensures
            r == self.spec_seed(),
    {
        self.seed
    }

    /// The seed of the text region with the given index: the hash of
    /// `"<seed>|region<index>"`.
    pub fn region_seed(seed: u64, index: usize) -> (r: u64)
        ensures
            r == default_hash_of_str(decimal(seed as nat) + "|region"@ + decimal(index as nat)),
    {
        let mut text = String::new();
        push_decimal(&mut text, seed);
        push_str(&mut text, "|region");
        push_decimal(&mut text, index as u64);
        hash_text(text.as_str())
    }

    /// The seed of the stroke-jitter stream: the hash of `"<seed>|perturb"`.
    pub fn perturb_seed(seed: u64) -> (r: u64)
        ensures
            r == default_hash_of_str(decimal(seed as nat) + "|perturb"@),
    {
        let mut text = String::new();
        push_decimal(&mut text, seed);
        push_str(&mut text, "|perturb");
        hash_text(text.as_str())
    }
}

/// Region and jitter streams are fixed by the seed alone: the same seed and
/// index give the same region seed, and a region's text differs from the
/// jitter stream's text.
pub proof fn lemma_seeds_are_functions_of_seed(seed: u64, index: usize)
    ensures
        decimal(seed as nat) + "|region"@ + decimal(index as nat) != decimal(seed as nat)
            + "|perturb"@,
{
    reveal_strlit("|region");
    reveal_strlit("|perturb");
    let a = decimal(seed as nat) + "|region"@ + decimal(index as nat);
    let b = decimal(seed as nat) + "|perturb"@;
    let n = decimal(seed as nat).len() as int;
    assert(a[n + 1] == 'r');
    assert(b[n + 1] == 'p');
}

// ---------------------------------------------------------------------------
// Printed layer
// ---------------------------------------------------------------------------
/// The canvas after drawing the printed mask: every covered pixel takes the
/// fill colour, the others keep theirs.
pub open spec fn painted(mask: Seq<bool>, len: int, fill: [u8; 3], canvas: Seq<u8>) -> Seq<u8> {
    Seq::new(
        canvas.len(),
        |i: int|
            if i / 3 < len && mask[i / 3] {
                fill[i % 3]
            } else {
                canvas[i]
            },
    )
}

/// Writes the unperturbed foreground mask into an RGB canvas in one colour
/// (printed text: no offset, no rotation).
pub fn draw_printed_mask(mask: &[bool], width: usize, height: usize, fill: [u8; 3], canvas: &mut [u8])
    requires
        width * height <= mask.len(),
        3 * (width * height) <= old(canvas)@.len(),
    ensures
        final(canvas)@ == painted(mask@, (width * height) as int, fill, old(canvas)@),
{
    let len = width * height;
    let mut idx: usize = 0;
    while idx < len
        invariant
            len == width * height,
            len <= mask.len(),
            3 * len <= canvas@.len(),
            idx <= len,
            canvas@.len() == old(canvas)@.len(),
            forall|i: int|
                0 <= i < canvas@.len() ==> #[trigger] canvas@[i] == if i / 3 < idx && mask@[i / 3] {
                    fill[i % 3]
                } else {
                    old(canvas)@[i]
                },
        decreases len - idx,
    {
        assert(idx * 3 + 2 < 3 * len) by (nonlinear_arith)
            requires
                idx < len,
        ;
        assert(canvas@.len() == canvas.len());
        assert(idx * 3 + 2 < canvas.len());
        let base: usize = idx * 3;
        if mask[idx] {
            canvas[base] = fill[0];
            canvas[base + 1] = fill[1];
            canvas[base + 2] = fill[2];
        }
        proof {
            assert forall|i: int| 0 <= i < canvas@.len() implies #[trigger] canvas@[i] == if i / 3 < idx
                + 1 && mask@[i / 3] {
                fill[i % 3]
            } else {
                old(canvas)@[i]
            } by {
                if i / 3 == idx as int {
                    assert(i == 3 * idx || i == 3 * idx + 1 || i == 3 * idx + 2);
                }
            }
        }
        idx += 1;
    }
    assert(canvas@ =~= painted(mask@, len as int, fill, old(canvas)@));
}

} // verus!
