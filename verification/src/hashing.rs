//! Index derivation: the affine hash family that sends a key to one column per row.

use vstd::arithmetic::div_mod::{lemma_add_mod_noop, lemma_mod_bound, lemma_small_mod};
use vstd::prelude::*;

verus! {

/// The number of values of a `usize`, the modulus of the wrapping multiply-add.
pub open spec fn word_modulus() -> int {
    usize::MAX + 1
}

/// The column that the mixer `(a, b)` assigns to `key` in a row of `width`
/// counters: `a * key + b`, reduced to a machine word, then reduced modulo `width`.
pub open spec fn slot_index(mixer: (usize, usize), key: u32, width: nat) -> int {
    ((mixer.0 * key + mixer.1) % word_modulus()) % (width as int)
}

/// A column is always inside the row.
pub proof fn lemma_slot_index_in_row(mixer: (usize, usize), key: u32, width: nat)
    requires
        width > 0,
    ensures
        0 <= slot_index(mixer, key, width) < width,
{
    lemma_mod_bound((mixer.0 * key + mixer.1) % word_modulus(), width as int);
}

/// Where the multiply-add stays inside a machine word, the column is its
/// remainder modulo `width`.
pub proof fn lemma_slot_index_unwrapped(mixer: (usize, usize), key: u32, width: nat)
    requires
        mixer.0 * key + mixer.1 <= usize::MAX,
    ensures
        slot_index(mixer, key, width) == (mixer.0 * key + mixer.1) % (width as int),
{
    lemma_small_mod((mixer.0 * key + mixer.1) as nat, word_modulus() as nat);
}

/// Computes the column of `key` under `mixer`, with a wrapping multiply-add.
pub fn index_of(mixer: (usize, usize), key: u32, width: usize) -> (col: usize)
    requires
        width > 0,
    ensures
        col == slot_index(mixer, key, width as nat),
        col < width,
{
    let wide: usize = key as usize;
    let product: usize = mixer.0.wrapping_mul(wide);
    let mixed: usize = product.wrapping_add(mixer.1);
    proof {
        let m = word_modulus();
        let a = mixer.0 as int;
        let b = mixer.1 as int;
        assert(mixed == (product + b) % m) by {
            if product + b > usize::MAX {
                lemma_small_mod((product + b - m) as nat, m as nat);
                vstd::arithmetic::div_mod::lemma_mod_multiples_vanish(-1, product + b, m);
            } else {
                lemma_small_mod((product + b) as nat, m as nat);
            }
        }
        lemma_add_mod_noop(a * key, b, m);
        lemma_small_mod(b as nat, m as nat);
        lemma_slot_index_in_row(mixer, key, width as nat);
    }
    mixed % width
}

/// Computes the column of `key` in every row: one index per mixer, in row order.
pub fn derive_indices(mixers: &Vec<(usize, usize)>, width: usize, key: u32) -> (cols: Vec<usize>)
    requires
        width > 0,
    ensures
        cols.len() == mixers.len(),
        forall|row: int|
            0 <= row < mixers.len() ==> cols[row] == slot_index(#[trigger] mixers[row], key, width as nat),
        forall|row: int| 0 <= row < cols.len() ==> #[trigger] cols[row] < width,
{
    let mut cols: Vec<usize> = Vec::new();
    let mut row: usize = 0;
    while row < mixers.len()
        invariant
            width > 0,
            row <= mixers.len(),
            cols.len() == row,
            forall|r: int|
                0 <= r < row ==> cols[r] == slot_index(#[trigger] mixers[r], key, width as nat),
            forall|r: int| 0 <= r < row ==> #[trigger] cols[r] < width,
        decreases mixers.len() - row,
    {
        cols.push(index_of(mixers[row], key, width));
        row += 1;
    }
    cols
}

} // verus!
