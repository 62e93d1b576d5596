//! Counter arithmetic. A counter is 32 bits wide, and what is added to it wraps.

use vstd::arithmetic::div_mod::{lemma_add_mod_noop, lemma_mod_bound, lemma_small_mod};
use vstd::prelude::*;

verus! {

/// The number of values of a counter; counters wrap at this bound.
pub open spec fn counter_modulus() -> int {
    0x1_0000_0000
}

/// A count as a counter holds it: reduced modulo the counter's range.
pub open spec fn wrap_count(n: int) -> u32 {
    (n % counter_modulus()) as u32
}

/// Reducing a count before more is added to it changes nothing once the sum is
/// reduced.
pub proof fn lemma_wrap_add(x: int, y: int)
    ensures
        wrap_count(wrap_count(x) + y) == wrap_count(x + y),
        wrap_count(wrap_count(x) + wrap_count(y)) == wrap_count(x + y),
{
    let m = counter_modulus();
    lemma_mod_bound(x, m);
    lemma_mod_bound(y, m);
    lemma_add_mod_noop(x, y, m);
    lemma_add_mod_noop(x % m, y, m);
    lemma_small_mod((x % m) as nat, m as nat);
    lemma_small_mod((y % m) as nat, m as nat);
}

/// A wrapping addition of two counters is the reduced sum of what they hold.
proof fn lemma_wrapping_add_is_wrap_count(x: u32, y: u32)
    ensures
        vstd::wrapping::u32_specs::wrapping_add(x, y) == wrap_count(x + y),
{
    let m = counter_modulus();
    if x + y > u32::MAX {
        lemma_small_mod((x + y - m) as nat, m as nat);
        vstd::arithmetic::div_mod::lemma_mod_multiples_vanish(-1, x + y, m);
    } else {
        lemma_small_mod((x + y) as nat, m as nat);
    }
}

/// Adds `more` to what a counter holds. The sum wraps.
pub fn add_wrapping(held: u32, more: u32) -> (sum: u32)
    ensures
        sum == wrap_count(held + more),
        held + more <= u32::MAX ==> sum == held + more,
{
    proof {
        lemma_wrapping_add_is_wrap_count(held, more);
        if held + more <= u32::MAX {
            lemma_small_mod((held + more) as nat, counter_modulus() as nat);
        }
    }
    held.wrapping_add(more)
}

} // verus!
