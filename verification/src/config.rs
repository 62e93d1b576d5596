//! Construction-time configuration: which shapes a sketch can have, and the
//! random mixers of a new sketch.

use vstd::prelude::*;

verus! {

/// Why a sketch of some shape cannot be made.
#[derive(Clone, Copy, Debug, PartialEq, Eq, Structural)]
pub enum ConfigError {
    /// The sketch would have no row, so no estimate could be read.
    NoRows,
    /// The rows would have no column, so no index could be derived.
    NoColumns,
    /// The table would hold more counters than memory can address.
    TooLarge,
}

/// The largest number of counters of a table: a counter takes four bytes, and an
/// allocation at most `isize::MAX` bytes.
pub open spec fn max_counters() -> int {
    (usize::MAX / 8) as int
}

/// The error that a sketch of `rows` rows and `width` columns is refused with,
/// if it is refused.
pub open spec fn shape_error(rows: nat, width: nat) -> Option<ConfigError> {
    if rows == 0 {
        Some(ConfigError::NoRows)
    } else if width == 0 {
        Some(ConfigError::NoColumns)
    } else if rows * width > max_counters() {
        Some(ConfigError::TooLarge)
    } else {
        None
    }
}

/// Checks a shape and computes the number of counters it needs.
pub fn table_len(rows: usize, width: usize) -> (checked: Result<usize, ConfigError>)
    ensures
        match checked {
            Ok(len) => shape_error(rows as nat, width as nat) is None && len == rows * width,
            Err(error) => shape_error(rows as nat, width as nat) == Some(error),
        },
{
    if rows == 0 {
        Err(ConfigError::NoRows)
    } else if width == 0 {
        Err(ConfigError::NoColumns)
    } else {
        match rows.checked_mul(width) {
            Some(len) => if len > usize::MAX / 8 {
                Err(ConfigError::TooLarge)
            } else {
                Ok(len)
            },
            None => Err(ConfigError::TooLarge),
        }
    }
}

/// Draws one machine word with `rand::random`. Nothing is claimed of the word
/// drawn: two calls may differ, and callers are verified for every outcome.
#[verifier::external_body]
fn random_word() -> (word: usize) {
    rand::random::<usize>()
}

/// Draws one mixer per row, each coefficient drawn on its own.
pub fn draw_mixers(rows: usize) -> (mixers: Vec<(usize, usize)>)
    ensures
        mixers.len() == rows,
{
    let mut mixers: Vec<(usize, usize)> = Vec::new();
    let mut row: usize = 0;
    while row < rows
        invariant
            row <= rows,
            mixers.len() == row,
        decreases rows - row,
    {
        let a: usize = random_word();
        let b: usize = random_word();
        mixers.push((a, b));
        row += 1;
    }
    mixers
}

} // verus!
