//! The sketch with atomic counters. Its batch operations run on rayon's pool;
//! every increment is one atomic fetch-and-add with relaxed ordering, so workers
//! that meet at a counter lose no increment.

use crate::config::{draw_mixers, shape_error, table_len, ConfigError};
use crate::counter::{add_wrapping, lemma_wrap_add, wrap_count};
use crate::hashing::derive_indices;
use crate::model::{sum_counts, SketchModel};
use rayon::iter::IntoParallelRefIterator;
use rayon::iter::ParallelIterator;
use std::sync::atomic::AtomicU32;
use std::sync::atomic::Ordering;
use vstd::prelude::*;

verus! {

/// What an atomic counter holds. A counter of a sketch changes only while the
/// sketch is borrowed exclusively, so what it holds is part of the value of the
/// sketch.
pub uninterp spec fn counter_value(counter: AtomicU32) -> u32;

/// A new counter from `AtomicU32::new`, which holds the value it was made with.
#[verifier::external_body]
fn new_counter(held: u32) -> (counter: AtomicU32)
    ensures
        counter_value(counter) == held,
{
    AtomicU32::new(held)
}

/// Reads a counter with `AtomicU32::load` under relaxed ordering, which returns
/// what the counter holds.
#[verifier::external_body]
fn read_counter(counter: &AtomicU32) -> (held: u32)
    ensures
        held == counter_value(*counter),
{
    counter.load(Ordering::Relaxed)
}

/// A Count-Min Sketch whose counters are atomic 32-bit integers.
pub struct CountMinSketchSafe {
    width: usize,
    mixers: Vec<(usize, usize)>,
    table: Vec<AtomicU32>,
}

impl View for CountMinSketchSafe {
    type V = SketchModel;

    closed spec fn view(&self) -> SketchModel {
        SketchModel {
            width: self.width as nat,
            mixers: self.mixers@,
            table: Seq::new(self.table@.len(), |j: int| counter_value(self.table@[j])),
        }
    }
}

/// Counts the keys of `keys` on rayon's pool: `par_iter` hands out the keys,
/// `flat_map_iter` turns each key into its slots, and `for_each` runs the
/// increment once for each slot so produced. The increment is an atomic
/// fetch-and-add of one, which wraps and is never lost, so each counter grows,
/// wrapping, by the number of times its place was produced. Shape and mixers are
/// only read.
#[verifier::external_body]
fn par_bump(sketch: &mut CountMinSketchSafe, keys: &Vec<u32>)
    ensures
        final(sketch)@.width == old(sketch)@.width,
        final(sketch)@.mixers == old(sketch)@.mixers,
        final(sketch)@.table.len() == old(sketch)@.table.len(),
        forall|j: int|
            0 <= j < old(sketch)@.table.len() ==> #[trigger] final(sketch)@.table[j] == wrap_count(
                old(sketch)@.table[j] + old(sketch)@.touches(keys@, j),
            ),
{
    let shared: &CountMinSketchSafe = sketch;
    keys.par_iter().flat_map_iter(|&key| shared.slots_of(key)).for_each(
        |slot| shared.bump_slot(slot),
    );
}

/// Estimates the keys of `keys` on rayon's pool: `par_iter` hands out the keys,
/// `map` applies the estimate to each, and `collect` gathers the results into a
/// vector in the order of the keys.
#[verifier::external_body]
fn par_estimates(sketch: &CountMinSketchSafe, keys: &Vec<u32>) -> (found: Vec<u32>)
    ensures
        found@ == sketch@.estimates(keys@),
{
    keys.par_iter().map(|&key| sketch.query(key)).collect()
}

impl CountMinSketchSafe {
    #[verifier::type_invariant]
    closed spec fn inv(&self) -> bool {
        self@.wf()
    }

    /// Makes an empty sketch of `rows` rows and `width` columns with freshly
    /// drawn mixers. A shape without rows or columns, or with more counters than
    /// memory can address, is refused.
    pub fn new(rows: usize, width: usize) -> (made: Result<CountMinSketchSafe, ConfigError>)
        ensures
            match made {
                Ok(sketch) => {
                    &&& shape_error(rows as nat, width as nat) is None
                    &&& sketch@.mixers.len() == rows
                    &&& sketch@ == SketchModel::fresh(width as nat, sketch@.mixers)
                },
                Err(error) => shape_error(rows as nat, width as nat) == Some(error),
            },
    {
        match table_len(rows, width) {
            Ok(_) => CountMinSketchSafe::with_mixers(width, draw_mixers(rows)),
            Err(error) => Err(error),
        }
    }

    /// Makes an empty sketch with one row per given mixer and `width` columns.
    pub fn with_mixers(width: usize, mixers: Vec<(usize, usize)>) -> (made: Result<
        CountMinSketchSafe,
        ConfigError,
    >)
        ensures
            match made {
                Ok(sketch) => {
                    &&& shape_error(mixers.len() as nat, width as nat) is None
                    &&& sketch@ == SketchModel::fresh(width as nat, mixers@)
                },
                Err(error) => shape_error(mixers.len() as nat, width as nat) == Some(error),
            },
    {
        match table_len(mixers.len(), width) {
            Ok(len) => {
                let mut table: Vec<AtomicU32> = Vec::with_capacity(len);
                let mut j: usize = 0;
                while j < len
                    invariant
                        j <= len,
                        table.len() == j,
                        forall|k: int| 0 <= k < j ==> counter_value(#[trigger] table@[k]) == 0,
                    decreases len - j,
                {
                    table.push(new_counter(0));
                    j += 1;
                }
                let sketch = CountMinSketchSafe { width, mixers, table };
                assert(sketch@.table =~= SketchModel::fresh(width as nat, mixers@).table);
                Ok(sketch)
            },
            Err(error) => Err(error),
        }
    }

    /// The number of rows.
    pub fn rows(&self) -> (rows: usize)
        ensures
            rows == self@.rows(),
            self@.wf(),
    {
        proof {
            use_type_invariant(self);
        }
        self.mixers.len()
    }

    /// The number of columns of each row.
    pub fn width(&self) -> (width: usize)
        ensures
            width == self@.width,
            self@.wf(),
    {
        proof {
            use_type_invariant(self);
        }
        self.width
    }

    /// The column of `key` in every row, in row order.
    pub fn get_indices(&self, key: u32) -> (cols: Vec<usize>)
        ensures
            cols.len() == self@.rows(),
            forall|row: int| 0 <= row < cols.len() ==> #[trigger] cols[row] == self@.column(row, key),
    {
        proof {
            use_type_invariant(self);
        }
        derive_indices(&self.mixers, self.width, key)
    }

    /// The place in the table of the counter at `(row, col)`.
    fn slot_of(&self, row: usize, col: usize) -> (slot: usize)
        requires
            row < self@.rows(),
            col < self@.width,
        ensures
            slot == row * self@.width + col,
            slot < self@.table.len(),
    {
        proof {
            use_type_invariant(self);
            self@.lemma_slot_coordinates(row as int, col as int);
            assert(self.table@.len() == self.table.len());
        }
        row * self.width + col
    }

    /// The places in the table of the counters that `key` is counted in, one per
    /// row, in row order.
    pub fn slots_of(&self, key: u32) -> (slots: Vec<usize>)
        ensures
            slots@.map_values(|slot: usize| slot as int) == self@.slots(key),
            forall|row: int| 0 <= row < slots.len() ==> #[trigger] slots[row] < self@.table.len(),
    {
        proof {
            use_type_invariant(self);
        }
        let cols = self.get_indices(key);
        let mut slots: Vec<usize> = Vec::with_capacity(cols.len());
        let mut row: usize = 0;
        while row < cols.len()
            invariant
                row <= cols.len(),
                cols.len() == self@.rows(),
                self@.wf(),
                forall|r: int| 0 <= r < cols.len() ==> #[trigger] cols[r] == self@.column(r, key),
                slots.len() == row,
                forall|r: int|
                    0 <= r < row ==> #[trigger] slots[r] == r * self@.width + self@.column(r, key),
                forall|r: int| 0 <= r < row ==> #[trigger] slots[r] < self@.table.len(),
            decreases cols.len() - row,
        {
            proof {
                self@.lemma_reading_in_table(row as int, key);
            }
            slots.push(self.slot_of(row, cols[row]));
            row += 1;
        }
        slots
    }

    /// Adds one to the counter at `slot`, atomically and with relaxed ordering.
    /// Only `par_bump` calls this, while it holds the sketch exclusively.
    fn bump_slot(&self, slot: usize)
        requires
            slot < self@.table.len(),
    {
        self.table[slot].fetch_add(1, Ordering::Relaxed);
    }

    /// Counts every key of `keys` once in every row: afterwards each counter has
    /// grown by the number of keys that its row sends to its column, and none of
    /// these increments is lost. Counters wrap: estimates are upper bounds of
    /// the true counts only as long as the batches counted so far fit
    /// (`SketchModel::fits`).
    pub fn batch_index(&mut self, keys: &Vec<u32>)
        ensures
            final(self)@ == old(self)@.inserted(keys@),
    {
        proof {
            use_type_invariant(&*self);
        }
        par_bump(self, keys);
        proof {
            let start = old(self)@;
            assert forall|j: int| 0 <= j < start.table.len() implies self@.table[j]
                == start.inserted(keys@).table[j] by {
                start.lemma_touches_are_hits(keys@, j);
            }
            assert(self@.table =~= start.inserted(keys@).table);
        }
    }

    /// The frequency estimate of `key`: the smallest of the counters that `key`
    /// is counted in, one per row.
    pub fn query(&self, key: u32) -> (estimate: u32)
        ensures
            estimate == self@.estimate(key),
    {
        proof {
            use_type_invariant(self);
        }
        let cols = self.get_indices(key);
        proof {
            self@.lemma_reading_in_table(0, key);
        }
        let mut best: u32 = read_counter(&self.table[self.slot_of(0, cols[0])]);
        let mut row: usize = 1;
        while row < cols.len()
            invariant
                1 <= row <= cols.len(),
                cols.len() == self@.rows(),
                self@.wf(),
                forall|r: int| 0 <= r < cols.len() ==> #[trigger] cols[r] == self@.column(r, key),
                best == self@.least_reading(key, row as nat),
            decreases cols.len() - row,
        {
            proof {
                self@.lemma_reading_in_table(row as int, key);
            }
            let seen: u32 = read_counter(&self.table[self.slot_of(row, cols[row])]);
            if seen < best {
                best = seen;
            }
            row += 1;
        }
        best
    }

    /// The frequency estimate of every key of `keys`: the estimate at position
    /// `i` is that of the key at position `i`.
    pub fn batch_query(&self, keys: &Vec<u32>) -> (found: Vec<u32>)
        ensures
            found@ == self@.estimates(keys@),
    {
        par_estimates(self, keys)
    }

    /// The sum of all counters, reduced as a counter is: where the sum fits in 32
    /// bits, the sum itself.
    pub fn sum(&self) -> (total: u32)
        ensures
            total == wrap_count(self@.total() as int),
            self@.total() <= u32::MAX ==> total == self@.total(),
    {
        let mut total: u32 = 0;
        let mut j: usize = 0;
        while j < self.table.len()
            invariant
                j <= self.table.len(),
                total == wrap_count(sum_counts(self@.table.take(j as int)) as int),
            decreases self.table.len() - j,
        {
            let held: u32 = read_counter(&self.table[j]);
            proof {
                let so_far = sum_counts(self@.table.take(j as int)) as int;
                assert(self@.table.take(j + 1).drop_last() =~= self@.table.take(j as int));
                lemma_wrap_add(so_far, held as int);
            }
            total = add_wrapping(total, held);
            j += 1;
        }
        assert(self@.table.take(self@.table.len() as int) == self@.table);
        total
    }
}

} // verus!
