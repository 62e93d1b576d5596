//! The mathematical model of a sketch, shared by both kinds of sketch, and the
//! spec functions that the contracts and the laws are stated over.

use crate::counter::{counter_modulus, lemma_wrap_add, wrap_count};
use crate::hashing::{lemma_slot_index_in_row, slot_index};
use vstd::arithmetic::div_mod::{
    lemma_fundamental_div_mod, lemma_fundamental_div_mod_converse, lemma_mod_bound,
    lemma_small_mod,
};
use vstd::prelude::*;

verus! {

/// What a sketch is, mathematically: its width, one mixer per row, and its
/// counters in row-major order.
pub struct SketchModel {
    pub width: nat,
    pub mixers: Seq<(usize, usize)>,
    pub table: Seq<u32>,
}

/// How often `key` occurs in `keys`.
pub open spec fn true_count(keys: Seq<u32>, key: u32) -> nat
    decreases keys.len(),
{
    if keys.len() == 0 {
        0
    } else {
        true_count(keys.drop_last(), key) + if keys.last() == key {
            1nat
        } else {
            0nat
        }
    }
}

/// The sum of a sequence of counters, as a natural number.
pub open spec fn sum_counts(counts: Seq<u32>) -> nat
    decreases counts.len(),
{
    if counts.len() == 0 {
        0
    } else {
        sum_counts(counts.drop_last()) + counts.last() as nat
    }
}

/// The number of keys in `keys` that the mixer of a row of `width` columns sends
/// to column `col`.
pub open spec fn row_hits(mixer: (usize, usize), width: nat, keys: Seq<u32>, col: int) -> nat
    decreases keys.len(),
{
    if keys.len() == 0 {
        0
    } else {
        row_hits(mixer, width, keys.drop_last(), col) + if slot_index(mixer, keys.last(), width)
            == col {
            1nat
        } else {
            0nat
        }
    }
}

/// The hits of two batches add up.
pub proof fn lemma_row_hits_concat(
    mixer: (usize, usize),
    width: nat,
    first: Seq<u32>,
    second: Seq<u32>,
    col: int,
)
    ensures
        row_hits(mixer, width, first + second, col) == row_hits(mixer, width, first, col)
            + row_hits(mixer, width, second, col),
    decreases second.len(),
{
    if second.len() == 0 {
        assert(first + second =~= first);
    } else {
        assert((first + second).drop_last() =~= first + second.drop_last());
        lemma_row_hits_concat(mixer, width, first, second.drop_last(), col);
    }
}

/// How often the place `j` occurs in `places`.
pub open spec fn occurrences(places: Seq<int>, j: int) -> nat
    decreases places.len(),
{
    if places.len() == 0 {
        0
    } else {
        occurrences(places.drop_last(), j) + if places.last() == j {
            1nat
        } else {
            0nat
        }
    }
}

impl SketchModel {
    /// The number of rows: one per mixer.
    pub open spec fn rows(self) -> nat {
        self.mixers.len()
    }

    /// A sketch has at least one row and one column, and a counter for each slot.
    pub open spec fn wf(self) -> bool {
        &&& self.rows() > 0
        &&& self.width > 0
        &&& self.table.len() == self.rows() * self.width
    }

    /// The sketch with the given shape and mixers in which nothing was counted.
    pub open spec fn fresh(width: nat, mixers: Seq<(usize, usize)>) -> SketchModel {
        SketchModel { width, mixers, table: Seq::new(mixers.len() * width, |j: int| 0u32) }
    }

    /// The column of `key` in `row`.
    pub open spec fn column(self, row: int, key: u32) -> int {
        slot_index(self.mixers[row], key, self.width)
    }

    /// The counter at `(row, col)`.
    pub open spec fn counter(self, row: int, col: int) -> u32 {
        self.table[row * self.width + col]
    }

    /// The counter that `key` is counted in, in `row`.
    pub open spec fn reading(self, row: int, key: u32) -> u32 {
        self.counter(row, self.column(row, key))
    }

    /// The number of keys in `keys` that `row` sends to column `col`.
    pub open spec fn hits(self, keys: Seq<u32>, row: int, col: int) -> nat {
        row_hits(self.mixers[row], self.width, keys, col)
    }

    /// The places in the table of the counters that `key` is counted in, one per
    /// row, in row order.
    pub open spec fn slots(self, key: u32) -> Seq<int> {
        Seq::new(self.rows(), |row: int| row * self.width + self.column(row, key))
    }

    /// How often the place `j` occurs among the slots of the keys of `keys`: the
    /// number of increments that counting `keys` makes at `j`.
    pub open spec fn touches(self, keys: Seq<u32>, j: int) -> nat
        decreases keys.len(),
    {
        if keys.len() == 0 {
            0
        } else {
            self.touches(keys.drop_last(), j) + occurrences(self.slots(keys.last()), j)
        }
    }

    /// The sketch after `key` was counted in the first `rows` rows only.
    pub open spec fn bumped_rows(self, key: u32, rows: nat) -> SketchModel {
        SketchModel {
            width: self.width,
            mixers: self.mixers,
            table: Seq::new(
                self.table.len(),
                |j: int|
                    if j / (self.width as int) < rows && self.column(j / (self.width as int), key)
                        == j % (self.width as int) {
                        wrap_count(self.table[j] + 1)
                    } else {
                        self.table[j]
                    },
            ),
        }
    }

    /// The sketch after `key` was counted once in every row.
    pub open spec fn bumped(self, key: u32) -> SketchModel {
        self.bumped_rows(key, self.rows())
    }

    /// The sketch after every key of `keys` was counted once in every row: each
    /// counter grew, wrapping, by the number of keys its row sends to its column.
    pub open spec fn inserted(self, keys: Seq<u32>) -> SketchModel {
        SketchModel {
            width: self.width,
            mixers: self.mixers,
            table: Seq::new(
                self.table.len(),
                |j: int|
                    wrap_count(
                        self.table[j] + self.hits(
                            keys,
                            j / (self.width as int),
                            j % (self.width as int),
                        ),
                    ),
            ),
        }
    }

    /// No counter wraps while `keys` are counted.
    pub open spec fn fits(self, keys: Seq<u32>) -> bool {
        forall|row: int, col: int|
            0 <= row < self.rows() && 0 <= col < self.width ==> self.counter(row, col)
                + #[trigger] self.hits(keys, row, col) <= u32::MAX
    }

    /// The smallest reading of `key` among the first `rows` rows (the first row's,
    /// if `rows` is zero).
    pub open spec fn least_reading(self, key: u32, rows: nat) -> u32
        decreases rows,
    {
        if rows <= 1 {
            self.reading(0, key)
        } else {
            let rest = self.least_reading(key, (rows - 1) as nat);
            let last = self.reading(rows - 1, key);
            if last < rest {
                last
            } else {
                rest
            }
        }
    }

    /// The frequency estimate of `key`: its smallest reading over all rows.
    pub open spec fn estimate(self, key: u32) -> u32 {
        self.least_reading(key, self.rows())
    }

    /// The estimates of `keys`, position by position.
    pub open spec fn estimates(self, keys: Seq<u32>) -> Seq<u32> {
        Seq::new(keys.len(), |i: int| self.estimate(keys[i]))
    }

    /// The sum of all counters.
    pub open spec fn total(self) -> nat {
        sum_counts(self.table)
    }

    /// Row and column of a slot determine its place in the table, and back.
    pub proof fn lemma_slot_coordinates(self, row: int, col: int)
        requires
            self.wf(),
            0 <= row < self.rows(),
            0 <= col < self.width,
        ensures
            0 <= row * self.width + col < self.table.len(),
            (row * self.width + col) / (self.width as int) == row,
            (row * self.width + col) % (self.width as int) == col,
    {
        let w = self.width as int;
        let n = self.rows() as int;
        assert(row * w + col < n * w) by (nonlinear_arith)
            requires
                0 <= row < n,
                0 <= col < w,
        ;
        assert(0 <= row * w + col) by (nonlinear_arith)
            requires
                0 <= row,
                0 <= col,
                0 < w,
        ;
        lemma_fundamental_div_mod_converse(row * w + col, w, row, col);
    }

    /// Every place in the table is the slot of one row and one column.
    pub proof fn lemma_slot_of_place(self, j: int)
        requires
            self.wf(),
            0 <= j < self.table.len(),
        ensures
            0 <= j / (self.width as int) < self.rows(),
            0 <= j % (self.width as int) < self.width,
            (j / (self.width as int)) * self.width + j % (self.width as int) == j,
    {
        let w = self.width as int;
        let n = self.rows() as int;
        let q = j / w;
        lemma_fundamental_div_mod(j, w);
        lemma_mod_bound(j, w);
        if q >= n {
            assert(q * w >= n * w) by (nonlinear_arith)
                requires
                    q >= n,
                    w > 0,
            ;
        }
        if q < 0 {
            assert(q * w <= -w) by (nonlinear_arith)
                requires
                    q <= -1,
                    w > 0,
            ;
        }
    }

    /// Counting a key in no row changes nothing.
    pub proof fn lemma_bumped_no_rows(self, key: u32)
        requires
            self.wf(),
        ensures
            self.bumped_rows(key, 0) == self,
    {
        assert forall|j: int| 0 <= j < self.table.len() implies self.bumped_rows(key, 0).table[j]
            == self.table[j] by {
            self.lemma_slot_of_place(j);
        }
        assert(self.bumped_rows(key, 0).table =~= self.table);
    }

    /// Counting a key in one more row increments the counter at the key's slot
    /// in that row, and no other.
    pub proof fn lemma_bumped_next_row(self, key: u32, row: int)
        requires
            self.wf(),
            0 <= row < self.rows(),
        ensures
            0 <= row * self.width + self.column(row, key) < self.table.len(),
            self.bumped_rows(key, row as nat).table[row * self.width + self.column(row, key)]
                == self.reading(row, key),
            self.bumped_rows(key, (row + 1) as nat).table == self.bumped_rows(
                key,
                row as nat,
            ).table.update(
                row * self.width + self.column(row, key),
                wrap_count(self.reading(row, key) + 1),
            ),
    {
        let w = self.width as int;
        let col = self.column(row, key);
        let slot = row * w + col;
        self.lemma_reading_in_table(row, key);
        self.lemma_slot_coordinates(row, col);
        let before = self.bumped_rows(key, row as nat).table;
        let after = self.bumped_rows(key, (row + 1) as nat).table;
        assert forall|j: int| 0 <= j < self.table.len() implies after[j] == before.update(
            slot,
            wrap_count(self.reading(row, key) + 1),
        )[j] by {
            self.lemma_slot_of_place(j);
        }
    }

    /// Counting one more key is counting the batch so far, then that key.
    pub proof fn lemma_inserted_push(self, keys: Seq<u32>, key: u32)
        requires
            self.wf(),
        ensures
            self.inserted(keys.push(key)) == self.inserted(keys).bumped(key),
    {
        let w = self.width as int;
        let grown = self.inserted(keys.push(key));
        let stepped = self.inserted(keys).bumped(key);
        assert(keys.push(key).drop_last() =~= keys);
        assert forall|j: int| 0 <= j < self.table.len() implies grown.table[j]
            == stepped.table[j] by {
            self.lemma_slot_of_place(j);
            lemma_wrap_add(self.table[j] + self.hits(keys, j / w, j % w), 1);
        }
        assert(grown.table =~= stepped.table);
    }

    /// Counting nothing changes nothing.
    pub proof fn lemma_inserted_nothing(self)
        requires
            self.wf(),
        ensures
            self.inserted(Seq::<u32>::empty()) == self,
    {
        assert forall|j: int| 0 <= j < self.table.len() implies self.inserted(
            Seq::<u32>::empty(),
        ).table[j] == self.table[j] by {
            lemma_small_mod(self.table[j] as nat, counter_modulus() as nat);
        }
        assert(self.inserted(Seq::<u32>::empty()).table =~= self.table);
    }

    /// Among the slots of a key in the first `rows` rows, a place occurs once if
    /// it lies in one of these rows, in the key's column, and not at all
    /// otherwise.
    pub proof fn lemma_occurrences_in_rows(self, key: u32, rows: nat, j: int)
        requires
            self.wf(),
            rows <= self.rows(),
            0 <= j < self.table.len(),
        ensures
            occurrences(self.slots(key).take(rows as int), j) == if j / (self.width as int) < rows
                && self.column(j / (self.width as int), key) == j % (self.width as int) {
                1nat
            } else {
                0nat
            },
        decreases rows,
    {
        let w = self.width as int;
        self.lemma_slot_of_place(j);
        if rows > 0 {
            let row = rows - 1;
            let first = self.slots(key).take(rows as int);
            assert(first.drop_last() =~= self.slots(key).take(row));
            self.lemma_occurrences_in_rows(key, row as nat, j);
            self.lemma_reading_in_table(row, key);
            self.lemma_slot_coordinates(row, self.column(row, key));
        }
    }

    /// The increments that counting a batch makes at a place are the hits of the
    /// place's row in the place's column.
    pub proof fn lemma_touches_are_hits(self, keys: Seq<u32>, j: int)
        requires
            self.wf(),
            0 <= j < self.table.len(),
        ensures
            self.touches(keys, j) == self.hits(
                keys,
                j / (self.width as int),
                j % (self.width as int),
            ),
        decreases keys.len(),
    {
        if keys.len() > 0 {
            self.lemma_touches_are_hits(keys.drop_last(), j);
            self.lemma_occurrences_in_rows(keys.last(), self.rows(), j);
            self.lemma_slot_of_place(j);
            assert(self.slots(keys.last()).take(self.rows() as int) =~= self.slots(keys.last()));
        }
    }

    /// Adding to the counters what an empty sketch of the same shape and mixers
    /// counts of a second batch is counting the second batch after the first.
    pub proof fn lemma_inserted_merge(self, first: Seq<u32>, second: Seq<u32>)
        requires
            self.wf(),
        ensures
            SketchModel::fresh(self.width, self.mixers).inserted(second).table.len()
                == self.table.len(),
            forall|j: int|
                0 <= j < self.table.len() ==> wrap_count(
                    self.inserted(first).table[j] + SketchModel::fresh(
                        self.width,
                        self.mixers,
                    ).inserted(second).table[j],
                ) == #[trigger] self.inserted(first + second).table[j],
    {
        let w = self.width as int;
        let empty = SketchModel::fresh(self.width, self.mixers);
        assert forall|j: int| 0 <= j < self.table.len() implies wrap_count(
            self.inserted(first).table[j] + empty.inserted(second).table[j],
        ) == #[trigger] self.inserted(first + second).table[j] by {
            let h1 = self.hits(first, j / w, j % w) as int;
            let h2 = self.hits(second, j / w, j % w) as int;
            lemma_row_hits_concat(self.mixers[j / w], self.width, first, second, j % w);
            lemma_wrap_add(h2, self.inserted(first).table[j] as int);
            lemma_wrap_add(self.table[j] + h1, h2);
        }
    }

    /// The slot that `key` is counted in, in `row`, lies in the table.
    pub proof fn lemma_reading_in_table(self, row: int, key: u32)
        requires
            self.wf(),
            0 <= row < self.rows(),
        ensures
            0 <= self.column(row, key) < self.width,
            0 <= row * self.width + self.column(row, key) < self.table.len(),
    {
        lemma_slot_index_in_row(self.mixers[row], key, self.width);
        self.lemma_slot_coordinates(row, self.column(row, key));
    }

    /// The smallest reading over some rows is one of their readings, and none of
    /// them is smaller.
    pub proof fn lemma_least_reading(self, key: u32, rows: nat)
        requires
            rows >= 1,
        ensures
            forall|row: int| 0 <= row < rows ==> self.least_reading(key, rows) <= #[trigger] self.reading(row, key),
            exists|row: int| 0 <= row < rows && self.least_reading(key, rows) == #[trigger] self.reading(row, key),
        decreases rows,
    {
        if rows > 1 {
            self.lemma_least_reading(key, (rows - 1) as nat);
            let rest = self.least_reading(key, (rows - 1) as nat);
            let last = self.reading(rows - 1, key);
            if last < rest {
                assert(self.least_reading(key, rows) == self.reading(rows - 1, key));
            } else {
                let r = choose|row: int|
                    0 <= row < rows - 1 && rest == #[trigger] self.reading(row, key);
                assert(self.least_reading(key, rows) == self.reading(r, key));
            }
        } else {
            assert(self.least_reading(key, rows) == self.reading(0, key));
        }
    }
}

} // verus!
