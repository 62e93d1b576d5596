//! The sketch with plain counters. It is changed only through an exclusive
//! borrow; its batch operations hand their keys out to scoped worker threads in
//! contiguous chunks and join the workers' results in chunk order.

use crate::config::{draw_mixers, shape_error, table_len, ConfigError};
use crate::counter::{add_wrapping, lemma_wrap_add, wrap_count};
use crate::hashing::derive_indices;
use crate::model::{sum_counts, SketchModel};
use crate::partition::{chunk_start, lemma_chunk_starts_ordered, pool_size, split_chunks};
use vstd::prelude::*;

verus! {

/// What a worker does with its chunk of keys.
#[derive(Clone, Copy)]
enum ChunkJob {
    /// Estimate each key of the chunk.
    Estimate,
    /// Count the keys of the chunk in a table of the worker's own.
    Count,
}

/// Appends the counts of `part` to `out`.
fn append_counts(out: &mut Vec<u32>, part: &Vec<u32>)
    ensures
        final(out)@ == old(out)@ + part@,
{
    let mut i: usize = 0;
    while i < part.len()
        invariant
            i <= part.len(),
            out@ == old(out)@ + part@.take(i as int),
        decreases part.len() - i,
    {
        out.push(part[i]);
        i += 1;
    }
}

/// Runs one scoped thread per chunk with `crossbeam::scope` and
/// `ScopedThreadBuilder::spawn`, each doing `job` on its chunk, and joins them in
/// chunk order with `ScopedJoinHandle::join`. A joined thread hands back what its
/// closure returned, so on success the results are those of
/// `CountMinSketch::work`, chunk by chunk. Where a thread could not be started
/// or did not run to its end, the outcome is `None`.
#[verifier::external_body]
fn fan_out(sketch: &CountMinSketch, job: ChunkJob, chunks: &Vec<&[u32]>) -> (joined: Option<
    Vec<Vec<u32>>,
>)
    ensures
        joined matches Some(parts) ==> {
            &&& parts.len() == chunks.len()
            &&& forall|i: int|
                0 <= i < parts.len() ==> (#[trigger] parts[i])@ == sketch.chunk_result(
                    job,
                    chunks[i]@,
                )
        },
{
    crossbeam::scope(
        |scope|
            {
                let workers: Vec<_> = chunks.iter().map(
                    |chunk| scope.builder().spawn(move |_| sketch.work(job, chunk)),
                ).collect();
                workers.into_iter().map(|worker| worker.ok()?.join().ok()).collect()
            },
    ).ok().flatten()
}

/// A Count-Min Sketch whose counters are plain 32-bit integers.
pub struct CountMinSketch {
    width: usize,
    mixers: Vec<(usize, usize)>,
    table: Vec<u32>,
}

impl View for CountMinSketch {
    type V = SketchModel;

    closed spec fn view(&self) -> SketchModel {
        SketchModel { width: self.width as nat, mixers: self.mixers@, table: self.table@ }
    }
}

impl CountMinSketch {
    #[verifier::type_invariant]
    closed spec fn inv(&self) -> bool {
        self@.wf()
    }

    /// Makes an empty sketch of `rows` rows and `width` columns with freshly
    /// drawn mixers. A shape without rows or columns, or with more counters than
    /// memory can address, is refused.
    pub fn new(rows: usize, width: usize) -> (made: Result<CountMinSketch, ConfigError>)
        ensures
            match made {
                Ok(sketch) => {
                    &&& shape_error(rows as nat, width as nat) is None
                    &&& sketch@.mixers.len() == rows
                    &&& sketch@ == SketchModel::fresh(width as nat, sketch@.mixers)
                },
                Err(error) => shape_error(rows as nat, width as nat) == Some(error),
            },
    {
        match table_len(rows, width) {
            Ok(_) => CountMinSketch::with_mixers(width, draw_mixers(rows)),
            Err(error) => Err(error),
        }
    }

    /// Makes an empty sketch with one row per given mixer and `width` columns.
    pub fn with_mixers(width: usize, mixers: Vec<(usize, usize)>) -> (made: Result<
        CountMinSketch,
        ConfigError,
    >)
        ensures
            match made {
                Ok(sketch) => {
                    &&& shape_error(mixers.len() as nat, width as nat) is None
                    &&& sketch@ == SketchModel::fresh(width as nat, mixers@)
                },
                Err(error) => shape_error(mixers.len() as nat, width as nat) == Some(error),
            },
    {
        match table_len(mixers.len(), width) {
            Ok(len) => {
                let table: Vec<u32> = vec![0u32; len];
                assert(table@ =~= SketchModel::fresh(width as nat, mixers@).table);
                Ok(CountMinSketch { width, mixers, table })
            },
            Err(error) => Err(error),
        }
    }

    /// The number of rows.
    pub fn rows(&self) -> (rows: usize)
        ensures
            rows == self@.rows(),
            self@.wf(),
    {
        proof {
            use_type_invariant(self);
        }
        self.mixers.len()
    }

    /// The number of columns of each row.
    pub fn width(&self) -> (width: usize)
        ensures
            width == self@.width,
            self@.wf(),
    {
        proof {
            use_type_invariant(self);
        }
        self.width
    }

    /// The column of `key` in every row, in row order.
    pub fn get_indices(&self, key: u32) -> (cols: Vec<usize>)
        ensures
            cols.len() == self@.rows(),
            forall|row: int| 0 <= row < cols.len() ==> #[trigger] cols[row] == self@.column(row, key),
    {
        proof {
            use_type_invariant(self);
        }
        derive_indices(&self.mixers, self.width, key)
    }

    /// The place in the table of the counter at `(row, col)`.
    fn slot_of(&self, row: usize, col: usize) -> (slot: usize)
        requires
            row < self@.rows(),
            col < self@.width,
        ensures
            slot == row * self@.width + col,
            slot < self@.table.len(),
    {
        proof {
            use_type_invariant(self);
            self@.lemma_slot_coordinates(row as int, col as int);
            assert(self.table@.len() == self.table.len());
        }
        row * self.width + col
    }

    /// The frequency estimate of `key`: the smallest of the counters that `key`
    /// is counted in, one per row.
    pub fn query(&self, key: u32) -> (estimate: u32)
        ensures
            estimate == self@.estimate(key),
    {
        proof {
            use_type_invariant(self);
        }
        let cols = self.get_indices(key);
        proof {
            self@.lemma_reading_in_table(0, key);
        }
        let mut best: u32 = self.table[self.slot_of(0, cols[0])];
        let mut row: usize = 1;
        while row < cols.len()
            invariant
                1 <= row <= cols.len(),
                cols.len() == self@.rows(),
                self@.wf(),
                forall|r: int| 0 <= r < cols.len() ==> #[trigger] cols[r] == self@.column(r, key),
                best == self@.least_reading(key, row as nat),
            decreases cols.len() - row,
        {
            proof {
                self@.lemma_reading_in_table(row as int, key);
            }
            let seen: u32 = self.table[self.slot_of(row, cols[row])];
            if seen < best {
                best = seen;
            }
            row += 1;
        }
        best
    }

    /// The estimates of the keys of `chunk`, in the order of the keys.
    pub fn query_chunk(&self, chunk: &[u32]) -> (found: Vec<u32>)
        ensures
            found@ == self@.estimates(chunk@),
    {
        let mut found: Vec<u32> = Vec::with_capacity(chunk.len());
        let mut i: usize = 0;
        while i < chunk.len()
            invariant
                i <= chunk.len(),
                found@ == self@.estimates(chunk@.take(i as int)),
            decreases chunk.len() - i,
        {
            found.push(self.query(chunk[i]));
            i += 1;
        }
        found
    }

    /// Counts every key of `chunk` once in every row, in the column that the
    /// row's mixer assigns to the key. Counters wrap.
    pub fn index_chunk(&mut self, chunk: &[u32])
        ensures
            final(self)@ == old(self)@.inserted(chunk@),
    {
        proof {
            use_type_invariant(&*self);
        }
        let ghost start = self@;
        proof {
            start.lemma_inserted_nothing();
            assert(chunk@.take(0) =~= Seq::<u32>::empty());
        }
        let mut i: usize = 0;
        while i < chunk.len()
            invariant
                i <= chunk.len(),
                start.wf(),
                self@ == start.inserted(chunk@.take(i as int)),
            decreases chunk.len() - i,
        {
            let key: u32 = chunk[i];
            let cols = derive_indices(&self.mixers, self.width, key);
            let ghost before = self@;
            proof {
                before.lemma_bumped_no_rows(key);
            }
            let mut row: usize = 0;
            while row < cols.len()
                invariant
                    row <= cols.len(),
                    before.wf(),
                    cols.len() == before.rows(),
                    forall|r: int|
                        0 <= r < cols.len() ==> #[trigger] cols[r] == before.column(r, key),
                    self@ == before.bumped_rows(key, row as nat),
                decreases cols.len() - row,
            {
                proof {
                    before.lemma_bumped_next_row(key, row as int);
                    assert(self.table@.len() == self.table.len());
                }
                let slot: usize = row * self.width + cols[row];
                let bumped: u32 = add_wrapping(self.table[slot], 1);
                self.table[slot] = bumped;
                row += 1;
            }
            proof {
                start.lemma_inserted_push(chunk@.take(i as int), key);
                assert(chunk@.take(i as int).push(key) =~= chunk@.take(i + 1));
            }
            i += 1;
        }
        assert(chunk@.take(chunk@.len() as int) == chunk@);
    }

    /// An empty sketch of the same shape and with the same mixers.
    fn empty_like(&self) -> (empty: CountMinSketch)
        ensures
            empty@ == SketchModel::fresh(self@.width, self@.mixers),
    {
        proof {
            use_type_invariant(self);
        }
        let mut mixers: Vec<(usize, usize)> = Vec::with_capacity(self.mixers.len());
        let mut row: usize = 0;
        while row < self.mixers.len()
            invariant
                row <= self.mixers.len(),
                mixers@ == self.mixers@.take(row as int),
            decreases self.mixers.len() - row,
        {
            mixers.push(self.mixers[row]);
            assert(self.mixers@.take(row as int).push(self.mixers@[row as int])
                =~= self.mixers@.take(row + 1));
            row += 1;
        }
        assert(self.mixers@.take(self.mixers@.len() as int) == self.mixers@);
        let table: Vec<u32> = vec![0u32; self.table.len()];
        assert(table@ =~= SketchModel::fresh(self@.width, self@.mixers).table);
        CountMinSketch { width: self.width, mixers, table }
    }

    /// The counters of an empty sketch of the same shape and mixers after the
    /// keys of `chunk` were counted in it.
    pub fn count_chunk(&self, chunk: &[u32]) -> (delta: Vec<u32>)
        ensures
            delta@ == SketchModel::fresh(self@.width, self@.mixers).inserted(chunk@).table,
    {
        let mut own = self.empty_like();
        own.index_chunk(chunk);
        own.table
    }

    /// Adds the counts of `delta` to the counters, place by place. Counters wrap.
    fn absorb(&mut self, delta: &Vec<u32>)
        requires
            delta.len() == old(self)@.table.len(),
        ensures
            final(self)@.width == old(self)@.width,
            final(self)@.mixers == old(self)@.mixers,
            final(self)@.table.len() == old(self)@.table.len(),
            forall|j: int|
                0 <= j < delta.len() ==> #[trigger] final(self)@.table[j] == wrap_count(
                    old(self)@.table[j] + delta[j],
                ),
    {
        proof {
            use_type_invariant(&*self);
        }
        let mut j: usize = 0;
        while j < delta.len()
            invariant
                j <= delta.len(),
                self@.wf(),
                self@.width == old(self)@.width,
                self@.mixers == old(self)@.mixers,
                self@.table.len() == delta.len(),
                old(self)@.table.len() == delta.len(),
                forall|k: int|
                    0 <= k < j ==> #[trigger] self@.table[k] == wrap_count(
                        old(self)@.table[k] + delta[k],
                    ),
                forall|k: int| j <= k < delta.len() ==> #[trigger] self@.table[k] == old(self)@.table[k],
            decreases delta.len() - j,
        {
            let sum: u32 = add_wrapping(self.table[j], delta[j]);
            self.table[j] = sum;
            j += 1;
        }
    }

    /// What `job` yields on the keys of one chunk.
    spec fn chunk_result(&self, job: ChunkJob, keys: Seq<u32>) -> Seq<u32> {
        match job {
            ChunkJob::Estimate => self@.estimates(keys),
            ChunkJob::Count => SketchModel::fresh(self@.width, self@.mixers).inserted(keys).table,
        }
    }

    /// Does `job` on one chunk of keys.
    fn work(&self, job: ChunkJob, chunk: &[u32]) -> (done: Vec<u32>)
        ensures
            done@ == self.chunk_result(job, chunk@),
    {
        match job {
            ChunkJob::Estimate => self.query_chunk(chunk),
            ChunkJob::Count => self.count_chunk(chunk),
        }
    }

    /// Counts every key of `keys` once in every row: afterwards each counter has
    /// grown by the number of keys that its row sends to its column, and none of
    /// these increments is lost. Counters wrap: estimates are upper bounds of
    /// the true counts only as long as the batches counted so far fit
    /// (`SketchModel::fits`). The keys are shared out among as
    /// many workers as rayon's current pool has threads; each worker counts its
    /// chunk into a table of its own, and the tables are then added to the
    /// sketch one after the other.
    pub fn batch_index(&mut self, keys: &Vec<u32>)
        ensures
            final(self)@ == old(self)@.inserted(keys@),
    {
        proof {
            use_type_invariant(&*self);
        }
        let workers: usize = pool_size();
        let chunks = split_chunks(keys.as_slice(), workers);
        match fan_out(self, ChunkJob::Count, &chunks) {
            Some(parts) => {
                let ghost len = keys@.len();
                let ghost start = self@;
                let ghost empty = SketchModel::fresh(start.width, start.mixers);
                let mut i: usize = 0;
                proof {
                    lemma_chunk_starts_ordered(len, workers as nat, 0);
                    start.lemma_inserted_nothing();
                    assert(keys@.take(0) =~= Seq::<u32>::empty());
                }
                while i < parts.len()
                    invariant
                        i <= parts.len(),
                        len == keys@.len(),
                        parts.len() == chunks.len(),
                        start.wf(),
                        empty == SketchModel::fresh(start.width, start.mixers),
                        forall|c: int|
                            0 <= c < parts.len() ==> (#[trigger] parts[c])@ == empty.inserted(
                                chunks[c]@,
                            ).table,
                        forall|c: int|
                            0 <= c < chunks.len() ==> (#[trigger] chunks[c])@ == keys@.subrange(
                                chunk_start(len, workers as nat, c as nat) as int,
                                chunk_start(len, workers as nat, (c + 1) as nat) as int,
                            ),
                        self@ == start.inserted(
                            keys@.take(chunk_start(len, workers as nat, i as nat) as int),
                        ),
                    decreases parts.len() - i,
                {
                    let ghost from = chunk_start(len, workers as nat, i as nat) as int;
                    let ghost to = chunk_start(len, workers as nat, (i + 1) as nat) as int;
                    proof {
                        lemma_chunk_starts_ordered(len, workers as nat, i as nat);
                        assert(keys@.take(from) + keys@.subrange(from, to) =~= keys@.take(to));
                        start.lemma_inserted_merge(keys@.take(from), keys@.subrange(from, to));
                    }
                    self.absorb(&parts[i]);
                    proof {
                        assert(self@.table =~= start.inserted(keys@.take(to)).table);
                    }
                    i += 1;
                }
                assert(keys@.take(len as int) == keys@);
            },
            None => self.index_chunk(keys.as_slice()),
        }
    }

    /// The sum of all counters, reduced as a counter is: where the sum fits in 32
    /// bits, the sum itself.
    pub fn sum(&self) -> (total: u32)
        ensures
            total == wrap_count(self@.total() as int),
            self@.total() <= u32::MAX ==> total == self@.total(),
    {
        let mut total: u32 = 0;
        let mut j: usize = 0;
        while j < self.table.len()
            invariant
                j <= self.table.len(),
                total == wrap_count(sum_counts(self.table@.take(j as int)) as int),
            decreases self.table.len() - j,
        {
            proof {
                let so_far = sum_counts(self.table@.take(j as int)) as int;
                assert(self.table@.take(j + 1).drop_last() =~= self.table@.take(j as int));
                lemma_wrap_add(so_far, self.table[j as int] as int);
            }
            total = add_wrapping(total, self.table[j]);
            j += 1;
        }
        assert(self.table@.take(self.table@.len() as int) == self.table@);
        total
    }

    /// The frequency estimate of every key of `keys`: the estimate at position
    /// `i` is that of the key at position `i`. The keys are shared out among as
    /// many workers as rayon's current pool has threads.
    pub fn batch_query(&self, keys: &Vec<u32>) -> (found: Vec<u32>)
        ensures
            found@ == self@.estimates(keys@),
    {
        let workers: usize = pool_size();
        let chunks = split_chunks(keys.as_slice(), workers);
        match fan_out(self, ChunkJob::Estimate, &chunks) {
            Some(parts) => {
                let ghost len = keys@.len();
                let mut found: Vec<u32> = Vec::with_capacity(keys.len());
                let mut i: usize = 0;
                proof {
                    lemma_chunk_starts_ordered(len, workers as nat, 0);
                }
                while i < parts.len()
                    invariant
                        i <= parts.len(),
                        len == keys@.len(),
                        parts.len() == chunks.len(),
                        forall|c: int|
                            0 <= c < parts.len() ==> (#[trigger] parts[c])@ == self.chunk_result(
                                ChunkJob::Estimate,
                                chunks[c]@,
                            ),
                        forall|c: int|
                            0 <= c < chunks.len() ==> (#[trigger] chunks[c])@ == keys@.subrange(
                                chunk_start(len, workers as nat, c as nat) as int,
                                chunk_start(len, workers as nat, (c + 1) as nat) as int,
                            ),
                        found@ == self@.estimates(
                            keys@.take(chunk_start(len, workers as nat, i as nat) as int),
                        ),
                    decreases parts.len() - i,
                {
                    proof {
                        lemma_chunk_starts_ordered(len, workers as nat, i as nat);
                        let from = chunk_start(len, workers as nat, i as nat) as int;
                        let to = chunk_start(len, workers as nat, (i + 1) as nat) as int;
                        assert(self@.estimates(keys@.take(from)) + self@.estimates(
                            keys@.subrange(from, to),
                        ) =~= self@.estimates(keys@.take(to)));
                    }
                    append_counts(&mut found, &parts[i]);
                    i += 1;
                }
                found
            },
            None => self.query_chunk(keys.as_slice()),
        }
    }
}

} // verus!
