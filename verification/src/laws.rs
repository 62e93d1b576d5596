//! What holds of every sketch, stated over the model and proved from it.
//!
//! Counters wrap, so the laws that compare counts before and after an insertion
//! ask that no counter wraps during it (`SketchModel::fits`).

use crate::hashing::slot_index;
use crate::counter::{counter_modulus, lemma_wrap_add, wrap_count};
use crate::model::{lemma_row_hits_concat, row_hits, sum_counts, true_count, SketchModel};
use vstd::arithmetic::div_mod::lemma_small_mod;
use vstd::prelude::*;

verus! {

/// A row counts no more hits in a column than there are keys.
pub proof fn lemma_hits_bounded(mixer: (usize, usize), width: nat, keys: Seq<u32>, col: int)
    ensures
        row_hits(mixer, width, keys, col) <= keys.len(),
    decreases keys.len(),
{
    if keys.len() > 0 {
        lemma_hits_bounded(mixer, width, keys.drop_last(), col);
    }
}

/// Every occurrence of a key is a hit in the key's column.
pub proof fn lemma_hits_cover_count(mixer: (usize, usize), width: nat, keys: Seq<u32>, key: u32)
    ensures
        row_hits(mixer, width, keys, slot_index(mixer, key, width)) >= true_count(keys, key),
    decreases keys.len(),
{
    if keys.len() > 0 {
        lemma_hits_cover_count(mixer, width, keys.drop_last(), key);
    }
}

/// Where no other key of the batch shares the key's column, the hits in that
/// column are the occurrences of the key.
pub proof fn lemma_hits_without_collision(
    mixer: (usize, usize),
    width: nat,
    keys: Seq<u32>,
    key: u32,
)
    requires
        forall|i: int|
            0 <= i < keys.len() && keys[i] != key ==> slot_index(mixer, #[trigger] keys[i], width)
                != slot_index(mixer, key, width),
    ensures
        row_hits(mixer, width, keys, slot_index(mixer, key, width)) == true_count(keys, key),
    decreases keys.len(),
{
    if keys.len() > 0 {
        let rest = keys.drop_last();
        assert forall|i: int| 0 <= i < rest.len() && rest[i] != key implies slot_index(
            mixer,
            #[trigger] rest[i],
            width,
        ) != slot_index(mixer, key, width) by {
            assert(rest[i] == keys[i]);
        }
        lemma_hits_without_collision(mixer, width, rest, key);
    }
}

/// The sum of counters after one of them was replaced.
pub proof fn lemma_sum_counts_update(counts: Seq<u32>, i: int, value: u32)
    requires
        0 <= i < counts.len(),
    ensures
        sum_counts(counts.update(i, value)) == sum_counts(counts) - counts[i] + value,
    decreases counts.len(),
{
    if i == counts.len() - 1 {
        assert(counts.update(i, value).drop_last() =~= counts.drop_last());
    } else {
        assert(counts.update(i, value).drop_last() =~= counts.drop_last().update(i, value));
        lemma_sum_counts_update(counts.drop_last(), i, value);
    }
}

/// Counters that are all zero sum to zero.
pub proof fn lemma_sum_counts_zero(counts: Seq<u32>)
    requires
        forall|i: int| 0 <= i < counts.len() ==> counts[i] == 0,
    ensures
        sum_counts(counts) == 0,
    decreases counts.len(),
{
    if counts.len() > 0 {
        lemma_sum_counts_zero(counts.drop_last());
    }
}

/// A new sketch is empty: every estimate is zero, and so is the sum of its
/// counters.
pub proof fn lemma_fresh_is_empty(width: nat, mixers: Seq<(usize, usize)>, key: u32)
    requires
        SketchModel::fresh(width, mixers).wf(),
    ensures
        SketchModel::fresh(width, mixers).estimate(key) == 0,
        SketchModel::fresh(width, mixers).total() == 0,
{
    let empty = SketchModel::fresh(width, mixers);
    empty.lemma_least_reading(key, empty.rows());
    let row = choose|row: int|
        0 <= row < empty.rows() && empty.least_reading(key, empty.rows()) == #[trigger] empty.reading(
            row,
            key,
        );
    empty.lemma_reading_in_table(row, key);
    lemma_sum_counts_zero(empty.table);
}

/// A new sketch can count any batch of at most `u32::MAX` keys without a
/// counter wrapping.
pub proof fn lemma_fresh_fits(width: nat, mixers: Seq<(usize, usize)>, keys: Seq<u32>)
    requires
        SketchModel::fresh(width, mixers).wf(),
        keys.len() <= u32::MAX,
    ensures
        SketchModel::fresh(width, mixers).fits(keys),
{
    let empty = SketchModel::fresh(width, mixers);
    assert forall|row: int, col: int| 0 <= row < empty.rows() && 0 <= col < empty.width implies
        empty.counter(row, col) + #[trigger] empty.hits(keys, row, col) <= u32::MAX by {
        empty.lemma_slot_coordinates(row, col);
        lemma_hits_bounded(mixers[row], width, keys, col);
    }
}

/// A batch that makes no counter wrap has no part that does.
pub proof fn lemma_fits_prefix(s: SketchModel, keys: Seq<u32>)
    requires
        s.wf(),
        s.fits(keys),
        keys.len() > 0,
    ensures
        s.fits(keys.drop_last()),
{
    assert forall|row: int, col: int| 0 <= row < s.rows() && 0 <= col < s.width implies s.counter(
        row,
        col,
    ) + #[trigger] s.hits(keys.drop_last(), row, col) <= u32::MAX by {
        assert(s.hits(keys, row, col) >= s.hits(keys.drop_last(), row, col));
    }
}

/// Where no counter wraps, a counter read for a key has grown by the hits in
/// the key's column.
pub proof fn lemma_reading_after_insert(s: SketchModel, keys: Seq<u32>, row: int, key: u32)
    requires
        s.wf(),
        s.fits(keys),
        0 <= row < s.rows(),
    ensures
        s.inserted(keys).reading(row, key) == s.reading(row, key) + s.hits(
            keys,
            row,
            s.column(row, key),
        ),
{
    let col = s.column(row, key);
    s.lemma_reading_in_table(row, key);
    s.lemma_slot_coordinates(row, col);
    lemma_small_mod(
        (s.counter(row, col) + s.hits(keys, row, col)) as nat,
        counter_modulus() as nat,
    );
}

/// Where no counter wraps, counting a batch raises the estimate of every key by
/// at least the number of times the batch holds it.
pub proof fn lemma_estimate_covers_count(s: SketchModel, keys: Seq<u32>, key: u32)
    requires
        s.wf(),
        s.fits(keys),
    ensures
        s.inserted(keys).estimate(key) >= s.estimate(key) + true_count(keys, key),
{
    let after = s.inserted(keys);
    after.lemma_least_reading(key, after.rows());
    s.lemma_least_reading(key, s.rows());
    let row = choose|row: int|
        0 <= row < after.rows() && after.least_reading(key, after.rows())
            == #[trigger] after.reading(row, key);
    lemma_reading_after_insert(s, keys, row, key);
    lemma_hits_cover_count(s.mixers[row], s.width, keys, key);
}

/// The estimate that a new sketch gives for a key after a batch is at least the
/// number of times the batch holds the key.
pub proof fn lemma_estimate_never_below_true_count(
    width: nat,
    mixers: Seq<(usize, usize)>,
    keys: Seq<u32>,
    key: u32,
)
    requires
        SketchModel::fresh(width, mixers).wf(),
        SketchModel::fresh(width, mixers).fits(keys),
    ensures
        SketchModel::fresh(width, mixers).inserted(keys).estimate(key) >= true_count(keys, key),
{
    lemma_estimate_covers_count(SketchModel::fresh(width, mixers), keys, key);
}

/// Where no counter wraps, counting a batch lowers no estimate.
pub proof fn lemma_estimate_never_decreases(s: SketchModel, keys: Seq<u32>, key: u32)
    requires
        s.wf(),
        s.fits(keys),
    ensures
        s.inserted(keys).estimate(key) >= s.estimate(key),
{
    lemma_estimate_covers_count(s, keys, key);
}

/// Counting two batches one after the other is counting them as one batch,
/// whether counters wrap or not.
pub proof fn lemma_batches_add_up(s: SketchModel, first: Seq<u32>, second: Seq<u32>)
    requires
        s.wf(),
    ensures
        s.inserted(first).inserted(second) == s.inserted(first + second),
{
    let w = s.width as int;
    let twice = s.inserted(first).inserted(second);
    let once = s.inserted(first + second);
    assert forall|j: int| 0 <= j < s.table.len() implies twice.table[j] == once.table[j] by {
        lemma_row_hits_concat(s.mixers[j / w], s.width, first, second, j % w);
        lemma_wrap_add(
            s.table[j] + s.hits(first, j / w, j % w),
            s.hits(second, j / w, j % w) as int,
        );
    }
    assert(twice.table =~= once.table);
}

/// The sketch after the batches of `batches` were counted one after the other.
pub open spec fn after_batches(s: SketchModel, batches: Seq<Seq<u32>>) -> SketchModel
    decreases batches.len(),
{
    if batches.len() == 0 {
        s
    } else {
        after_batches(s, batches.drop_last()).inserted(batches.last())
    }
}

/// No counter wraps while the batches of `batches` are counted one after the
/// other.
pub open spec fn fits_batches(s: SketchModel, batches: Seq<Seq<u32>>) -> bool {
    forall|n: int|
        0 <= n < batches.len() ==> (#[trigger] after_batches(s, batches.take(n))).fits(batches[n])
}

/// Counting batches keeps the shape and the mixers.
pub proof fn lemma_after_batches_shape(s: SketchModel, batches: Seq<Seq<u32>>)
    requires
        s.wf(),
    ensures
        after_batches(s, batches).wf(),
        after_batches(s, batches).width == s.width,
        after_batches(s, batches).mixers == s.mixers,
    decreases batches.len(),
{
    if batches.len() > 0 {
        lemma_after_batches_shape(s, batches.drop_last());
    }
}

/// The keys of all batches of `batches`, in the order in which they are
/// counted.
pub open spec fn all_keys(batches: Seq<Seq<u32>>) -> Seq<u32>
    decreases batches.len(),
{
    if batches.len() == 0 {
        Seq::<u32>::empty()
    } else {
        all_keys(batches.drop_last()) + batches.last()
    }
}

/// The sketch after some batches is the sketch after one batch of all their
/// keys.
pub proof fn lemma_batches_count_all_keys(s: SketchModel, batches: Seq<Seq<u32>>)
    requires
        s.wf(),
    ensures
        after_batches(s, batches) == s.inserted(all_keys(batches)),
    decreases batches.len(),
{
    if batches.len() == 0 {
        s.lemma_inserted_nothing();
    } else {
        lemma_batches_count_all_keys(s, batches.drop_last());
        lemma_batches_add_up(s, all_keys(batches.drop_last()), batches.last());
    }
}

/// After a new sketch counted any batches without a counter wrapping, its
/// estimate of a key is at least the number of times the key was counted.
pub proof fn lemma_estimate_never_below_true_count_over_batches(
    width: nat,
    mixers: Seq<(usize, usize)>,
    batches: Seq<Seq<u32>>,
    key: u32,
)
    requires
        SketchModel::fresh(width, mixers).wf(),
        SketchModel::fresh(width, mixers).fits(all_keys(batches)),
    ensures
        after_batches(SketchModel::fresh(width, mixers), batches).estimate(key) >= true_count(
            all_keys(batches),
            key,
        ),
{
    lemma_batches_count_all_keys(SketchModel::fresh(width, mixers), batches);
    lemma_estimate_never_below_true_count(width, mixers, all_keys(batches), key);
}

/// After a new sketch counted any batches without a counter wrapping, its
/// counters sum to the number of rows times the number of keys counted.
pub proof fn lemma_total_is_rows_times_keys_over_batches(
    width: nat,
    mixers: Seq<(usize, usize)>,
    batches: Seq<Seq<u32>>,
)
    requires
        SketchModel::fresh(width, mixers).wf(),
        SketchModel::fresh(width, mixers).fits(all_keys(batches)),
    ensures
        after_batches(SketchModel::fresh(width, mixers), batches).total() == mixers.len()
            * all_keys(batches).len(),
{
    lemma_batches_count_all_keys(SketchModel::fresh(width, mixers), batches);
    lemma_total_is_rows_times_keys(width, mixers, all_keys(batches));
}

/// Where no counter wraps, the estimate of a key after more batches is never
/// below its estimate after fewer of them.
pub proof fn lemma_estimate_grows_over_batches(
    s: SketchModel,
    batches: Seq<Seq<u32>>,
    earlier: int,
    later: int,
    key: u32,
)
    requires
        s.wf(),
        fits_batches(s, batches),
        0 <= earlier <= later <= batches.len(),
    ensures
        after_batches(s, batches.take(earlier)).estimate(key) <= after_batches(
            s,
            batches.take(later),
        ).estimate(key),
    decreases later - earlier,
{
    if earlier < later {
        lemma_estimate_grows_over_batches(s, batches, earlier, later - 1, key);
        let before = after_batches(s, batches.take(later - 1));
        lemma_after_batches_shape(s, batches.take(later - 1));
        assert(batches.take(later).drop_last() =~= batches.take(later - 1));
        lemma_estimate_never_decreases(before, batches[later - 1], key);
    }
}

/// The keys of a batch other than `key` share no column with `key`, in any row.
pub open spec fn alone_in_its_columns(s: SketchModel, keys: Seq<u32>, key: u32) -> bool {
    forall|row: int, i: int|
        0 <= row < s.rows() && 0 <= i < keys.len() && keys[i] != key ==> #[trigger] s.column(
            row,
            keys[i],
        ) != s.column(row, key)
}

/// No two distinct keys of the batch share a column, in any row.
pub open spec fn collision_free(s: SketchModel, keys: Seq<u32>) -> bool {
    forall|i: int| 0 <= i < keys.len() ==> alone_in_its_columns(s, keys, #[trigger] keys[i])
}

/// Where no counter wraps and no other key of the batch shares a column with
/// `key`, counting the batch raises the estimate of `key` by exactly the number
/// of times the batch holds it.
pub proof fn lemma_estimate_exact_when_alone(s: SketchModel, keys: Seq<u32>, key: u32)
    requires
        s.wf(),
        s.fits(keys),
        alone_in_its_columns(s, keys, key),
    ensures
        s.inserted(keys).estimate(key) == s.estimate(key) + true_count(keys, key),
{
    let after = s.inserted(keys);
    lemma_estimate_covers_count(s, keys, key);
    s.lemma_least_reading(key, s.rows());
    after.lemma_least_reading(key, after.rows());
    let row = choose|row: int|
        0 <= row < s.rows() && s.least_reading(key, s.rows()) == #[trigger] s.reading(row, key);
    lemma_reading_after_insert(s, keys, row, key);
    assert forall|i: int| 0 <= i < keys.len() && keys[i] != key implies slot_index(
        s.mixers[row],
        #[trigger] keys[i],
        s.width,
    ) != slot_index(s.mixers[row], key, s.width) by {
        assert(s.column(row, keys[i]) != s.column(row, key));
    }
    lemma_hits_without_collision(s.mixers[row], s.width, keys, key);
}

/// Where no two distinct keys of a batch share a column in any row, the
/// estimate that a new sketch gives for a key of the batch, after the batch, is
/// the number of times the batch holds the key.
pub proof fn lemma_exact_without_collisions(
    width: nat,
    mixers: Seq<(usize, usize)>,
    keys: Seq<u32>,
    i: int,
)
    requires
        SketchModel::fresh(width, mixers).wf(),
        SketchModel::fresh(width, mixers).fits(keys),
        collision_free(SketchModel::fresh(width, mixers), keys),
        0 <= i < keys.len(),
    ensures
        SketchModel::fresh(width, mixers).inserted(keys).estimate(keys[i]) == true_count(
            keys,
            keys[i],
        ),
{
    let empty = SketchModel::fresh(width, mixers);
    lemma_estimate_exact_when_alone(empty, keys, keys[i]);
    lemma_fresh_is_empty(width, mixers, keys[i]);
}

/// A batch that holds one key `times` times holds it `times` times.
pub proof fn lemma_true_count_of_repeated_key(key: u32, times: nat)
    ensures
        true_count(Seq::new(times, |i: int| key), key) == times,
    decreases times,
{
    if times > 0 {
        assert(Seq::new(times, |i: int| key).drop_last() =~= Seq::new(
            (times - 1) as nat,
            |i: int| key,
        ));
        lemma_true_count_of_repeated_key(key, (times - 1) as nat);
    }
}

/// After a new sketch counted a batch that holds the same key `times` times,
/// the estimate of the key is `times`.
pub proof fn lemma_repeated_key_is_counted_every_time(
    width: nat,
    mixers: Seq<(usize, usize)>,
    key: u32,
    times: nat,
)
    requires
        SketchModel::fresh(width, mixers).wf(),
        0 < times <= u32::MAX,
    ensures
        SketchModel::fresh(width, mixers).inserted(Seq::new(times, |i: int| key)).estimate(key)
            == times,
{
    let keys = Seq::new(times, |i: int| key);
    let empty = SketchModel::fresh(width, mixers);
    lemma_fresh_fits(width, mixers, keys);
    assert(collision_free(empty, keys));
    lemma_exact_without_collisions(width, mixers, keys, 0);
    lemma_true_count_of_repeated_key(key, times);
}

/// Where no counter of the key's slots is at its maximum, counting a key in
/// some rows raises the sum of all counters by the number of these rows.
pub proof fn lemma_total_after_bump(s: SketchModel, key: u32, rows: nat)
    requires
        s.wf(),
        rows <= s.rows(),
        forall|row: int| 0 <= row < rows ==> #[trigger] s.reading(row, key) < u32::MAX,
    ensures
        s.bumped_rows(key, rows).total() == s.total() + rows,
    decreases rows,
{
    if rows == 0 {
        s.lemma_bumped_no_rows(key);
    } else {
        let row = rows - 1;
        lemma_total_after_bump(s, key, row as nat);
        s.lemma_bumped_next_row(key, row);
        lemma_small_mod((s.reading(row, key) + 1) as nat, counter_modulus() as nat);
        lemma_sum_counts_update(
            s.bumped_rows(key, row as nat).table,
            row * s.width + s.column(row, key),
            wrap_count(s.reading(row, key) + 1),
        );
    }
}

/// Where no counter wraps, counting a batch raises the sum of all counters by
/// the number of rows for every key of the batch.
pub proof fn lemma_total_after_insert(s: SketchModel, keys: Seq<u32>)
    requires
        s.wf(),
        s.fits(keys),
    ensures
        s.inserted(keys).total() == s.total() + s.rows() * keys.len(),
    decreases keys.len(),
{
    if keys.len() == 0 {
        assert(keys =~= Seq::<u32>::empty());
        s.lemma_inserted_nothing();
    } else {
        let rest = keys.drop_last();
        let key = keys.last();
        let mid = s.inserted(rest);
        lemma_fits_prefix(s, keys);
        lemma_total_after_insert(s, rest);
        assert(rest.push(key) =~= keys);
        s.lemma_inserted_push(rest, key);
        assert forall|row: int| 0 <= row < mid.rows() implies #[trigger] mid.reading(row, key)
            < u32::MAX by {
            lemma_reading_after_insert(s, rest, row, key);
            s.lemma_reading_in_table(row, key);
            assert(s.counter(row, s.column(row, key)) + s.hits(keys, row, s.column(row, key))
                <= u32::MAX);
        }
        lemma_total_after_bump(mid, key, mid.rows());
        assert(s.rows() * keys.len() == s.rows() * rest.len() + s.rows()) by (nonlinear_arith)
            requires
                keys.len() == rest.len() + 1,
        ;
    }
}

/// After a new sketch counted a batch without a counter wrapping, its counters
/// sum to the number of rows times the number of keys.
pub proof fn lemma_total_is_rows_times_keys(
    width: nat,
    mixers: Seq<(usize, usize)>,
    keys: Seq<u32>,
)
    requires
        SketchModel::fresh(width, mixers).wf(),
        SketchModel::fresh(width, mixers).fits(keys),
    ensures
        SketchModel::fresh(width, mixers).inserted(keys).total() == mixers.len() * keys.len(),
{
    lemma_total_after_insert(SketchModel::fresh(width, mixers), keys);
    lemma_fresh_is_empty(width, mixers, 0);
}

} // verus!
