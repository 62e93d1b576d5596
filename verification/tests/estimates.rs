use count_min_sketch::{CountMinSketch, CountMinSketchSafe};

fn spread_mixers() -> Vec<(usize, usize)> {
    // With 16 columns, keys 0..=4 fall on columns k and 3k + 1: no two keys meet.
    vec![(1, 0), (3, 1)]
}

#[test]
fn estimates_are_exact_where_no_keys_collide() {
    let keys: Vec<u32> = vec![0, 1, 2, 3, 4, 0, 0, 2];
    let mut plain = CountMinSketch::with_mixers(16, spread_mixers()).unwrap();
    plain.batch_index(&keys);
    assert_eq!(plain.batch_query(&vec![0, 1, 2, 3, 4]), vec![3, 1, 2, 1, 1]);
    let mut atomic = CountMinSketchSafe::with_mixers(16, spread_mixers()).unwrap();
    atomic.batch_index(&keys);
    assert_eq!(atomic.batch_query(&vec![0, 1, 2, 3, 4]), vec![3, 1, 2, 1, 1]);
}

#[test]
fn estimates_come_in_the_order_of_the_keys() {
    let keys: Vec<u32> = vec![0, 1, 2, 3, 4, 0, 0, 2];
    let asked: Vec<u32> = vec![4, 0, 2, 0, 3, 1, 2, 2, 4, 0];
    let mut plain = CountMinSketch::with_mixers(16, spread_mixers()).unwrap();
    plain.batch_index(&keys);
    assert_eq!(plain.batch_query(&asked), vec![1, 3, 2, 3, 1, 1, 2, 2, 1, 3]);
    assert_eq!(plain.query_chunk(&asked), vec![1, 3, 2, 3, 1, 1, 2, 2, 1, 3]);
    let mut atomic = CountMinSketchSafe::with_mixers(16, spread_mixers()).unwrap();
    atomic.batch_index(&keys);
    assert_eq!(atomic.batch_query(&asked), vec![1, 3, 2, 3, 1, 1, 2, 2, 1, 3]);
    for i in 0..asked.len() {
        assert_eq!(plain.batch_query(&asked)[i], plain.query(asked[i]));
        assert_eq!(atomic.batch_query(&asked)[i], atomic.query(asked[i]));
    }
}

#[test]
fn an_estimate_is_the_smallest_counter_of_the_key() {
    // Row 0 sends every key to column 0; row 1 tells the keys apart.
    let mixers: Vec<(usize, usize)> = vec![(0, 0), (1, 0)];
    let keys: Vec<u32> = vec![1, 1, 2, 3, 3, 3];
    let mut plain = CountMinSketch::with_mixers(8, mixers.clone()).unwrap();
    plain.batch_index(&keys);
    assert_eq!(plain.batch_query(&vec![1, 2, 3, 4]), vec![2, 1, 3, 0]);
    let mut atomic = CountMinSketchSafe::with_mixers(8, mixers).unwrap();
    atomic.batch_index(&keys);
    assert_eq!(atomic.batch_query(&vec![1, 2, 3, 4]), vec![2, 1, 3, 0]);
}

#[test]
fn colliding_keys_are_overestimated_never_underestimated() {
    // One row of four columns: keys 1 and 5 share column 1.
    let keys: Vec<u32> = vec![1, 5, 5];
    let mut plain = CountMinSketch::with_mixers(4, vec![(1, 0)]).unwrap();
    plain.batch_index(&keys);
    assert_eq!(plain.batch_query(&vec![1, 5, 9, 2]), vec![3, 3, 3, 0]);
    let mut atomic = CountMinSketchSafe::with_mixers(4, vec![(1, 0)]).unwrap();
    atomic.batch_index(&keys);
    assert_eq!(atomic.batch_query(&vec![1, 5, 9, 2]), vec![3, 3, 3, 0]);
}

#[test]
fn estimates_never_fall_below_the_true_count() {
    let mut plain = CountMinSketch::new(3, 7).unwrap();
    let mut atomic = CountMinSketchSafe::new(3, 7).unwrap();
    let mut keys: Vec<u32> = Vec::new();
    for key in 0..50u32 {
        for _ in 0..(key % 5 + 1) {
            keys.push(key);
        }
    }
    plain.batch_index(&keys);
    atomic.batch_index(&keys);
    for key in 0..50u32 {
        assert!(plain.query(key) >= key % 5 + 1);
        assert!(atomic.query(key) >= key % 5 + 1);
    }
}

#[test]
fn estimates_never_decrease() {
    let mut plain = CountMinSketch::new(3, 7).unwrap();
    let mut atomic = CountMinSketchSafe::new(3, 7).unwrap();
    let asked: Vec<u32> = (0..30).collect();
    let mut last_plain = plain.batch_query(&asked);
    let mut last_atomic = atomic.batch_query(&asked);
    for round in 0..10u32 {
        let batch: Vec<u32> = (0..20).map(|i| (i * (round + 3)) % 30).collect();
        plain.batch_index(&batch);
        atomic.batch_index(&batch);
        let now_plain = plain.batch_query(&asked);
        let now_atomic = atomic.batch_query(&asked);
        for i in 0..asked.len() {
            assert!(now_plain[i] >= last_plain[i]);
            assert!(now_atomic[i] >= last_atomic[i]);
        }
        last_plain = now_plain;
        last_atomic = now_atomic;
    }
}

#[test]
fn earlier_batches_stay_counted() {
    let mut plain = CountMinSketch::with_mixers(16, spread_mixers()).unwrap();
    plain.batch_index(&vec![0, 1]);
    plain.batch_index(&vec![1, 2]);
    plain.index_chunk(&[2, 2, 3]);
    assert_eq!(plain.batch_query(&vec![0, 1, 2, 3, 4]), vec![1, 2, 3, 1, 0]);
    let mut atomic = CountMinSketchSafe::with_mixers(16, spread_mixers()).unwrap();
    atomic.batch_index(&vec![0, 1]);
    atomic.batch_index(&vec![1, 2]);
    atomic.batch_index(&vec![2, 2, 3]);
    assert_eq!(atomic.batch_query(&vec![0, 1, 2, 3, 4]), vec![1, 2, 3, 1, 0]);
}

#[test]
fn the_sum_is_rows_times_keys() {
    let mut plain = CountMinSketch::new(5, 9).unwrap();
    let mut atomic = CountMinSketchSafe::new(5, 9).unwrap();
    let keys: Vec<u32> = (0..1234).collect();
    plain.batch_index(&keys);
    atomic.batch_index(&keys);
    assert_eq!(plain.sum(), 5 * 1234);
    assert_eq!(atomic.sum(), 5 * 1234);
    plain.batch_index(&keys);
    atomic.batch_index(&keys);
    assert_eq!(plain.sum(), 2 * 5 * 1234);
    assert_eq!(atomic.sum(), 2 * 5 * 1234);
}

#[test]
fn a_worker_counts_its_chunk_into_a_table_of_its_own() {
    let mut sketch = CountMinSketch::with_mixers(4, vec![(1, 0), (1, 1)]).unwrap();
    sketch.index_chunk(&[0, 0, 0]);
    let delta = sketch.count_chunk(&[0, 1, 1, 3]);
    assert_eq!(delta, vec![1, 2, 0, 1, 1, 1, 2, 0]);
    assert_eq!(sketch.sum(), 6);
    assert_eq!(sketch.query(0), 3);
}
