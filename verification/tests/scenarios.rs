use count_min_sketch::{CountMinSketch, CountMinSketchSafe};

fn one_to_ten() -> Vec<u32> {
    vec![1, 2, 3, 4, 5, 6, 7, 8, 9, 10]
}

#[test]
fn ten_keys_in_two_rows_of_five() {
    let mut sketch = CountMinSketch::new(2, 5).unwrap();
    let keys = one_to_ten();
    sketch.batch_index(&keys);
    let found = sketch.batch_query(&keys);
    assert_eq!(found.len(), keys.len());
    for estimate in found {
        assert!(estimate >= 1);
    }
    assert_eq!(sketch.sum(), 20);
}

#[test]
fn ten_keys_in_two_atomic_rows_of_five() {
    let mut sketch = CountMinSketchSafe::new(2, 5).unwrap();
    let keys = one_to_ten();
    sketch.batch_index(&keys);
    let found = sketch.batch_query(&keys);
    assert_eq!(found.len(), keys.len());
    for estimate in found {
        assert!(estimate >= 1);
    }
    assert_eq!(sketch.sum(), 20);
}

#[test]
fn concurrent_increments_of_one_key_are_all_counted() {
    let pool = rayon::ThreadPoolBuilder::new().num_threads(8).build().unwrap();
    pool.install(|| {
        let mut sketch = CountMinSketchSafe::new(4, 64).unwrap();
        let times: usize = 200_000;
        let keys: Vec<u32> = vec![77; times];
        sketch.batch_index(&keys);
        assert_eq!(sketch.query(77), 200_000);
        assert_eq!(sketch.batch_query(&vec![77]), vec![200_000]);
        assert_eq!(sketch.sum(), 800_000);
    });
}

#[test]
fn chunked_increments_of_one_key_are_all_counted() {
    let pool = rayon::ThreadPoolBuilder::new().num_threads(8).build().unwrap();
    pool.install(|| {
        let mut sketch = CountMinSketch::new(4, 64).unwrap();
        let keys: Vec<u32> = vec![77; 200_000];
        sketch.batch_index(&keys);
        assert_eq!(sketch.query(77), 200_000);
        assert_eq!(sketch.sum(), 800_000);
    });
}

#[test]
fn empty_batches_change_and_return_nothing() {
    let none: Vec<u32> = Vec::new();
    let mut plain = CountMinSketch::new(3, 8).unwrap();
    plain.batch_index(&none);
    assert_eq!(plain.batch_query(&none), Vec::<u32>::new());
    assert_eq!(plain.sum(), 0);
    let mut atomic = CountMinSketchSafe::new(3, 8).unwrap();
    atomic.batch_index(&none);
    assert_eq!(atomic.batch_query(&none), Vec::<u32>::new());
    assert_eq!(atomic.sum(), 0);
}

#[test]
fn fewer_keys_than_workers_are_still_counted() {
    let pool = rayon::ThreadPoolBuilder::new().num_threads(16).build().unwrap();
    pool.install(|| {
        let keys: Vec<u32> = vec![5, 9, 5];
        let mut plain = CountMinSketch::with_mixers(32, vec![(1, 0), (1, 7)]).unwrap();
        plain.batch_index(&keys);
        assert_eq!(plain.batch_query(&keys), vec![2, 1, 2]);
        assert_eq!(plain.sum(), 6);
        let mut atomic = CountMinSketchSafe::with_mixers(32, vec![(1, 0), (1, 7)]).unwrap();
        atomic.batch_index(&keys);
        assert_eq!(atomic.batch_query(&keys), vec![2, 1, 2]);
        assert_eq!(atomic.sum(), 6);
    });
}

#[test]
fn a_single_worker_counts_every_key() {
    let pool = rayon::ThreadPoolBuilder::new().num_threads(1).build().unwrap();
    pool.install(|| {
        let keys = one_to_ten();
        let mut plain = CountMinSketch::with_mixers(16, vec![(1, 0)]).unwrap();
        plain.batch_index(&keys);
        assert_eq!(plain.batch_query(&keys), vec![1; 10]);
        let mut atomic = CountMinSketchSafe::with_mixers(16, vec![(1, 0)]).unwrap();
        atomic.batch_index(&keys);
        assert_eq!(atomic.batch_query(&keys), vec![1; 10]);
    });
}

#[test]
fn both_kinds_of_sketch_agree() {
    let mixers: Vec<(usize, usize)> = vec![(3, 1), (5, 2), (7, 11)];
    let mut plain = CountMinSketch::with_mixers(13, mixers.clone()).unwrap();
    let mut atomic = CountMinSketchSafe::with_mixers(13, mixers).unwrap();
    let mut keys: Vec<u32> = Vec::new();
    for round in 0..50u32 {
        for key in 0..40u32 {
            if key % (round + 1) == 0 {
                keys.push(key * 17 + 3);
            }
        }
    }
    plain.batch_index(&keys);
    atomic.batch_index(&keys);
    assert_eq!(plain.batch_query(&keys), atomic.batch_query(&keys));
    assert_eq!(plain.sum(), atomic.sum());
    assert_eq!(plain.sum() as usize, 3 * keys.len());
}
