use count_min_sketch::hashing::{derive_indices, index_of};
use count_min_sketch::{CountMinSketch, CountMinSketchSafe};

#[test]
fn the_index_is_the_affine_image_modulo_the_width() {
    assert_eq!(index_of((2, 3), 10, 7), 2);
    assert_eq!(index_of((1, 0), 12, 5), 2);
    assert_eq!(index_of((0, 9), 123_456, 4), 1);
    assert_eq!(index_of((5, 5), 0, 3), 2);
    assert_eq!(index_of((1, 0), u32::MAX, 1), 0);
}

#[test]
fn the_multiply_add_wraps() {
    // usize::MAX * 3 + 5 wraps to 2 on every word size.
    assert_eq!(index_of((usize::MAX, 5), 3, 7), 2);
    // 1 * 0 + usize::MAX does not wrap.
    assert_eq!(index_of((1, usize::MAX), 0, 2), 1);
    // 1 * 1 + usize::MAX wraps to 0.
    assert_eq!(index_of((1, usize::MAX), 1, 2), 0);
    if usize::BITS == 64 {
        assert_eq!(index_of((usize::MAX, 5), 10, 7), 4);
        assert_eq!(index_of((1 << 63, 1), 2, 1000), 1);
        assert_eq!(index_of((1 << 32, 0), u32::MAX, 1 << 40), ((1usize << 32) * 0xffff_ffff) % (1 << 40));
    }
}

#[test]
fn indices_come_one_per_row_in_row_order() {
    let mixers: Vec<(usize, usize)> = vec![(2, 3), (1, 0), (0, 9)];
    assert_eq!(derive_indices(&mixers, 7, 10), vec![2, 3, 2]);
    assert_eq!(derive_indices(&mixers, 100, 10), vec![23, 10, 9]);
    assert_eq!(derive_indices(&Vec::new(), 7, 10), Vec::<usize>::new());
}

#[test]
fn a_sketch_derives_the_indices_of_its_mixers() {
    let mixers: Vec<(usize, usize)> = vec![(2, 3), (1, 0), (0, 9)];
    let plain = CountMinSketch::with_mixers(7, mixers.clone()).unwrap();
    assert_eq!(plain.get_indices(10), vec![2, 3, 2]);
    let atomic = CountMinSketchSafe::with_mixers(7, mixers).unwrap();
    assert_eq!(atomic.get_indices(10), vec![2, 3, 2]);
    assert_eq!(atomic.slots_of(10), vec![2, 7 + 3, 14 + 2]);
}

#[test]
fn indices_stay_inside_the_row() {
    let sketch = CountMinSketch::new(6, 17).unwrap();
    for key in 0..2000u32 {
        for col in sketch.get_indices(key.wrapping_mul(2_654_435_761)) {
            assert!(col < 17);
        }
    }
}

#[test]
fn the_same_key_always_has_the_same_indices() {
    let sketch = CountMinSketchSafe::new(5, 1000).unwrap();
    for key in [0u32, 1, 77, u32::MAX] {
        assert_eq!(sketch.get_indices(key), sketch.get_indices(key));
    }
}
