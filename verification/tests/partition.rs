use count_min_sketch::partition::{chunk_size_for, split_chunks};

fn lengths(chunks: &Vec<&[u32]>) -> Vec<usize> {
    chunks.iter().map(|chunk| chunk.len()).collect()
}

#[test]
fn the_chunk_size_is_the_share_rounded_up() {
    assert_eq!(chunk_size_for(10, 3), 4);
    assert_eq!(chunk_size_for(9, 3), 3);
    assert_eq!(chunk_size_for(100, 8), 13);
    assert_eq!(chunk_size_for(usize::MAX, 1), usize::MAX);
    assert_eq!(chunk_size_for(usize::MAX, 2), usize::MAX / 2 + 1);
}

#[test]
fn the_chunk_size_is_never_zero() {
    assert_eq!(chunk_size_for(0, 4), 1);
    assert_eq!(chunk_size_for(3, 8), 1);
    assert_eq!(chunk_size_for(0, 0), 1);
}

#[test]
fn no_workers_count_as_one() {
    assert_eq!(chunk_size_for(10, 0), 10);
    let keys: Vec<u32> = vec![1, 2, 3];
    let chunks = split_chunks(&keys, 0);
    assert_eq!(chunks.len(), 1);
    assert_eq!(chunks[0], &[1, 2, 3]);
}

#[test]
fn chunks_follow_one_another_and_cover_the_batch() {
    let keys: Vec<u32> = (0..10).collect();
    let chunks = split_chunks(&keys, 3);
    assert_eq!(chunks.len(), 3);
    assert_eq!(chunks[0], &[0, 1, 2, 3]);
    assert_eq!(chunks[1], &[4, 5, 6, 7]);
    assert_eq!(chunks[2], &[8, 9]);
}

#[test]
fn an_empty_batch_has_no_chunk() {
    let keys: Vec<u32> = Vec::new();
    assert_eq!(split_chunks(&keys, 4).len(), 0);
    assert_eq!(split_chunks(&keys, 0).len(), 0);
}

#[test]
fn fewer_keys_than_workers_give_one_key_each() {
    let keys: Vec<u32> = vec![7, 8, 9];
    let chunks = split_chunks(&keys, 8);
    assert_eq!(lengths(&chunks), vec![1, 1, 1]);
    assert_eq!(chunks[2], &[9]);
}

#[test]
fn there_are_never_more_chunks_than_workers() {
    for len in 0..60usize {
        let keys: Vec<u32> = vec![0; len];
        for workers in 1..12usize {
            let chunks = split_chunks(&keys, workers);
            assert!(chunks.len() <= workers);
            let total: usize = lengths(&chunks).iter().sum();
            assert_eq!(total, len);
            for chunk in &chunks {
                assert!(!chunk.is_empty());
                assert!(chunk.len() <= chunk_size_for(len, workers));
            }
        }
    }
}
