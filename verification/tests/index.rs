use particle_sim::chunk::{initialize_chunkmap, ChunkMap};

type Chunk = (u32, u32, u32);

fn sample() -> Vec<Chunk> {
    vec![
        (0, 0, 0),
        (1, 0, 0),
        (0, 0, 0),
        (2, 3, 1),
        (1, 0, 0),
        (0, 0, 0),
        (0, 0, 1),
        (2, 3, 1),
    ]
}

#[test]
fn empty_snapshot_has_no_bucket() {
    let index = initialize_chunkmap(&[]);
    assert!(index.get((0, 0, 0)).is_none());
}

#[test]
fn buckets_hold_the_particles_of_their_chunk_in_order() {
    let index = initialize_chunkmap(&sample());
    assert_eq!(index.get((0, 0, 0)), Some(&vec![0, 2, 5]));
    assert_eq!(index.get((1, 0, 0)), Some(&vec![1, 4]));
    assert_eq!(index.get((2, 3, 1)), Some(&vec![3, 7]));
    assert_eq!(index.get((0, 0, 1)), Some(&vec![6]));
    assert!(index.get((1, 1, 1)).is_none());
    assert!(index.get((0, 1, 0)).is_none());
}

#[test]
fn every_particle_occurs_exactly_once() {
    let chunks: Vec<Chunk> = (0..500u32).map(|i| (i % 7, (i / 3) % 5, (i * i) % 4)).collect();
    let index = initialize_chunkmap(&chunks);
    let mut count = vec![0usize; chunks.len()];
    for x in 0..7 {
        for y in 0..5 {
            for z in 0..4 {
                if let Some(bucket) = index.get((x, y, z)) {
                    assert!(!bucket.is_empty());
                    for &p in bucket {
                        assert_eq!(chunks[p], (x, y, z));
                        count[p] += 1;
                    }
                    for pair in bucket.windows(2) {
                        assert!(pair[0] < pair[1]);
                    }
                }
            }
        }
    }
    assert!(count.iter().all(|&n| n == 1));
}

#[test]
fn insert_appends_to_the_bucket() {
    let mut index = ChunkMap::new();
    assert!(index.get((4, 5, 6)).is_none());
    index.insert((4, 5, 6), 9);
    assert_eq!(index.get((4, 5, 6)), Some(&vec![9]));
    index.insert((4, 5, 6), 2);
    index.insert((4, 5, 7), 3);
    assert_eq!(index.get((4, 5, 6)), Some(&vec![9, 2]));
    assert_eq!(index.get((4, 5, 7)), Some(&vec![3]));
    assert!(index.get((6, 5, 4)).is_none());
}

#[test]
fn coordinates_are_told_apart_on_every_axis() {
    let mut index = ChunkMap::new();
    index.insert((u32::MAX, 0, 0), 0);
    index.insert((0, u32::MAX, 0), 1);
    index.insert((0, 0, u32::MAX), 2);
    index.insert((u32::MAX, u32::MAX, u32::MAX), 3);
    index.insert((0, 1, 0), 4);
    index.insert((1, 0, 0), 5);
    index.insert((0, 0, 1), 6);
    assert_eq!(index.get((u32::MAX, 0, 0)), Some(&vec![0]));
    assert_eq!(index.get((0, u32::MAX, 0)), Some(&vec![1]));
    assert_eq!(index.get((0, 0, u32::MAX)), Some(&vec![2]));
    assert_eq!(index.get((u32::MAX, u32::MAX, u32::MAX)), Some(&vec![3]));
    assert_eq!(index.get((0, 1, 0)), Some(&vec![4]));
    assert_eq!(index.get((1, 0, 0)), Some(&vec![5]));
    assert_eq!(index.get((0, 0, 1)), Some(&vec![6]));
    assert!(index.get((0, 0, 0)).is_none());
}

#[test]
fn merge_joins_keys_and_concatenates_buckets() {
    let mut a = ChunkMap::new();
    a.insert((0, 0, 0), 0);
    a.insert((1, 1, 1), 1);
    a.insert((0, 0, 0), 2);
    let mut b = ChunkMap::new();
    b.insert((0, 0, 0), 3);
    b.insert((2, 2, 2), 4);
    b.insert((0, 0, 0), 5);
    let merged = a.merge(b);
    assert_eq!(merged.get((0, 0, 0)), Some(&vec![0, 2, 3, 5]));
    assert_eq!(merged.get((1, 1, 1)), Some(&vec![1]));
    assert_eq!(merged.get((2, 2, 2)), Some(&vec![4]));
    assert!(merged.get((3, 3, 3)).is_none());
}

#[test]
fn merge_with_an_empty_index_changes_nothing() {
    let chunks = sample();
    let left = ChunkMap::new().merge(initialize_chunkmap(&chunks));
    let right = initialize_chunkmap(&chunks).merge(ChunkMap::new());
    for index in [left, right] {
        assert_eq!(index.get((0, 0, 0)), Some(&vec![0, 2, 5]));
        assert_eq!(index.get((1, 0, 0)), Some(&vec![1, 4]));
        assert_eq!(index.get((2, 3, 1)), Some(&vec![3, 7]));
        assert_eq!(index.get((0, 0, 1)), Some(&vec![6]));
    }
}

fn folded(chunks: &[Chunk], lo: usize, hi: usize) -> ChunkMap {
    let mut part = ChunkMap::new();
    for i in lo..hi {
        part.insert(chunks[i], i);
    }
    part
}

#[test]
fn index_does_not_depend_on_where_the_parts_end() {
    let chunks = sample();
    let whole = initialize_chunkmap(&chunks);
    for cut in 0..=chunks.len() {
        let joined = folded(&chunks, 0, cut).merge(folded(&chunks, cut, chunks.len()));
        for &c in &chunks {
            assert_eq!(joined.get(c), whole.get(c));
        }
        assert!(joined.get((9, 9, 9)).is_none());
    }
}

#[test]
fn index_does_not_depend_on_how_the_parts_are_grouped() {
    let chunks = sample();
    let whole = initialize_chunkmap(&chunks);
    let left = folded(&chunks, 0, 3).merge(folded(&chunks, 3, 5)).merge(folded(&chunks, 5, 8));
    let right = folded(&chunks, 0, 3).merge(folded(&chunks, 3, 5).merge(folded(&chunks, 5, 8)));
    for &c in &chunks {
        assert_eq!(left.get(c), whole.get(c));
        assert_eq!(right.get(c), whole.get(c));
    }
}
