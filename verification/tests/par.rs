use tohdr::par::{row_ranges, rows_per_chunk};

/// Every row belongs to exactly one chunk, whatever the number of workers.
#[test]
fn mutating_chunks_covers_every_element_exactly_once() {
    for len in [0usize, 1, 7, 64, 1000, 4096] {
        for workers in [1usize, 2, 3, 8, 64] {
            let mut v = vec![0u32; len];
            for (start, n) in row_ranges(len, 1, workers) {
                for x in &mut v[start..start + n] {
                    *x += 1;
                }
            }
            assert!(v.iter().all(|x| *x == 1), "len={len} workers={workers}");
        }
    }
}

#[test]
fn start_row_is_correct_for_every_chunk() {
    for workers in 1usize..=12 {
        let mut next = 0;
        for (start, n) in row_ranges(97, 1, workers) {
            assert_eq!(start, next);
            assert!(n > 0);
            next = start + n;
        }
        assert_eq!(next, 97);
    }
}

#[test]
fn granularity_keeps_chunk_starts_aligned() {
    for workers in 1usize..=16 {
        let starts: Vec<usize> = row_ranges(101, 2, workers).iter().map(|r| r.0).collect();
        for s in &starts {
            assert_eq!(s % 2, 0, "chunk start {s} not a multiple of 2");
        }
        assert_eq!(starts.first(), Some(&0));
    }
}

#[test]
fn map_chunks_reduces_correctly() {
    let v: Vec<u64> = (0..900).collect();
    let partials: Vec<u64> =
        row_ranges(300, 1, 7).iter().map(|(s, n)| v[s * 3..(s + n) * 3].iter().sum()).collect();
    assert_eq!(partials.iter().sum::<u64>(), v.iter().sum::<u64>());
}

#[test]
fn single_row_and_empty_inputs_are_safe() {
    assert!(row_ranges(0, 1, 4).is_empty());
    assert_eq!(row_ranges(1, 1, 4), vec![(0, 1)]);
    assert_eq!(row_ranges(1, 0, 0), vec![(0, 1)]);
}

#[test]
fn a_chunk_is_rounded_up() {
    assert_eq!(rows_per_chunk(100, 1, 8), 13);
    assert_eq!(rows_per_chunk(usize::MAX, 1, 1), usize::MAX);
    assert_eq!(rows_per_chunk(100, 4, 8), 16);
    assert_eq!(row_ranges(100, 4, 8).len(), 7);
    assert_eq!(row_ranges(100, 4, 8)[6], (96, 4));
}
