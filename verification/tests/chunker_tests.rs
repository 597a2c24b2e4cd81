use filecord::chunker::is_tiling;
use filecord::chunker::plan_chunks;
use filecord::chunker::ChunkSpec;

#[test]
fn plans_nonempty() {
    let v = plan_chunks(5000, 1600);
    assert!(!v.is_empty());
    assert_eq!(v.iter().map(|c| c.size).sum::<usize>(), 5000);
}

#[test]
fn five_thousand_bytes_under_sixteen_hundred_chars() {
    let v = plan_chunks(5000, 1600);
    assert_eq!(v.len(), 5);
    let sizes: Vec<usize> = v.iter().map(|c| c.size).collect();
    assert_eq!(sizes, vec![1200, 1200, 1200, 1200, 200]);
    let offsets: Vec<usize> = v.iter().map(|c| c.offset).collect();
    assert_eq!(offsets, vec![0, 1200, 2400, 3600, 4800]);
    let indices: Vec<usize> = v.iter().map(|c| c.index).collect();
    assert_eq!(indices, vec![0, 1, 2, 3, 4]);
}

#[test]
fn empty_input_plans_no_chunk() {
    assert!(plan_chunks(0, 1600).is_empty());
    assert!(plan_chunks(0, 0).is_empty());
}

#[test]
fn any_byte_plans_a_chunk() {
    let v = plan_chunks(1, 1600);
    assert_eq!(v.len(), 1);
    assert_eq!((v[0].index, v[0].offset, v[0].size), (0, 0, 1));
}

#[test]
fn tiny_budget_falls_back_to_1024_bytes() {
    for budget in 0..4usize {
        let v = plan_chunks(2500, budget);
        let sizes: Vec<usize> = v.iter().map(|c| c.size).collect();
        assert_eq!(sizes, vec![1024, 1024, 452]);
    }
}

#[test]
fn budget_of_four_chars_carries_three_bytes() {
    let v = plan_chunks(7, 4);
    let sizes: Vec<usize> = v.iter().map(|c| c.size).collect();
    assert_eq!(sizes, vec![3, 3, 1]);
    let v = plan_chunks(7, 7);
    assert_eq!(v.len(), 3);
    let v = plan_chunks(7, 8);
    let sizes: Vec<usize> = v.iter().map(|c| c.size).collect();
    assert_eq!(sizes, vec![6, 1]);
}

#[test]
fn exact_multiple_has_no_short_chunk() {
    let v = plan_chunks(3600, 1600);
    let sizes: Vec<usize> = v.iter().map(|c| c.size).collect();
    assert_eq!(sizes, vec![1200, 1200, 1200]);
}

#[test]
fn plan_covers_each_byte_once_in_order() {
    for total in [0usize, 1, 2, 3, 1199, 1200, 1201, 4999, 5000, 12345] {
        for budget in [1usize, 4, 5, 100, 1600, 1_000_000] {
            let v = plan_chunks(total, budget);
            let mut next = 0usize;
            for (i, c) in v.iter().enumerate() {
                assert_eq!(c.index, i);
                assert_eq!(c.offset, next);
                assert!(c.size > 0);
                next += c.size;
            }
            assert_eq!(next, total);
            assert!(is_tiling(&v, total));
        }
    }
}

#[test]
fn encoded_chunk_fits_the_budget() {
    for budget in [4usize, 5, 7, 8, 100, 1600] {
        for c in plan_chunks(10_000, budget) {
            assert!(4 * ((c.size + 2) / 3) <= budget);
        }
    }
}

#[test]
fn tiling_check_rejects_gaps_overlaps_and_wrong_ends() {
    let good = vec![
        ChunkSpec { index: 0, offset: 0, size: 2 },
        ChunkSpec { index: 1, offset: 2, size: 3 },
    ];
    assert!(is_tiling(&good, 5));
    assert!(!is_tiling(&good, 6));
    assert!(!is_tiling(&good, 4));
    let gap = vec![
        ChunkSpec { index: 0, offset: 0, size: 2 },
        ChunkSpec { index: 1, offset: 3, size: 2 },
    ];
    assert!(!is_tiling(&gap, 5));
    let overlap = vec![
        ChunkSpec { index: 0, offset: 0, size: 3 },
        ChunkSpec { index: 1, offset: 2, size: 3 },
    ];
    assert!(!is_tiling(&overlap, 5));
    let misnumbered = vec![
        ChunkSpec { index: 1, offset: 0, size: 5 },
    ];
    assert!(!is_tiling(&misnumbered, 5));
    let empty_chunk = vec![
        ChunkSpec { index: 0, offset: 0, size: 0 },
    ];
    assert!(!is_tiling(&empty_chunk, 0));
    let late_start = vec![
        ChunkSpec { index: 0, offset: 1, size: 4 },
    ];
    assert!(!is_tiling(&late_start, 5));
    let huge = vec![
        ChunkSpec { index: 0, offset: 0, size: usize::MAX },
        ChunkSpec { index: 1, offset: usize::MAX, size: 1 },
    ];
    assert!(!is_tiling(&huge, usize::MAX));
    assert!(is_tiling(&Vec::new(), 0));
    assert!(!is_tiling(&Vec::new(), 1));
}
