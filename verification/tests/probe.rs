//! Probing for packets of interest.
use libpgs::m2ts::probe::merge_active_chunks;

const TEST_CHUNK: u64 = 512 * 1024;

#[test]
fn test_merge_active_chunks() {
    // Chunks 2 and 8,9 are active (far enough apart to stay separate after ±1 expansion).
    let active = vec![2, 8, 9];
    let regions = merge_active_chunks(&active, 15, 15 * TEST_CHUNK, TEST_CHUNK);
    // Chunk 2 expands to [1,3], chunks 8,9 expand to [7,10]
    assert_eq!(regions.len(), 2);
    assert_eq!(regions[0], (1 * TEST_CHUNK, 4 * TEST_CHUNK));
    assert_eq!(regions[1], (7 * TEST_CHUNK, 11 * TEST_CHUNK));
}

#[test]
fn test_merge_empty() {
    let regions = merge_active_chunks(&[], 10, 10 * TEST_CHUNK, TEST_CHUNK);
    assert!(regions.is_empty());
}

#[test]
fn test_merge_single_chunk() {
    let active = vec![5];
    let regions = merge_active_chunks(&active, 10, 10 * TEST_CHUNK, TEST_CHUNK);
    assert_eq!(regions.len(), 1);
    assert_eq!(regions[0], (4 * TEST_CHUNK, 7 * TEST_CHUNK));
}

#[test]
fn test_merge_at_boundaries() {
    // First chunk.
    let active = vec![0];
    let regions = merge_active_chunks(&active, 5, 5 * TEST_CHUNK, TEST_CHUNK);
    assert_eq!(regions.len(), 1);
    assert_eq!(regions[0], (0, 2 * TEST_CHUNK));

    // Last chunk.
    let active = vec![4];
    let file_size = 5 * TEST_CHUNK;
    let regions = merge_active_chunks(&active, 5, file_size, TEST_CHUNK);
    assert_eq!(regions.len(), 1);
    assert_eq!(regions[0], (3 * TEST_CHUNK, file_size));
}

#[test]
fn test_merge_adjacent_collapse() {
    // Chunks 3 and 5: after expansion [2,4] and [4,6] → merge into [2,6]
    let active = vec![3, 5];
    let regions = merge_active_chunks(&active, 10, 10 * TEST_CHUNK, TEST_CHUNK);
    assert_eq!(regions.len(), 1);
    assert_eq!(regions[0], (2 * TEST_CHUNK, 7 * TEST_CHUNK));
}
