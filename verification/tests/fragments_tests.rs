use mf4_rs::error::MdfError;
use mf4_rs::fragments::{
    fragment_end, merge_ranges, u64_to_usize, ByteRangeReader, Coverage, FragmentRangeReader, FragmentStore,
    RecordingRangeReader,
};

fn full(c: Coverage) -> Vec<u8> {
    match c {
        Coverage::Full(b) => b,
        Coverage::Gap { offset, length } => panic!("unexpected gap at {} (+{})", offset, length),
    }
}

#[test]
fn merge_ranges_coalesces_overlapping_and_adjacent() {
    let out = merge_ranges(vec![(10, 5), (0, 4), (4, 2), (12, 10), (30, 1)]);
    assert_eq!(out, vec![(0, 6), (10, 12), (30, 1)]);
}

#[test]
fn merge_ranges_empty_and_contained() {
    assert_eq!(merge_ranges(vec![]), vec![]);
    assert_eq!(merge_ranges(vec![(0, 100), (10, 5), (50, 50)]), vec![(0, 100)]);
    assert_eq!(merge_ranges(vec![(5, 0)]), vec![(5, 0)]);
    assert_eq!(merge_ranges(vec![(5, 3), (5, 0)]), vec![(5, 3)]);
}

#[test]
fn u64_to_usize_and_fragment_end() {
    assert_eq!(u64_to_usize(42), Ok(42));
    assert_eq!(fragment_end(10, 5), Ok(15));
    assert_eq!(fragment_end(u64::MAX, 1), Err(MdfError::FragmentEndOverflow));
}

#[test]
fn assemble_single_fragment_fast_path() {
    let store = FragmentStore::from_pairs(vec![(100, vec![1, 2, 3, 4, 5])]).unwrap();
    assert_eq!(full(store.assemble(101, 3).unwrap()), vec![2, 3, 4]);
    assert_eq!(full(store.assemble(500, 0).unwrap()), Vec::<u8>::new());
}

#[test]
fn assemble_stitches_across_fragments() {
    let store = FragmentStore::from_pairs(vec![(4, vec![14, 15, 16, 17]), (0, vec![10, 11, 12, 13, 14, 15])]).unwrap();
    assert_eq!(full(store.assemble(2, 6).unwrap()), vec![12, 13, 14, 15, 16, 17]);
}

#[test]
fn assemble_later_fragment_overrides_on_overlap() {
    let store = FragmentStore::from_pairs(vec![(0, vec![1, 1, 1, 1]), (2, vec![9, 9, 9])]).unwrap();
    // No single fragment holds [1, 5); the later fragment wins where they overlap.
    assert_eq!(full(store.assemble(1, 4).unwrap()), vec![1, 9, 9, 9]);
    // The first fragment holds [0, 3) on its own.
    assert_eq!(full(store.assemble(0, 3).unwrap()), vec![1, 1, 1]);
}

#[test]
fn assemble_reports_first_gap() {
    let store = FragmentStore::from_pairs(vec![(0, vec![0; 4]), (8, vec![0; 4])]).unwrap();
    match store.assemble(2, 8).unwrap() {
        Coverage::Gap { offset, length } => {
            assert_eq!(offset, 4);
            assert_eq!(length, 6);
        }
        Coverage::Full(_) => panic!("expected a gap"),
    }
}

#[test]
fn assemble_rejects_overflowing_range() {
    let store = FragmentStore::new();
    assert!(matches!(store.assemble(u64::MAX, 2), Err(MdfError::RangeEndOverflow)));
}

#[test]
fn early_large_fragment_spanning_later_ones_is_found() {
    let mut store = FragmentStore::new();
    store.push(0, vec![7; 100]).unwrap();
    store.push(10, vec![1; 2]).unwrap();
    store.push(20, vec![2; 2]).unwrap();
    assert_eq!(full(store.assemble(50, 4).unwrap()), vec![7, 7, 7, 7]);
}

#[test]
fn push_rejects_overflowing_fragment() {
    let mut store = FragmentStore::new();
    assert_eq!(store.push(u64::MAX, vec![1]), Err(MdfError::FragmentEndOverflow));
    assert!(matches!(FragmentStore::from_pairs(vec![(u64::MAX - 1, vec![1, 2, 3])]), Err(MdfError::FragmentEndOverflow)));
}

#[test]
fn fragment_reader_errors_on_uncovered_range() {
    let mut reader = FragmentRangeReader::from_pairs(vec![(0, vec![1, 2, 3])]).unwrap();
    assert_eq!(reader.read_range(0, 3).unwrap(), vec![1, 2, 3]);
    assert_eq!(
        reader.read_range(2, 4),
        Err(MdfError::RangeNotCovered { start: 2, end: 6, missing: 3 })
    );
    assert_eq!(reader.read_range_optional(1, 1).unwrap(), Some(vec![2]));
    assert!(!reader.is_probing());
}

#[test]
fn recording_reader_collects_gaps() {
    let store = FragmentStore::from_pairs(vec![(0, vec![5; 10])]).unwrap();
    let mut reader = RecordingRangeReader::new(&store);
    assert!(reader.is_probing());
    assert_eq!(reader.read_range(0, 4).unwrap(), vec![5; 4]);
    assert_eq!(reader.read_range(8, 4), Err(MdfError::RangeNotYetAvailable));
    assert_eq!(reader.read_range_optional(20, 5).unwrap(), None);
    assert_eq!(reader.misses, vec![(10, 2), (20, 5)]);
}
