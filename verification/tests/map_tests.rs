use remap::{ColumnMap, MapError};

#[test]
fn new_swaps_and_drops() {
    let map = ColumnMap::new(vec![Some(1), Some(0), None]).unwrap();
    assert_eq!(map.destination(0), Some(1));
    assert_eq!(map.destination(1), Some(0));
    assert_eq!(map.destination(2), None);
    assert_eq!(map.destination(3), None);
    assert_eq!(map.max(), 1);
    assert_eq!(map.len(), 3);
}

#[test]
fn new_duplicate_index() {
    let err = ColumnMap::new(vec![Some(0), Some(0), None]).err().unwrap();
    assert_eq!(err, MapError::DuplicateIndex { dest: 0 });
}

#[test]
fn new_reports_first_repeat() {
    // 3 repeats at position 3, before 1 repeats at position 4.
    let err = ColumnMap::new(vec![Some(1), Some(3), None, Some(3), Some(1)]).err().unwrap();
    assert_eq!(err, MapError::DuplicateIndex { dest: 3 });
}

#[test]
fn new_index_too_large() {
    let err = ColumnMap::new(vec![Some(usize::MAX), None]).err().unwrap();
    assert_eq!(err, MapError::IndexTooLarge);
}

#[test]
fn new_duplicate_comes_before_too_large() {
    let err = ColumnMap::new(vec![Some(usize::MAX), Some(usize::MAX)]).err().unwrap();
    assert_eq!(err, MapError::DuplicateIndex { dest: usize::MAX });
}

#[test]
fn new_largest_allowed_index() {
    let map = ColumnMap::new(vec![None, Some(usize::MAX - 1)]).unwrap();
    assert_eq!(map.max(), usize::MAX - 1);
}

#[test]
fn new_empty_and_all_dropped() {
    let map = ColumnMap::new(Vec::new()).unwrap();
    assert_eq!(map.len(), 0);
    assert_eq!(map.max(), 0);
    let map = ColumnMap::new(vec![None, None]).unwrap();
    assert_eq!(map.len(), 2);
    assert_eq!(map.max(), 0);
}

#[test]
fn identity_maps_each_column_to_itself() {
    let map = ColumnMap::identity(3);
    assert_eq!(map.destination(0), Some(0));
    assert_eq!(map.destination(1), Some(1));
    assert_eq!(map.destination(2), Some(2));
    assert_eq!(map.destination(3), None);
    assert_eq!(map.max(), 2);
}

#[test]
fn identity_empty() {
    let map = ColumnMap::identity(0);
    assert_eq!(map.max(), 0);
    assert_eq!(map.len(), 0);
}

#[test]
fn identity_equals_new_and_sequential() {
    let id = ColumnMap::identity(4);
    let made = ColumnMap::new(vec![Some(0), Some(1), Some(2), Some(3)]).unwrap();
    let seq = ColumnMap::sequential(0, 4, 0).unwrap();
    assert_eq!(id, made);
    assert_eq!(id, seq);
}

#[test]
fn sequential_shifts() {
    let map = ColumnMap::sequential(2, 7, 4).unwrap();
    assert_eq!(map.destination(0), None);
    assert_eq!(map.destination(1), None);
    assert_eq!(map.destination(2), Some(4));
    assert_eq!(map.destination(4), Some(6));
    assert_eq!(map.destination(6), Some(8));
    assert_eq!(map.destination(7), None);
    assert_eq!(map.len(), 7);
    assert_eq!(map.max(), 8);
}

#[test]
fn sequential_empty() {
    let map = ColumnMap::sequential(0, 0, 0).unwrap();
    assert_eq!(map.destination(0), None);
    assert_eq!(map.len(), 0);
    assert_eq!(map.max(), 0);
}

#[test]
fn sequential_empty_range_has_max_zero() {
    let map = ColumnMap::sequential(3, 3, 5).unwrap();
    assert_eq!(map.len(), 3);
    assert_eq!(map.as_slice(), &[None, None, None]);
    assert_eq!(map.max(), 0);
    let map = ColumnMap::sequential(0, 0, 5).unwrap();
    assert_eq!(map.len(), 0);
    assert_eq!(map.max(), 0);
    assert_eq!(map, ColumnMap::new(Vec::new()).unwrap());
}

#[test]
fn clone_keeps_entries_and_max() {
    let map = ColumnMap::new(vec![None, Some(4), Some(2)]).unwrap();
    let copy = map.clone();
    assert_eq!(copy, map);
    assert_eq!(copy.max(), 4);
}

#[test]
fn sequential_range_error() {
    let err = ColumnMap::sequential(7, 2, 4).err().unwrap();
    assert_eq!(err, MapError::RangeError { src_start: 7, src_end: 2 });
}

#[test]
fn sequential_index_too_large() {
    let err = ColumnMap::sequential(0, 5, usize::MAX - 1).err().unwrap();
    assert_eq!(err, MapError::IndexTooLarge);
}

#[test]
fn sequential_last_index_fits() {
    let map = ColumnMap::sequential(0, 2, usize::MAX - 2).unwrap();
    assert_eq!(map.destination(1), Some(usize::MAX - 1));
    assert_eq!(map.max(), usize::MAX - 1);
}

#[test]
fn splice_two_ranges() {
    let (map_1, map_2) = ColumnMap::splice(0, 2, 1, 3).unwrap();
    assert_eq!(map_1.destination(0), Some(0));
    assert_eq!(map_1.destination(1), Some(1));
    assert_eq!(map_1.destination(2), None);
    assert_eq!(map_2.destination(0), None);
    assert_eq!(map_2.destination(1), Some(2));
    assert_eq!(map_2.destination(2), Some(3));
    assert_eq!(map_2.destination(3), None);
}

#[test]
fn splice_range_error() {
    let err = ColumnMap::splice(2, 0, 1, 3).err().unwrap();
    assert_eq!(err, MapError::RangeError { src_start: 2, src_end: 0 });
    let err = ColumnMap::splice(0, 1, 5, 3).err().unwrap();
    assert_eq!(err, MapError::RangeError { src_start: 5, src_end: 3 });
}

#[test]
fn splice_index_too_large() {
    let err = ColumnMap::splice(0, usize::MAX, 0, 1).err().unwrap();
    assert_eq!(err, MapError::IndexTooLarge);
}

#[test]
fn iter_sums_destinations() {
    let map = ColumnMap::new(vec![Some(1), Some(0), None]).unwrap();
    let sum: usize = map.iter().filter_map(|dest| *dest).sum();
    assert_eq!(sum, 1);
    assert_eq!(map.iter().count(), 3);
}

#[test]
fn as_slice_and_index() {
    let map = ColumnMap::new(vec![Some(1), Some(0), None]).unwrap();
    assert_eq!(map.as_slice()[1], Some(0));
    assert_eq!(*map.index(0), Some(1));
    assert_eq!(*map.index(2), None);
    let map = ColumnMap::identity(3);
    assert_eq!(map.as_slice()[1], Some(1));
}

#[test]
fn len_of_maps() {
    assert_eq!(ColumnMap::new(vec![Some(1), Some(0), None]).unwrap().len(), 3);
    assert_eq!(ColumnMap::sequential(0, 10, 0).unwrap().len(), 10);
}

#[test]
fn map_text() {
    let map = ColumnMap::new(vec![Some(1), Some(0), None]).unwrap();
    assert_eq!(map.to_string(), "0 -> 1, 1 -> 0, 2 -> ∅");
    assert_eq!(ColumnMap::identity(0).to_string(), "");
    assert_eq!(ColumnMap::sequential(9, 11, 120).unwrap().to_string().ends_with("10 -> 121"), true);
}

#[test]
fn map_error_text() {
    assert_eq!(
        MapError::DuplicateIndex { dest: 42 }.to_string(),
        "Duplicate destination index: 42"
    );
    assert_eq!(
        MapError::IndexTooLarge.to_string(),
        format!("Index ({}) is too large", usize::MAX)
    );
    assert_eq!(
        MapError::RangeError { src_start: 7, src_end: 2 }.to_string(),
        "Source range error: start (7) > end (2)"
    );
    assert_eq!(MapError::DuplicateIndex { dest: 0 }.to_string(), "Duplicate destination index: 0");
}
