use remap::{ColumnMap, CombinationError, Row};

fn strings(items: &[&str]) -> Vec<String> {
    items.iter().map(|s| s.to_string()).collect()
}

#[test]
fn row_new_and_index() {
    let row: Row<String> = Row::new(strings(&["a", "b", "c"]));
    assert_eq!(row.index(0), "a");
    assert_eq!(row.index(1), "b");
    assert_eq!(row.index(2), "c");
}

#[test]
fn combine_ref_splices() {
    let row_1 = Row::new(strings(&["a", "b", "c"]));
    let row_2 = Row::new(strings(&["1", "2", "3"]));
    let map_1 = ColumnMap::new(vec![Some(2), None, Some(0)]).unwrap();
    let map_2 = ColumnMap::new(vec![None, Some(4), None]).unwrap();
    let fallback = String::from("");
    let row = Row::combine_ref(&row_1, &map_1, &row_2, &map_2, &fallback).unwrap();
    assert_eq!(row.len(), 5);
    assert_eq!(*row.index(0), "c");
    assert_eq!(*row.index(1), "");
    assert_eq!(*row.index(2), "a");
    assert_eq!(*row.index(3), "");
    assert_eq!(*row.index(4), "2");
}

#[test]
fn combine_ref_collision() {
    let row_1 = Row::new(strings(&["a", "b", "c"]));
    let row_2 = Row::new(strings(&["1", "2", "3"]));
    let map_1 = ColumnMap::new(vec![Some(2), None, Some(0)]).unwrap();
    let map_2 = ColumnMap::new(vec![None, Some(2), None]).unwrap();
    let fallback = String::from("");
    let err = Row::combine_ref(&row_1, &map_1, &row_2, &map_2, &fallback).err().unwrap();
    assert_eq!(err, CombinationError::CollisionError { dest: 2 });
}

#[test]
fn combine_ref_first_collision_in_second_map_order() {
    let row_1 = Row::new(strings(&["a", "b", "c"]));
    let row_2 = Row::new(strings(&["1", "2", "3"]));
    let map_1 = ColumnMap::new(vec![Some(2), Some(1), Some(0)]).unwrap();
    let map_2 = ColumnMap::new(vec![Some(5), Some(0), Some(2)]).unwrap();
    let fallback = String::from("");
    let err = Row::combine_ref(&row_1, &map_1, &row_2, &map_2, &fallback).err().unwrap();
    assert_eq!(err, CombinationError::CollisionError { dest: 0 });
}

#[test]
fn combine_ref_length_error() {
    let row_1 = Row::new(strings(&["a", "b", "c"]));
    let row_2 = Row::new(strings(&["1", "2", "3"]));
    let map_1 = ColumnMap::new(vec![Some(2), None, Some(0)]).unwrap();
    let map_2 = ColumnMap::new(vec![None, Some(4), None, Some(1)]).unwrap();
    let fallback = String::from("");
    let err = Row::combine_ref(&row_1, &map_1, &row_2, &map_2, &fallback).err().unwrap();
    assert_eq!(err, CombinationError::LengthError { map_len: 4, row_len: 3 });
}

#[test]
fn combine_length_error_of_first_map_comes_first() {
    let row_1 = Row::new(strings(&["a"]));
    let row_2 = Row::new(strings(&["1"]));
    let map_1 = ColumnMap::new(vec![Some(0), Some(1)]).unwrap();
    let map_2 = ColumnMap::new(vec![Some(0), Some(1), Some(2)]).unwrap();
    let err = Row::combine(&row_1, &map_1, &row_2, &map_2).err().unwrap();
    assert_eq!(err, CombinationError::LengthError { map_len: 2, row_len: 1 });
}

#[test]
fn reorder_ref_swaps_and_drops() {
    let row = Row::new(strings(&["a", "b", "c"]));
    let map = ColumnMap::new(vec![Some(1), Some(0), None]).unwrap();
    let fallback = String::from("");
    let reordering = row.reorder_ref(&map, &fallback).unwrap();
    assert_eq!(*reordering.index(0), "b");
    assert_eq!(*reordering.index(1), "a");
    assert_eq!(reordering.len(), 2);
}

#[test]
fn reorder_ref_length_error() {
    let row = Row::new(strings(&["a", "b", "c"]));
    let map = ColumnMap::new(vec![Some(1), Some(0), None, Some(2)]).unwrap();
    let fallback = String::from("");
    let err = row.reorder_ref(&map, &fallback).err().unwrap();
    assert_eq!(err, CombinationError::LengthError { map_len: 4, row_len: 3 });
}

#[test]
fn reorder_ref_fills_gaps_with_fallback() {
    let row = Row::new(vec![10, 20]);
    let map = ColumnMap::new(vec![Some(3), None]).unwrap();
    let fallback = -1;
    let out = row.reorder_ref(&map, &fallback).unwrap();
    let values: Vec<i32> = out.iter().map(|r| **r).collect();
    assert_eq!(values, vec![-1, -1, -1, 10]);
}

#[test]
fn row_iter() {
    let row = Row::new(strings(&["a", "b", "c"]));
    let mut iter = row.iter();
    assert_eq!(iter.next(), Some(&"a".to_string()));
    assert_eq!(iter.next(), Some(&"b".to_string()));
    assert_eq!(iter.next(), Some(&"c".to_string()));
    assert_eq!(iter.next(), None);
}

#[test]
fn row_len() {
    let row = Row::new(strings(&["a", "b", "c"]));
    assert_eq!(row.len(), 3);
    let row: Row<String> = Row::new(Vec::new());
    assert_eq!(row.len(), 0);
}

#[test]
fn row_as_slice() {
    let row = Row::new(strings(&["a", "b", "c"]));
    assert_eq!(row.as_slice()[0], "a");
    assert_eq!(row.as_slice()[1], "b");
    assert_eq!(row.as_slice()[2], "c");
}

#[test]
fn combine_splices() {
    let row_1 = Row::new(strings(&["a", "b", "c"]));
    let row_2 = Row::new(strings(&["1", "2", "3"]));
    let map_1 = ColumnMap::new(vec![Some(2), None, Some(0)]).unwrap();
    let map_2 = ColumnMap::new(vec![None, Some(4), None]).unwrap();
    let row = Row::combine(&row_1, &map_1, &row_2, &map_2).unwrap();
    assert_eq!(row, Row::new(strings(&["c", "", "a", "", "2"])));
}

#[test]
fn combine_collision() {
    let row_1 = Row::new(strings(&["a", "b", "c"]));
    let row_2 = Row::new(strings(&["1", "2", "3"]));
    let map_1 = ColumnMap::new(vec![Some(2), None, Some(0)]).unwrap();
    let map_2 = ColumnMap::new(vec![None, Some(2), None]).unwrap();
    let err = Row::combine(&row_1, &map_1, &row_2, &map_2).err().unwrap();
    assert_eq!(err, CombinationError::CollisionError { dest: 2 });
}

#[test]
fn combine_length_error() {
    let row_1 = Row::new(strings(&["a", "b", "c"]));
    let row_2 = Row::new(strings(&["1", "2", "3"]));
    let map_1 = ColumnMap::new(vec![Some(2), None, Some(0)]).unwrap();
    let map_2 = ColumnMap::new(vec![None, Some(4), None, Some(1)]).unwrap();
    let err = Row::combine(&row_1, &map_1, &row_2, &map_2).err().unwrap();
    assert_eq!(err, CombinationError::LengthError { map_len: 4, row_len: 3 });
}

#[test]
fn reorder_swaps_and_drops() {
    let row = Row::new(strings(&["a", "b", "c"]));
    let map = ColumnMap::new(vec![Some(1), Some(0), None]).unwrap();
    let reordering = row.reorder(&map).unwrap();
    assert_eq!(reordering.index(0), "b");
    assert_eq!(reordering.index(1), "a");
    assert_eq!(reordering.len(), 2);
}

#[test]
fn reorder_length_error() {
    let row = Row::new(strings(&["a", "b", "c"]));
    let map = ColumnMap::new(vec![Some(1), Some(0), None, Some(2)]).unwrap();
    let err = row.reorder(&map).err().unwrap();
    assert_eq!(err, CombinationError::LengthError { map_len: 4, row_len: 3 });
}

#[test]
fn reorder_fills_gaps_with_default() {
    let row = Row::new(vec![7u32, 8, 9]);
    let map = ColumnMap::new(vec![None, Some(2), None]).unwrap();
    let out = row.reorder(&map).unwrap();
    assert_eq!(out.as_slice(), &[0, 0, 8]);
}

#[test]
fn reorder_by_identity_gives_row_back() {
    let row = Row::new(strings(&["x", "y", "z"]));
    let out = row.reorder(&ColumnMap::identity(3)).unwrap();
    assert_eq!(out, row);
    let fallback = String::from("-");
    let out_ref = row.reorder_ref(&ColumnMap::identity(3), &fallback).unwrap();
    assert_eq!(out_ref.into_owned(), row);
}

#[test]
fn reorder_empty_row_by_empty_identity_gives_one_default() {
    let row: Row<String> = Row::new(Vec::new());
    let out = row.reorder(&ColumnMap::identity(0)).unwrap();
    assert_eq!(out, Row::new(strings(&[""])));
}

#[test]
fn reorder_by_sequential_takes_range() {
    let row = Row::new(strings(&["a", "b", "c", "d", "e"]));
    let map = ColumnMap::sequential(1, 4, 0).unwrap();
    let out = row.reorder(&map).unwrap();
    assert_eq!(out, Row::new(strings(&["b", "c", "d"])));
}

#[test]
fn splice_then_combine_concatenates_ranges() {
    let row_1 = Row::new(strings(&["a", "b", "c", "d"]));
    let row_2 = Row::new(strings(&["1", "2", "3", "4"]));
    let (map_1, map_2) = ColumnMap::splice(1, 3, 0, 3).unwrap();
    let out = Row::combine(&row_1, &map_1, &row_2, &map_2).unwrap();
    assert_eq!(out, Row::new(strings(&["b", "c", "1", "2", "3"])));
    let fallback = String::from("?");
    let out_ref = Row::combine_ref(&row_1, &map_1, &row_2, &map_2, &fallback).unwrap();
    assert_eq!(out_ref.into_owned(), out);
}

#[test]
fn splice_with_empty_first_range() {
    let row_1 = Row::new(strings(&["a"]));
    let row_2 = Row::new(strings(&["1", "2"]));
    let (map_1, map_2) = ColumnMap::splice(1, 1, 0, 2).unwrap();
    let out = Row::combine(&row_1, &map_1, &row_2, &map_2).unwrap();
    assert_eq!(out, Row::new(strings(&["1", "2"])));
}

#[test]
fn combine_with_empty_second_is_reorder() {
    let row_1 = Row::new(strings(&["a", "b", "c"]));
    let row_2 = Row::new(strings(&["1"]));
    let map_1 = ColumnMap::new(vec![Some(1), Some(0), None]).unwrap();
    let map_2 = ColumnMap::new(vec![None]).unwrap();
    let combined = Row::combine(&row_1, &map_1, &row_2, &map_2).unwrap();
    assert_eq!(combined, row_1.reorder(&map_1).unwrap());
}

#[test]
fn into_owned_clones() {
    let a = String::from("a");
    let b = String::from("b");
    let row = Row::new(vec![&a, &b]);
    let owned: Row<String> = row.into_owned();
    assert_eq!(owned, Row::new(strings(&["a", "b"])));
}

#[test]
fn row_text() {
    assert_eq!(Row::new(strings(&["a", "b", "c"])).to_string(), "a, b, c");
    assert_eq!(Row::new(strings(&["only"])).to_string(), "only");
    assert_eq!(Row::new(Vec::<String>::new()).to_string(), "");
}

#[test]
fn combination_error_text() {
    assert_eq!(
        CombinationError::CollisionError { dest: 2 }.to_string(),
        "Collision at destination index 2"
    );
    assert_eq!(
        CombinationError::LengthError { map_len: 4, row_len: 3 }.to_string(),
        "Map of length 4 is longer than row of length 3"
    );
}

#[test]
fn reorder_by_map_without_destinations_gives_one_default() {
    let row = Row::new(strings(&["a", "b", "c"]));
    let map = ColumnMap::sequential(3, 3, 5).unwrap();
    let out = row.reorder(&map).unwrap();
    assert_eq!(out, Row::new(strings(&[""])));
    let fallback = String::from("-");
    let out_ref = row.reorder_ref(&map, &fallback).unwrap();
    assert_eq!(out_ref.into_owned(), Row::new(strings(&["-"])));
}

#[test]
fn splice_with_empty_second_range() {
    let row_1 = Row::new(strings(&["a", "b", "c"]));
    let row_2 = Row::new(strings(&["1"]));
    let (map_1, map_2) = ColumnMap::splice(0, 2, 1, 1).unwrap();
    assert_eq!(map_2.max(), 0);
    let out = Row::combine(&row_1, &map_1, &row_2, &map_2).unwrap();
    assert_eq!(out, Row::new(strings(&["a", "b"])));
}

#[test]
fn combine_ref_then_into_owned_is_combine() {
    let row_1 = Row::new(strings(&["a", "b", "c"]));
    let row_2 = Row::new(strings(&["1", "2", "3"]));
    let map_1 = ColumnMap::new(vec![Some(2), None, Some(0)]).unwrap();
    let map_2 = ColumnMap::new(vec![None, Some(4), None]).unwrap();
    let fallback = String::new();
    let via_ref = Row::combine_ref(&row_1, &map_1, &row_2, &map_2, &fallback)
        .map(|r| r.into_owned());
    let owned = Row::combine(&row_1, &map_1, &row_2, &map_2);
    assert_eq!(via_ref, owned);
    let map_2 = ColumnMap::new(vec![None, Some(2), None]).unwrap();
    let via_ref = Row::combine_ref(&row_1, &map_1, &row_2, &map_2, &fallback)
        .map(|r| r.into_owned());
    let owned = Row::combine(&row_1, &map_1, &row_2, &map_2);
    assert_eq!(via_ref, owned);
}

#[test]
fn combine_commutes() {
    let row_1 = Row::new(strings(&["a", "b", "c"]));
    let row_2 = Row::new(strings(&["1", "2", "3"]));
    let map_1 = ColumnMap::new(vec![Some(2), None, Some(0)]).unwrap();
    let map_2 = ColumnMap::new(vec![None, Some(4), None]).unwrap();
    let forward = Row::combine(&row_1, &map_1, &row_2, &map_2).unwrap();
    let backward = Row::combine(&row_2, &map_2, &row_1, &map_1).unwrap();
    assert_eq!(forward, backward);
    let map_3 = ColumnMap::new(vec![Some(0)]).unwrap();
    assert!(Row::combine(&row_1, &map_1, &row_2, &map_3).is_err());
    assert!(Row::combine(&row_2, &map_3, &row_1, &map_1).is_err());
}

#[test]
fn permutation_round_trip() {
    let row = Row::new(strings(&["a", "b", "c", "d"]));
    let p: Vec<usize> = vec![2, 0, 3, 1];
    let mut q: Vec<usize> = vec![0; 4];
    for (i, &x) in p.iter().enumerate() {
        q[x] = i;
    }
    let map = ColumnMap::new(p.iter().map(|&x| Some(x)).collect()).unwrap();
    let inverse = ColumnMap::new(q.iter().map(|&x| Some(x)).collect()).unwrap();
    let moved = row.reorder(&map).unwrap();
    assert_eq!(moved, Row::new(strings(&["b", "d", "a", "c"])));
    assert_eq!(moved.reorder(&inverse).unwrap(), row);
}
