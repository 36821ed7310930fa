use uiua::algorithm::{force_length, range, reverse};
use uiua::order::TotalOrder;
use uiua::sort::{compare_cells, merge_sort_chunks, sort_array};
use uiua::value::{Array, ArrayError, Number, Value, UNITS};
use std::cmp::Ordering;

fn whole(n: i128) -> Value {
    Value::Num(Number::from_units(n * UNITS))
}

fn nums(ns: &[i128]) -> Vec<Value> {
    ns.iter().map(|n| whole(*n)).collect()
}

fn list(ns: &[i128]) -> Value {
    Value::Array(Array::new(vec![ns.len()], nums(ns)).unwrap())
}

#[test]
fn range_of_two_by_three_lists_coordinates() {
    let data = range(&[2, 3]);
    let expected = [[0, 0], [0, 1], [0, 2], [1, 0], [1, 1], [1, 2]];
    assert_eq!(data.len(), 6);
    for (v, e) in data.iter().zip(expected.iter()) {
        assert_eq!(*v, list(e));
    }
}

#[test]
fn range_of_rank_one_is_plain_numbers() {
    assert_eq!(range(&[4]), nums(&[0, 1, 2, 3]));
    assert_eq!(range(&[]), nums(&[0]));
}

#[test]
fn range_of_three_axes_is_row_major() {
    let data = range(&[2, 2, 2]);
    assert_eq!(data.len(), 8);
    assert_eq!(data[5], list(&[1, 0, 1]));
    assert_eq!(data[6], list(&[1, 1, 0]));
}

#[test]
fn value_range_of_five() {
    let r = whole(5).range().unwrap();
    assert_eq!(r.shape, vec![5]);
    assert_eq!(r.data, nums(&[0, 1, 2, 3, 4]));
}

#[test]
fn value_range_of_fraction_fails() {
    let v = Value::Num(Number::from_units(4 * UNITS + UNITS / 2));
    assert_eq!(v.range(), Err(ArrayError::RangeNumberNotNatural));
}

#[test]
fn value_range_of_negative_fails() {
    assert_eq!(whole(-1).range(), Err(ArrayError::RangeNumberNotNatural));
}

#[test]
fn value_range_of_zero_fails() {
    assert_eq!(whole(0).range(), Err(ArrayError::RangeNumberNotNatural));
}

#[test]
fn value_range_of_char_fails() {
    assert_eq!(Value::Char('a').range(), Err(ArrayError::RangeNotNumbers));
}

#[test]
fn value_range_of_shape_array() {
    let r = list(&[2, 3]).range().unwrap();
    assert_eq!(r.shape, vec![2, 3]);
    assert_eq!(r.data.len(), 6);
    assert_eq!(r.data[4], list(&[1, 1]));
}

#[test]
fn value_range_of_array_with_nonnatural_fails() {
    assert_eq!(list(&[2, 0]).range(), Err(ArrayError::RangeArrayNotNatural));
    let half = Value::Num(Number::from_units(UNITS / 2));
    let v = Value::Array(Array::new(vec![2], vec![whole(2), half]).unwrap());
    assert_eq!(v.range(), Err(ArrayError::RangeArrayNotNatural));
}

#[test]
fn value_range_of_array_with_char_fails() {
    let v = Value::Array(Array::new(vec![2], vec![whole(2), Value::Char('x')]).unwrap());
    assert_eq!(v.range(), Err(ArrayError::RangeNotNumbers));
}

#[test]
fn value_queries() {
    assert_eq!(whole(3).len(), 1);
    assert_eq!(whole(3).rank(), 0);
    assert_eq!(whole(3).shape(), Vec::<usize>::new());
    let m = Value::Array(Array::new(vec![2, 3], nums(&[1, 2, 3, 4, 5, 6])).unwrap());
    assert_eq!(m.len(), 2);
    assert_eq!(m.rank(), 2);
    assert_eq!(m.shape(), vec![2, 3]);
    assert!(m.is_array());
    assert!(!Value::Char('c').is_array());
}

#[test]
fn array_new_checks_element_count() {
    assert!(Array::new(vec![2, 2], nums(&[1, 2, 3])).is_none());
    assert!(Array::new(vec![2, 2], nums(&[1, 2, 3, 4])).is_some());
    assert!(Array::new(vec![usize::MAX, 2, 0], Vec::<Value>::new()).is_some());
    assert!(Array::new(vec![0, usize::MAX, 2], Vec::<Value>::new()).is_none());
}

#[test]
fn reverse_moves_whole_cells() {
    let mut d: Vec<i64> = vec![1, 2, 3, 4, 5, 6];
    reverse(&[3, 2], &mut d);
    assert_eq!(d, vec![5, 6, 3, 4, 1, 2]);
    reverse(&[3, 2], &mut d);
    assert_eq!(d, vec![1, 2, 3, 4, 5, 6]);
}

#[test]
fn reverse_of_single_cell_or_scalar_is_identity() {
    let mut d: Vec<i64> = vec![1, 2, 3];
    reverse(&[1, 3], &mut d);
    assert_eq!(d, vec![1, 2, 3]);
    let mut s: Vec<i64> = vec![9];
    reverse(&[], &mut s);
    assert_eq!(s, vec![9]);
    let mut v = whole(7);
    v.reverse();
    assert_eq!(v, whole(7));
}

#[test]
fn value_reverse_of_list() {
    let mut v = list(&[1, 2, 3, 4]);
    v.reverse();
    assert_eq!(v, list(&[4, 3, 2, 1]));
}

#[test]
fn join_concatenates_cells() {
    let mut a = Array::new(vec![2, 2], nums(&[1, 2, 3, 4])).unwrap();
    let b = Array::new(vec![1, 2], nums(&[5, 6])).unwrap();
    assert_eq!(a.join(b), Ok(()));
    assert_eq!(a.shape, vec![3, 2]);
    assert_eq!(a.data, nums(&[1, 2, 3, 4, 5, 6]));
}

#[test]
fn join_with_mismatched_cells_fails() {
    let mut a = Array::new(vec![2, 3], nums(&[1, 2, 3, 4, 5, 6])).unwrap();
    let b = Array::new(vec![2, 4], nums(&[1, 2, 3, 4, 5, 6, 7, 8])).unwrap();
    assert_eq!(
        a.join(b),
        Err(ArrayError::ShapeMismatch { left: vec![2, 3], right: vec![2, 4] })
    );
    assert_eq!(a.shape, vec![2, 3]);
    assert_eq!(a.data, nums(&[1, 2, 3, 4, 5, 6]));
}

#[test]
fn join_onto_empty_takes_other_side() {
    let mut a: Array<Value> = Array::new(vec![0, 3], Vec::new()).unwrap();
    let b = Array::new(vec![2, 4], nums(&[1, 2, 3, 4, 5, 6, 7, 8])).unwrap();
    assert_eq!(a.join(b), Ok(()));
    assert_eq!(a.shape, vec![2, 4]);
    assert_eq!(a.data.len(), 8);
}

#[test]
fn join_scalars_makes_list() {
    let mut v = whole(1);
    assert_eq!(v.join(whole(2)), Ok(()));
    assert_eq!(v, list(&[1, 2]));
    assert_eq!(v.len(), 2);
}

#[test]
fn join_scalar_and_list_both_ways() {
    let mut v = list(&[1, 2]);
    assert_eq!(v.join(whole(3)), Ok(()));
    assert_eq!(v, list(&[1, 2, 3]));
    let mut w = whole(0);
    assert_eq!(w.join(list(&[1, 2])), Ok(()));
    assert_eq!(w, list(&[0, 1, 2]));
}

#[test]
fn join_scalar_onto_matrix_fails_and_keeps_value() {
    let m = Value::Array(Array::new(vec![2, 2], nums(&[1, 2, 3, 4])).unwrap());
    let mut v = whole(9);
    assert_eq!(
        v.join(m),
        Err(ArrayError::ShapeMismatch { left: vec![], right: vec![2, 2] })
    );
    assert_eq!(v, whole(9));
}

#[test]
fn force_length_grows_round_robin() {
    let mut d: Vec<i64> = vec![1, 2, 3];
    force_length(&mut d, 7);
    assert_eq!(d, vec![1, 2, 3, 1, 2, 3, 1]);
}

#[test]
fn force_length_truncates_and_keeps_equal() {
    let mut d: Vec<i64> = vec![1, 2, 3, 4];
    force_length(&mut d, 2);
    assert_eq!(d, vec![1, 2]);
    force_length(&mut d, 2);
    assert_eq!(d, vec![1, 2]);
    force_length(&mut d, 0);
    assert!(d.is_empty());
}

#[test]
fn force_length_of_numbers() {
    let mut d = vec![Number::from_units(5)];
    force_length(&mut d, 3);
    assert_eq!(d, vec![Number::from_units(5); 3]);
}

#[test]
fn sort_rows_lexicographically() {
    let mut d: Vec<i64> = vec![5, 1, 2, 9, 2, 1];
    sort_array(&[3, 2], &mut d);
    assert_eq!(d, vec![2, 1, 2, 9, 5, 1]);
}

#[test]
fn sort_with_equal_cells() {
    let mut d: Vec<i64> = vec![1, 2, 0, 0, 1, 2, -3, 7];
    sort_array(&[4, 2], &mut d);
    assert_eq!(d, vec![-3, 7, 0, 0, 1, 2, 1, 2]);
}

#[test]
fn sort_twice_is_sort_once() {
    let mut d: Vec<i64> = vec![3, 1, 4, 1, 5, 9, 2, 6, 5, 3];
    sort_array(&[10], &mut d);
    let once = d.clone();
    assert_eq!(once, vec![1, 1, 2, 3, 3, 4, 5, 5, 6, 9]);
    sort_array(&[10], &mut d);
    assert_eq!(d, once);
}

#[test]
fn sort_of_rank_zero_and_empty_is_noop() {
    let mut d: Vec<i64> = vec![4];
    sort_array(&[], &mut d);
    assert_eq!(d, vec![4]);
    let mut e: Vec<i64> = Vec::new();
    sort_array(&[0, 3], &mut e);
    assert!(e.is_empty());
    let mut z: Vec<i64> = Vec::new();
    sort_array(&[3, 0], &mut z);
    assert!(z.is_empty());
}

#[test]
fn sort_numbers() {
    let mut d = vec![
        Number::from_units(3 * UNITS),
        Number::from_units(-UNITS / 2),
        Number::from_units(UNITS),
    ];
    sort_array(&[3], &mut d);
    assert_eq!(d[0].units, -UNITS / 2);
    assert_eq!(d[2].units, 3 * UNITS);
}

#[test]
fn merge_sort_chunks_sorts_cells() {
    let cells: Vec<Vec<i64>> = vec![vec![2, 2], vec![1, 9], vec![2, 1]];
    assert_eq!(merge_sort_chunks(2, cells), vec![vec![1, 9], vec![2, 1], vec![2, 2]]);
}

#[test]
fn compare_cells_is_lexicographic() {
    assert_eq!(compare_cells(&vec![1i64, 5], &vec![2i64, 0]), Ordering::Less);
    assert_eq!(compare_cells(&vec![2i64, 5], &vec![2i64, 0]), Ordering::Greater);
    assert_eq!(compare_cells(&vec![2i64, 5], &vec![2i64, 5]), Ordering::Equal);
    assert_eq!(3i64.compare(&4), Ordering::Less);
}

#[test]
fn error_messages_name_natural_numbers() {
    assert!(ArrayError::RangeNumberNotNatural.message().contains("natural numbers"));
    assert!(ArrayError::RangeArrayNotNatural.message().contains("array"));
    assert!(ArrayError::RangeNotNumbers.message().contains("natural numbers"));
}

#[test]
fn mismatch_message_names_both_shapes() {
    let e = ArrayError::ShapeMismatch { left: vec![2, 3], right: vec![12, 40] };
    assert_eq!(
        e.message(),
        "Cannot join arrays of shapes [2, 3] and [12, 40]: their cells differ in shape"
    );
    let scalar = ArrayError::ShapeMismatch { left: vec![], right: vec![2, 2] };
    assert_eq!(
        scalar.message(),
        "Cannot join arrays of shapes [] and [2, 2]: their cells differ in shape"
    );
}

#[test]
fn range_message_says_array_or_number() {
    assert_eq!(
        ArrayError::RangeNumberNotNatural.message(),
        "Tried to make a range of decimal or nonpositive number, but only natural numbers are allowed"
    );
    assert_eq!(
        ArrayError::RangeArrayNotNatural.message(),
        "Tried to make a range of an array with decimal or nonpositive numbers, but only natural numbers are allowed"
    );
}

#[test]
fn value_range_of_huge_and_fractional_entries_fails() {
    let huge = Value::Num(Number::from_units(1_000_000_000_000_000_000_000_000_000_000 * UNITS));
    let frac = Value::Num(Number::from_units(4 * UNITS + UNITS / 2));
    let v = Value::Array(Array::new(vec![2], vec![huge, frac]).unwrap());
    assert_eq!(v.range(), Err(ArrayError::RangeArrayNotNatural));
}
