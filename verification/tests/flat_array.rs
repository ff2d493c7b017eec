use maze_gen::cell::Cell;
use maze_gen::flat2darr::Flat2DArray;

#[test]
fn new_array_holds_defaults() {
    let a = Flat2DArray::<u32>::new(3, 2);
    assert_eq!(a.width(), 3);
    assert_eq!(a.height(), 2);
    assert_eq!(a.data().len(), 6);
    for row in 0..2 {
        for col in 0..3 {
            assert_eq!(a.get(row, col), Some(&0));
        }
    }
}

#[test]
fn new_bool_array_is_all_false() {
    let a = Flat2DArray::<bool>::new(4, 4);
    assert!(a.data().iter().all(|b| !*b));
}

#[test]
fn new_cell_array_is_all_empty() {
    let a = Flat2DArray::<Cell>::new(2, 3);
    assert_eq!(a.data().len(), 6);
    assert!(a.data().iter().all(|c| *c == Cell::Empty));
}

#[test]
fn get_outside_is_none() {
    let a = Flat2DArray::<u32>::new(3, 2);
    assert_eq!(a.get(2, 0), None);
    assert_eq!(a.get(0, 3), None);
    assert_eq!(a.get(2, 3), None);
    assert_eq!(a.get(usize::MAX, 0), None);
    assert_eq!(a.get(0, usize::MAX), None);
}

#[test]
fn set_stores_at_row_times_width_plus_col() {
    let mut a = Flat2DArray::<u32>::new(3, 2);
    a.set(1, 2, 7);
    a.set(0, 1, 5);
    a.set(1, 0, 9);
    assert_eq!(a.data(), &vec![0, 5, 0, 9, 0, 7]);
    assert_eq!(a.get(1, 2), Some(&7));
    assert_eq!(a.get(0, 1), Some(&5));
    assert_eq!(a.get(1, 0), Some(&9));
    assert_eq!(a.get(0, 0), Some(&0));
}

#[test]
fn set_outside_changes_nothing() {
    let mut a = Flat2DArray::<u32>::new(3, 2);
    a.set(0, 0, 1);
    a.set(2, 0, 8);
    a.set(0, 3, 8);
    a.set(usize::MAX, usize::MAX, 8);
    assert_eq!(a.data(), &vec![1, 0, 0, 0, 0, 0]);
}

#[test]
fn set_with_column_past_the_row_does_not_spill_into_the_next_row() {
    let mut a = Flat2DArray::<u32>::new(3, 2);
    a.set(0, 4, 8);
    assert_eq!(a.data(), &vec![0, 0, 0, 0, 0, 0]);
    assert_eq!(a.get(0, 4), None);
}

#[test]
fn get_mut_writes_one_element() {
    let mut a = Flat2DArray::<u32>::new(2, 2);
    match a.get_mut(1, 0) {
        Some(slot) => {
            assert_eq!(*slot, 0);
            *slot = 4;
        }
        None => panic!("position (1, 0) is inside a 2 by 2 array"),
    }
    assert_eq!(a.data(), &vec![0, 0, 4, 0]);
}

#[test]
fn get_mut_outside_is_none() {
    let mut a = Flat2DArray::<u32>::new(2, 2);
    assert!(a.get_mut(2, 0).is_none());
    assert!(a.get_mut(0, 2).is_none());
    assert_eq!(a.data(), &vec![0, 0, 0, 0]);
}

#[test]
fn clone_is_independent() {
    let mut a = Flat2DArray::<u32>::new(2, 2);
    a.set(0, 1, 3);
    let b = a.clone();
    a.set(1, 1, 6);
    assert_eq!(b.width(), 2);
    assert_eq!(b.height(), 2);
    assert_eq!(b.data(), &vec![0, 3, 0, 0]);
    assert_eq!(a.data(), &vec![0, 3, 0, 6]);
}

#[test]
fn array_without_rows_has_no_elements() {
    let a = Flat2DArray::<u32>::new(5, 0);
    assert_eq!(a.data().len(), 0);
    assert_eq!(a.get(0, 0), None);
}

#[test]
fn arrays_compare_by_shape_and_elements() {
    let mut a = Flat2DArray::<u32>::new(2, 2);
    let mut b = Flat2DArray::<u32>::new(2, 2);
    assert_eq!(a, b);
    a.set(0, 1, 3);
    assert_ne!(a, b);
    assert!(b < a);
    b.set(0, 1, 3);
    assert_eq!(a, b);
    assert_ne!(Flat2DArray::<u32>::new(1, 4), Flat2DArray::<u32>::new(4, 1));
    assert_eq!(format!("{:?}", Flat2DArray::<u32>::new(1, 1)).contains("data"), true);
}
