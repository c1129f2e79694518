use prism::array::{product_of, Array};
use prism::utils::{from_linear, to_linear};

#[test]
fn from_linear_first_axis_fastest() {
    let shape = [4u32, 3, 2];
    assert_eq!(from_linear(0, shape), [0, 0, 0]);
    assert_eq!(from_linear(1, shape), [1, 0, 0]);
    assert_eq!(from_linear(4, shape), [0, 1, 0]);
    assert_eq!(from_linear(13, shape), [1, 0, 1]);
    assert_eq!(from_linear(23, shape), [3, 2, 1]);
}

#[test]
fn to_linear_exact_values() {
    let shape = [4u32, 3, 2];
    assert_eq!(to_linear([0, 0, 0], shape), 0);
    assert_eq!(to_linear([3, 0, 0], shape), 3);
    assert_eq!(to_linear([0, 1, 0], shape), 4);
    assert_eq!(to_linear([1, 0, 1], shape), 13);
    assert_eq!(to_linear([3, 2, 1], shape), 23);
}

#[test]
fn linear_round_trip() {
    let shape = [5u32, 1, 3, 2];
    let total = product_of(shape);
    assert_eq!(total, 30);
    for k in 0..total {
        assert_eq!(to_linear(from_linear(k, shape), shape), k);
    }
}

#[test]
fn from_linear_wraps_past_the_box() {
    assert_eq!(from_linear(7, [3u32, 2]), [1, 0]);
}

#[test]
fn zero_dimensional_box() {
    let shape: [u32; 0] = [];
    assert_eq!(product_of(shape), 1);
    assert_eq!(to_linear([], shape), 0);
}

#[test]
fn product_with_empty_axis() {
    assert_eq!(product_of([7u32, 0, 9]), 0);
}

#[test]
fn array_steps_are_row_major() {
    let a = Array::repeat([4u32, 3, 2], 0u8);
    assert_eq!(a.steps(), [1, 4, 12]);
    assert_eq!(a.shape(), [4, 3, 2]);
}

#[test]
fn array_from_fn_stores_each_cell() {
    let a = Array::from_fn([3u32, 2], |p: [u32; 2]| p[0] * 10 + p[1]);
    assert_eq!(*a.get([0, 0]), 0);
    assert_eq!(*a.get([2, 0]), 20);
    assert_eq!(*a.get([1, 1]), 11);
    assert_eq!(*a.get([2, 1]), 21);
}

#[test]
fn array_contains_checks_every_axis() {
    let a = Array::repeat([3u32, 2], 'x');
    assert!(a.contains([0, 0]));
    assert!(a.contains([2, 1]));
    assert!(!a.contains([3, 0]));
    assert!(!a.contains([0, 2]));
}

#[test]
fn array_set_changes_one_cell() {
    let mut a = Array::repeat([2u32, 2], 0i32);
    a.set([1, 0], 5);
    assert_eq!(*a.get([1, 0]), 5);
    assert_eq!(*a.get([0, 1]), 0);
    assert_eq!(*a.get([0, 0]), 0);
}

#[test]
fn array_from_vec_keeps_order() {
    let a = Array::from_vec([2u32, 2], vec![1, 2, 3, 4]);
    assert_eq!(*a.get([1, 0]), 2);
    assert_eq!(*a.get([0, 1]), 3);
}

#[test]
fn array_with_empty_axis_holds_nothing() {
    let a = Array::from_fn([0u32, 3], |_p: [u32; 2]| -> u8 { panic!("no cell to fill") });
    assert!(!a.contains([0, 0]));
    assert_eq!(a.shape(), [0, 3]);
}

#[test]
fn array_steps_of_a_line() {
    let a = Array::repeat([9u32], 0u8);
    assert_eq!(a.steps(), [1]);
}
