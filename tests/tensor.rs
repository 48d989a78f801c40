use rust_tensors::address_bound::AddressBound;
use rust_tensors::addressable::{
    add_addresses, add_in_place, address_difference, difference_in_place, scale_address,
    subtract_addresses, subtract_in_place, Addressable,
};
use rust_tensors::matrix_address::MatrixAddress;
use rust_tensors::tensor::{OutOfBounds, Tensor};

fn square(side: i32) -> AddressBound<MatrixAddress> {
    AddressBound::new(MatrixAddress { x: 0, y: 0 }, MatrixAddress { x: side - 1, y: side - 1 })
}

#[test]
fn tensor_values_follow_linear_index() {
    let b = AddressBound::new(MatrixAddress { x: -1, y: 2 }, MatrixAddress { x: 1, y: 3 });
    let t = Tensor::new(b, |a: MatrixAddress| (a.x, a.y));
    assert_eq!(
        t.clone().into_values(),
        vec![(-1, 2), (0, 2), (1, 2), (-1, 3), (0, 3), (1, 3)]
    );
    assert_eq!(t.get(MatrixAddress { x: 0, y: 3 }), Some(&(0, 3)));
    assert_eq!(t.get(MatrixAddress { x: 2, y: 3 }), None);
    assert_eq!(t.smallest_contained_address(), MatrixAddress { x: -1, y: 2 });
    assert_eq!(t.largest_contained_address(), MatrixAddress { x: 1, y: 3 });
    assert_eq!(t.bounds(), b);
}

#[test]
fn out_of_bounds_set_leaves_tensor_unchanged() {
    let mut t = Tensor::new(square(3), |a: MatrixAddress| a.x * 10 + a.y);
    let before = t.clone();
    assert_eq!(t.set(MatrixAddress { x: 3, y: 0 }, 99), Err(OutOfBounds));
    assert_eq!(t, before);
    assert_eq!(t.set(MatrixAddress { x: 2, y: 0 }, 99), Ok(()));
    assert_eq!(t.get(MatrixAddress { x: 2, y: 0 }), Some(&99));
    assert_ne!(t, before);
}

#[test]
fn tensor_contains_address() {
    let t = Tensor::new(square(2), |_a: MatrixAddress| 0u8);
    assert!(t.contains_address(MatrixAddress { x: 1, y: 1 }));
    assert!(!t.contains_address(MatrixAddress { x: 2, y: 1 }));
    assert!(!t.contains_address(MatrixAddress { x: -1, y: 0 }));
}

#[test]
fn transform_builds_a_new_tensor() {
    let t = Tensor::new(square(2), |a: MatrixAddress| a.x + 2 * a.y);
    let doubled = t.transform(|v: &i32| v * 2);
    assert_eq!(doubled.into_values(), vec![0, 2, 4, 6]);
    assert_eq!(t.into_values(), vec![0, 1, 2, 3]);
}

#[test]
fn transform_in_place_updates_every_value() {
    let mut t = Tensor::new(square(2), |a: MatrixAddress| a.x + 2 * a.y);
    t.transform_in_place(|v: &i32| v + 100);
    assert_eq!(t.into_values(), vec![100, 101, 102, 103]);
}

#[test]
fn tensor_from_values_and_iteration() {
    let t = Tensor::from_values(square(2), vec!['a', 'b', 'c', 'd']);
    let mut it = t.address_iter();
    let mut seen = String::new();
    while let Some(a) = it.next() {
        seen.push(*t.get(a).unwrap());
    }
    assert_eq!(seen, "abcd");
}

#[test]
fn empty_tensor_has_no_values() {
    let b = AddressBound::new(MatrixAddress { x: 0, y: 0 }, MatrixAddress { x: 2, y: -1 });
    let t = Tensor::new(b, |_a: MatrixAddress| 1u8);
    assert!(t.clone().into_values().is_empty());
    assert_eq!(t.get(MatrixAddress { x: 0, y: 0 }), None);
}

#[test]
fn operators_are_inverse() {
    let a = MatrixAddress { x: 17, y: -4 };
    let b = MatrixAddress { x: -30, y: 9 };
    assert_eq!((a + b) - b, a);
    assert_eq!((a - b) + b, a);
    assert_eq!(a + b, MatrixAddress { x: -13, y: 5 });
    assert_eq!(a - b, MatrixAddress { x: 47, y: -13 });
    assert_eq!(-a, MatrixAddress { x: -17, y: 4 });
    assert_eq!(a - b, a + (-b));
}

#[test]
fn generic_arithmetic_is_componentwise() {
    let a = MatrixAddress { x: 5, y: -3 };
    let b = MatrixAddress { x: 2, y: 4 };
    assert_eq!(add_addresses(&a, &b), MatrixAddress { x: 7, y: 1 });
    assert_eq!(subtract_addresses(&a, &b), MatrixAddress { x: 3, y: -7 });
    assert_eq!(address_difference(&a, &b), MatrixAddress { x: 3, y: 7 });
    assert_eq!(address_difference(&b, &a), MatrixAddress { x: 3, y: 7 });
    assert_eq!(subtract_addresses(&add_addresses(&a, &b), &b), a);
    assert_eq!(add_addresses(&subtract_addresses(&a, &b), &b), a);
    let mut c = a;
    add_in_place(&mut c, &b);
    assert_eq!(c, MatrixAddress { x: 7, y: 1 });
    subtract_in_place(&mut c, &b);
    assert_eq!(c, a);
    difference_in_place(&mut c, &b);
    assert_eq!(c, MatrixAddress { x: 3, y: 7 });
}

#[test]
fn addressable_views_of_a_matrix_address() {
    let a = MatrixAddress { x: -8, y: 21 };
    assert_eq!(MatrixAddress::get_dimension_count(), 2);
    assert_eq!(a.get_value_at_dimension_index(0), -8);
    assert_eq!(a.get_value_at_dimension_index(1), 21);
    assert_eq!(MatrixAddress::new_from_value_vec(vec![3, -4]), MatrixAddress { x: 3, y: -4 });
    assert_eq!(MatrixAddress::from([1, 2]), MatrixAddress { x: 1, y: 2 });
    assert_eq!(<[i32; 2]>::from(a), [-8, 21]);
    assert_eq!(MatrixAddress::from((5, 6)), MatrixAddress { x: 5, y: 6 });
}

#[test]
fn matrix_addresses_order_rows_first() {
    let a = MatrixAddress { x: 9, y: 0 };
    let b = MatrixAddress { x: 0, y: 1 };
    let c = MatrixAddress { x: 1, y: 1 };
    assert!(a < b);
    assert!(b < c);
    assert!(c > a);
    assert_eq!(a.partial_cmp(&a), Some(std::cmp::Ordering::Equal));
}

#[test]
fn get_mut_writes_one_slot() {
    let mut t = Tensor::new(square(2), |a: MatrixAddress| a.x + 2 * a.y);
    *t.get_mut(MatrixAddress { x: 1, y: 0 }).unwrap() = 40;
    assert!(t.get_mut(MatrixAddress { x: 2, y: 0 }).is_none());
    assert_eq!(t.into_values(), vec![0, 40, 2, 3]);
}

#[test]
fn integer_scaling_is_componentwise() {
    let a = MatrixAddress { x: 5, y: -3 };
    assert_eq!(scale_address(&a, 3), MatrixAddress { x: 15, y: -9 });
    assert_eq!(scale_address(&a, -1), MatrixAddress { x: -5, y: 3 });
    assert_eq!(scale_address(&a, 0), MatrixAddress { x: 0, y: 0 });
}
