use rust_tensors::address_bound::AddressBound;
use rust_tensors::address_iterator::AddressIterator;
use rust_tensors::matrix::Matrix;
use rust_tensors::matrix_address::MatrixAddress;

fn bound(x1: i32, y1: i32, x2: i32, y2: i32) -> AddressBound<MatrixAddress> {
    AddressBound::new(MatrixAddress { x: x1, y: y1 }, MatrixAddress { x: x2, y: y2 })
}

#[test]
fn iteration_visual_test() {
    let bounds = AddressBound {
        smallest_possible_position: MatrixAddress { x: 50, y: 50 },
        largest_possible_position: MatrixAddress { x: 69, y: 100 },
    };
    assert!(bounds.addresses().is_sorted());
}

// A hand-written row-by-row walk over a width-by-height grid.
pub struct MatrixAddressIterator {
    pub x: i32,
    pub y: i32,
    pub width: usize,
    pub height: usize,
}

impl Iterator for MatrixAddressIterator {
    type Item = MatrixAddress;

    fn next(&mut self) -> Option<Self::Item> {
        if self.x >= self.width as i32 - 1 {
            if self.y >= self.height as i32 - 1 {
                return None;
            }
            self.x = 0;
            self.y += 1;
        } else {
            self.x += 1;
        }
        Some(MatrixAddress {
            x: self.x,
            y: self.y,
        })
    }
}

#[test]
fn address_iterator_address_iterator_test() {
    let (width, height) = (1000, 2000);
    let matrix_address_iterator = MatrixAddressIterator {
        x: -1,
        y: 0,
        width,
        height,
    };
    let matrix = Matrix::new(width, height, |_| 0);
    let mut new_addresses = matrix.address_iter();
    for true_address in matrix_address_iterator {
        let new_address = new_addresses.next().unwrap();
        assert_eq!(true_address, new_address);
    }
    assert_eq!(new_addresses.next(), None);
}

#[test]
fn two_by_two_bound_scenario() {
    let b = bound(0, 0, 1, 1);
    let expected = vec![
        MatrixAddress { x: 0, y: 0 },
        MatrixAddress { x: 1, y: 0 },
        MatrixAddress { x: 0, y: 1 },
        MatrixAddress { x: 1, y: 1 },
    ];
    assert_eq!(b.addresses(), expected);
    for (i, a) in expected.iter().enumerate() {
        assert_eq!(b.index_address(a), Some(i));
    }
    assert_eq!(b.volume(), 4);
}

#[test]
fn iterator_walks_like_an_odometer() {
    let b = bound(-1, 5, 1, 6);
    let mut it = b.iter();
    let mut seen = Vec::new();
    while let Some(a) = it.next() {
        seen.push((a.x, a.y));
    }
    assert_eq!(seen, vec![(-1, 5), (0, 5), (1, 5), (-1, 6), (0, 6), (1, 6)]);
    assert_eq!(it.next(), None);
    assert_eq!(it.next(), None);
}

#[test]
fn round_trip_between_addresses_and_indices() {
    let b = bound(-2, 5, 1, 8);
    assert_eq!(b.volume(), 16);
    for i in 0..16usize {
        let a = b.get_address_from_index(i).unwrap();
        assert!(b.contains_address(&a));
        assert_eq!(b.index_address(&a), Some(i));
    }
    for y in 5..=8 {
        for x in -2..=1 {
            let a = MatrixAddress { x, y };
            let i = b.index_address(&a).unwrap();
            assert_eq!(i, ((y - 5) * 4 + (x + 2)) as usize);
            assert_eq!(b.get_address_from_index(i), Ok(a));
        }
    }
}

#[test]
fn index_past_the_volume_is_an_error() {
    let b = bound(0, 0, 2, 1);
    assert_eq!(b.get_address_from_index(5), Ok(MatrixAddress { x: 2, y: 1 }));
    assert_eq!(b.get_address_from_index(6), Err("Index is too large."));
    assert!(b.get_address_from_index(usize::MAX).is_err());
}

#[test]
fn outside_address_has_no_index() {
    let b = bound(0, 0, 2, 1);
    assert_eq!(b.index_address(&MatrixAddress { x: 3, y: 0 }), None);
    assert_eq!(b.index_address(&MatrixAddress { x: 0, y: -1 }), None);
}

#[test]
fn iteration_covers_the_bound_once() {
    let b = bound(3, -4, 7, 2);
    let all = b.addresses();
    assert_eq!(all.len(), b.volume());
    assert_eq!(all.len(), 35);
    for (i, a) in all.iter().enumerate() {
        assert!(b.contains_address(a));
        assert_eq!(b.index_address(a), Some(i));
    }
    for i in 0..all.len() {
        for j in (i + 1)..all.len() {
            assert_ne!(all[i], all[j]);
        }
    }
}

#[test]
fn iteration_is_strictly_increasing() {
    let b = bound(-3, -3, 3, 3);
    let all = b.addresses();
    for pair in all.windows(2) {
        assert!(pair[0] < pair[1]);
    }
}

#[test]
fn containment_boundary() {
    let b = bound(1, 2, 4, 6);
    let inside = [
        (1, 2),
        (4, 2),
        (1, 6),
        (4, 6),
        (2, 2),
        (1, 4),
        (4, 3),
        (3, 6),
        (2, 4),
    ];
    for (x, y) in inside {
        assert!(b.contains_address(&MatrixAddress { x, y }), "({x}, {y})");
    }
    let outside = [
        (0, 2),
        (5, 2),
        (1, 1),
        (1, 7),
        (0, 1),
        (5, 7),
        (0, 6),
        (4, 7),
        (5, 4),
        (2, 1),
    ];
    for (x, y) in outside {
        assert!(!b.contains_address(&MatrixAddress { x, y }), "({x}, {y})");
    }
}

#[test]
fn empty_bound_yields_nothing() {
    let b = bound(0, 0, -1, 3);
    assert!(b.is_empty());
    assert_eq!(b.volume(), 0);
    assert!(b.addresses().is_empty());
    let mut it = b.iter();
    assert_eq!(it.next(), None);
    assert!(b.get_address_from_index(0).is_err());
    assert_eq!(b.index_address(&MatrixAddress { x: 0, y: 0 }), None);
    assert!(!b.contains_address(&MatrixAddress { x: 0, y: 0 }));
}

#[test]
fn single_address_bound() {
    let b = bound(7, -7, 7, -7);
    assert!(!b.is_empty());
    assert_eq!(b.volume(), 1);
    assert_eq!(b.addresses(), vec![MatrixAddress { x: 7, y: -7 }]);
    assert_eq!(b.index_address(&MatrixAddress { x: 7, y: -7 }), Some(0));
}

#[test]
fn bound_at_the_edges_of_i32() {
    let b = bound(i32::MAX - 1, i32::MIN, i32::MAX, i32::MIN + 1);
    assert_eq!(
        b.addresses(),
        vec![
            MatrixAddress { x: i32::MAX - 1, y: i32::MIN },
            MatrixAddress { x: i32::MAX, y: i32::MIN },
            MatrixAddress { x: i32::MAX - 1, y: i32::MIN + 1 },
            MatrixAddress { x: i32::MAX, y: i32::MIN + 1 },
        ]
    );
    assert_eq!(
        b.index_address(&MatrixAddress { x: i32::MAX, y: i32::MIN + 1 }),
        Some(3)
    );
}

#[test]
fn matrix_address_iterator_test() {
    let mut iter: AddressIterator<MatrixAddress> = AddressIterator::new(AddressBound::new(
        MatrixAddress::from([0, 0]),
        MatrixAddress::from([3, 5]),
    ));
    let mut values: Vec<(i32, i32)> = Vec::new();
    while let Some(address) = iter.next() {
        values.push((address.x, address.y));
    }
    let mut expected: Vec<(i32, i32)> = Vec::new();
    for y in 0..=5 {
        for x in 0..=3 {
            expected.push((x, y));
        }
    }
    assert_eq!(values.len(), 24);
    assert_eq!(values, expected);
}
