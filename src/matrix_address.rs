use crate::address_bound::AddressBound;
use crate::addressable::{int_coords, Addressable};
use crate::mixed_radix::precedes;
use core::cmp::Ordering;
use vstd::prelude::*;
use vstd::std_specs::ops::{AddSpec, SubSpec};

verus! {

/// A two-dimensional address: `x` is dimension 0 (the column), `y` is dimension 1 (the row).
#[derive(Copy, Clone, Debug, PartialEq, Eq, Hash, Structural)]
pub struct MatrixAddress {
    pub x: i32,
    pub y: i32,
}

/// Whether an integer fits in an `i32` coordinate.
pub open spec fn fits_i32(v: int) -> bool {
    i32::MIN <= v <= i32::MAX
}

/// The canonical order of two-dimensional addresses: the row first, then the column.
pub open spec fn matrix_address_order(a: MatrixAddress, b: MatrixAddress) -> Ordering {
    if a.y < b.y {
        Ordering::Less
    } else if a.y > b.y {
        Ordering::Greater
    } else if a.x < b.x {
        Ordering::Less
    } else if a.x > b.x {
        Ordering::Greater
    } else {
        Ordering::Equal
    }
}

impl Addressable for MatrixAddress {
    open spec fn dimension_count() -> nat {
        2
    }

    open spec fn coordinates(&self) -> Seq<int> {
        seq![self.x as int, self.y as int]
    }

    open spec fn can_hold(values: Seq<int>) -> bool {
        values.len() == 2 && fits_i32(values[0]) && fits_i32(values[1])
    }

    proof fn lemma_dimension_count_positive() {
    }

    proof fn lemma_coordinates_held(a: Self) {
    }

    proof fn lemma_can_hold_range(values: Seq<int>) {
    }

    proof fn lemma_can_hold_between(low: Self, high: Self, values: Seq<int>) {
        assert(low.coordinates()[0] <= values[0] <= high.coordinates()[0]);
        assert(low.coordinates()[1] <= values[1] <= high.coordinates()[1]);
    }

    proof fn lemma_coordinates_injective(a: Self, b: Self) {
        assert(a.coordinates()[0] == b.coordinates()[0]);
        assert(a.coordinates()[1] == b.coordinates()[1]);
    }

    fn get_dimension_count() -> (r: usize) {
        2
    }

    fn get_value_at_dimension_index(&self, index: usize) -> (r: i64) {
        if index == 0 {
            self.x as i64
        } else {
            self.y as i64
        }
    }

    fn new_from_value_vec(values: Vec<i64>) -> (r: Self) {
        let ghost coords = int_coords(values@);
        assert(coords[0] == values@[0] as int && coords[1] == values@[1] as int);
        MatrixAddress { x: values[0] as i32, y: values[1] as i32 }
    }
}

impl From<[i32; 2]> for MatrixAddress {
    fn from(value: [i32; 2]) -> (r: Self) {
        MatrixAddress { x: value[0], y: value[1] }
    }
}

impl vstd::std_specs::convert::FromSpecImpl<[i32; 2]> for MatrixAddress {
    open spec fn obeys_from_spec() -> bool {
        true
    }

    open spec fn from_spec(value: [i32; 2]) -> Self {
        MatrixAddress { x: value@[0], y: value@[1] }
    }
}

impl From<MatrixAddress> for [i32; 2] {
    fn from(value: MatrixAddress) -> (r: Self) {
        [value.x, value.y]
    }
}

impl vstd::std_specs::convert::FromSpecImpl<MatrixAddress> for [i32; 2] {
    open spec fn obeys_from_spec() -> bool {
        true
    }

    open spec fn from_spec(value: MatrixAddress) -> Self {
        [value.x, value.y]
    }
}

impl From<(i32, i32)> for MatrixAddress {
    fn from(value: (i32, i32)) -> (r: Self) {
        MatrixAddress { x: value.0, y: value.1 }
    }
}

impl vstd::std_specs::convert::FromSpecImpl<(i32, i32)> for MatrixAddress {
    open spec fn obeys_from_spec() -> bool {
        true
    }

    open spec fn from_spec(value: (i32, i32)) -> Self {
        MatrixAddress { x: value.0, y: value.1 }
    }
}

impl core::ops::Add for MatrixAddress {
    type Output = MatrixAddress;

    fn add(self, rhs: Self) -> (r: Self::Output) {
        MatrixAddress { x: self.x + rhs.x, y: self.y + rhs.y }
    }
}

impl vstd::std_specs::ops::AddSpecImpl for MatrixAddress {
    open spec fn obeys_add_spec() -> bool {
        true
    }

    open spec fn add_req(self, rhs: Self) -> bool {
        fits_i32(self.x + rhs.x) && fits_i32(self.y + rhs.y)
    }

    open spec fn add_spec(self, rhs: Self) -> Self {
        MatrixAddress { x: (self.x + rhs.x) as i32, y: (self.y + rhs.y) as i32 }
    }
}

impl core::ops::Sub for MatrixAddress {
    type Output = MatrixAddress;

    fn sub(self, rhs: Self) -> (r: Self::Output) {
        MatrixAddress { x: self.x - rhs.x, y: self.y - rhs.y }
    }
}

impl vstd::std_specs::ops::SubSpecImpl for MatrixAddress {
    open spec fn obeys_sub_spec() -> bool {
        true
    }

    open spec fn sub_req(self, rhs: Self) -> bool {
        fits_i32(self.x - rhs.x) && fits_i32(self.y - rhs.y)
    }

    open spec fn sub_spec(self, rhs: Self) -> Self {
        MatrixAddress { x: (self.x - rhs.x) as i32, y: (self.y - rhs.y) as i32 }
    }
}

impl core::ops::Neg for MatrixAddress {
    type Output = MatrixAddress;

    fn neg(self) -> (r: Self::Output) {
        MatrixAddress { x: -self.x, y: -self.y }
    }
}

impl vstd::std_specs::ops::NegSpecImpl for MatrixAddress {
    open spec fn obeys_neg_spec() -> bool {
        true
    }

    open spec fn neg_req(self) -> bool {
        self.x != i32::MIN && self.y != i32::MIN
    }

    open spec fn neg_spec(self) -> Self {
        MatrixAddress { x: (-self.x) as i32, y: (-self.y) as i32 }
    }
}

impl PartialOrd for MatrixAddress {
    fn partial_cmp(&self, other: &Self) -> (r: Option<Ordering>) {
        if self.y < other.y {
            Some(Ordering::Less)
        } else if self.y > other.y {
            Some(Ordering::Greater)
        } else if self.x < other.x {
            Some(Ordering::Less)
        } else if self.x > other.x {
            Some(Ordering::Greater)
        } else {
            Some(Ordering::Equal)
        }
    }
}

impl vstd::std_specs::cmp::PartialOrdSpecImpl for MatrixAddress {
    open spec fn obeys_partial_cmp_spec() -> bool {
        true
    }

    open spec fn partial_cmp_spec(&self, other: &Self) -> Option<Ordering> {
        Some(matrix_address_order(*self, *other))
    }
}

/// Adding an address and then subtracting it again gives back the first address,
/// and so does subtracting and then adding.
pub proof fn lemma_matrix_address_add_sub_inverse(a: MatrixAddress, b: MatrixAddress)
    ensures
        a.add_req(b) ==> a.add_spec(b).sub_req(b) && a.add_spec(b).sub_spec(b) == a,
        a.sub_req(b) ==> a.sub_spec(b).add_req(b) && a.sub_spec(b).add_spec(b) == a,
{
}

/// The order of `<` on two-dimensional addresses is the canonical order of coordinates,
/// which compares the last dimension first.
pub proof fn lemma_order_is_canonical(a: MatrixAddress, b: MatrixAddress)
    ensures
        precedes(a.coordinates(), b.coordinates()) <==> matrix_address_order(a, b)
            == Ordering::Less,
{
    let ca = a.coordinates();
    let cb = b.coordinates();
    assert(ca[1] == a.y && cb[1] == b.y && ca[0] == a.x && cb[0] == b.x);
    reveal_with_fuel(crate::mixed_radix::precedes_upto, 3);
}

/// A two-dimensional bound from `(x1, y1)` to `(x2, y2)` contains `(x3, y3)` exactly when
/// `x1 <= x3 <= x2` and `y1 <= y3 <= y2`.
pub proof fn lemma_bound_contains_2d(bound: AddressBound<MatrixAddress>, a: MatrixAddress)
    ensures
        bound.spec_contains(a.coordinates()) <==> {
            &&& bound.smallest_possible_position.x <= a.x <= bound.largest_possible_position.x
            &&& bound.smallest_possible_position.y <= a.y <= bound.largest_possible_position.y
        },
{
    let c = a.coordinates();
    let low = bound.low();
    let high = bound.high();
    if bound.spec_contains(c) {
        assert(low[0] <= c[0] <= high[0]);
        assert(low[1] <= c[1] <= high[1]);
    }
}

} // verus!
