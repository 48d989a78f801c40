use crate::address_iterator::AddressIterator;
use crate::addressable::{int_coords, Addressable};
use crate::mixed_radix::{
    box_address, box_index, box_volume, extent, in_box, is_nonempty_box, lemma_address_in_box,
    lemma_address_of_index, lemma_extent_le_volume, lemma_index_of_address, lemma_offset_bounds,
    lemma_span_positive, offset, precedes, span,
};
use vstd::arithmetic::div_mod::{lemma_basic_div, lemma_div_denominator, lemma_div_pos_is_pos};
use vstd::prelude::*;

verus! {

/// An axis-aligned box of addresses, both corners included.
///
/// A bound with `low[d] > high[d]` in some dimension is empty: it contains no address
/// and has volume zero.
#[derive(Clone, Copy, Debug, PartialEq, Eq)]
pub struct AddressBound<A: Addressable> {
    pub smallest_possible_position: A,
    pub largest_possible_position: A,
}

impl<A: Addressable> AddressBound<A> {
    /// The coordinates of the low corner.
    pub open spec fn low(&self) -> Seq<int> {
        self.smallest_possible_position.coordinates()
    }

    /// The coordinates of the high corner.
    pub open spec fn high(&self) -> Seq<int> {
        self.largest_possible_position.coordinates()
    }

    pub open spec fn spec_contains(&self, c: Seq<int>) -> bool {
        in_box(self.low(), self.high(), c)
    }

    pub open spec fn spec_is_empty(&self) -> bool {
        !is_nonempty_box(self.low(), self.high())
    }

    pub open spec fn spec_volume(&self) -> nat {
        box_volume(self.low(), self.high())
    }

    /// The mixed-radix index of a contained address, dimension 0 being the least
    /// significant digit.
    pub open spec fn linear_index(&self, c: Seq<int>) -> int {
        box_index(self.low(), self.high(), c)
    }

    /// The coordinates of the address whose linear index is `i`.
    pub open spec fn address_at(&self, i: int) -> Seq<int> {
        box_address(self.low(), self.high(), i)
    }

    /// Both corners have one coordinate per dimension, each an `i64`.
    pub proof fn lemma_corners(&self)
        ensures
            A::dimension_count() >= 1,
            self.low().len() == A::dimension_count(),
            self.high().len() == A::dimension_count(),
            forall|d: int|
                0 <= d < A::dimension_count() ==> i64::MIN <= #[trigger] self.low()[d]
                    <= i64::MAX,
            forall|d: int|
                0 <= d < A::dimension_count() ==> i64::MIN <= #[trigger] self.high()[d]
                    <= i64::MAX,
    {
        A::lemma_dimension_count_positive();
        A::lemma_coordinates_held(self.smallest_possible_position);
        A::lemma_coordinates_held(self.largest_possible_position);
        A::lemma_can_hold_range(self.low());
        A::lemma_can_hold_range(self.high());
    }

    pub fn new(smallest_possible_position: A, largest_possible_position: A) -> (r: AddressBound<A>)
        ensures
            r.smallest_possible_position == smallest_possible_position,
            r.largest_possible_position == largest_possible_position,
    {
        AddressBound { smallest_possible_position, largest_possible_position }
    }

    /// Whether every coordinate of `address` lies between the corners, bounds included.
    pub fn contains_address(&self, address: &A) -> (r: bool)
        ensures
            r == self.spec_contains(address.coordinates()),
    {
        proof {
            self.lemma_corners();
            A::lemma_coordinates_held(*address);
            A::lemma_can_hold_range(address.coordinates());
        }
        let dims = A::get_dimension_count();
        let mut d: usize = 0;
        while d < dims
            invariant
                dims == A::dimension_count(),
                d <= dims,
                self.low().len() == dims,
                self.high().len() == dims,
                address.coordinates().len() == dims,
                forall|e: int|
                    0 <= e < d ==> self.low()[e] <= #[trigger] address.coordinates()[e]
                        <= self.high()[e],
            decreases dims - d,
        {
            let v = address.get_value_at_dimension_index(d);
            if v < self.smallest_possible_position.get_value_at_dimension_index(d)
                || v > self.largest_possible_position.get_value_at_dimension_index(d) {
                return false;
            }
            d = d + 1;
        }
        true
    }

    /// Whether the bound is empty, that is `low[d] > high[d]` in some dimension.
    pub fn is_empty(&self) -> (r: bool)
        ensures
            r == self.spec_is_empty(),
    {
        proof {
            self.lemma_corners();
        }
        let dims = A::get_dimension_count();
        let mut d: usize = 0;
        while d < dims
            invariant
                dims == A::dimension_count(),
                d <= dims,
                self.low().len() == dims,
                self.high().len() == dims,
                forall|e: int| 0 <= e < d ==> #[trigger] self.low()[e] <= self.high()[e],
            decreases dims - d,
        {
            if self.smallest_possible_position.get_value_at_dimension_index(d)
                > self.largest_possible_position.get_value_at_dimension_index(d) {
                return true;
            }
            d = d + 1;
        }
        false
    }

    /// The extent of dimension `d` of a non-empty bound, which is at most its volume.
    fn extent_at(&self, d: usize) -> (r: usize)
        requires
            !self.spec_is_empty(),
            self.spec_volume() <= usize::MAX,
            d < A::dimension_count(),
        ensures
            r == extent(self.low(), self.high(), d as int),
            1 <= r <= self.spec_volume(),
    {
        proof {
            self.lemma_corners();
            lemma_extent_le_volume(self.low(), self.high(), d as int);
        }
        let low = self.smallest_possible_position.get_value_at_dimension_index(d);
        let high = self.largest_possible_position.get_value_at_dimension_index(d);
        (high as i128 - low as i128 + 1) as usize
    }

    /// The number of addresses in the bound: the product of the extents, or zero when
    /// the bound is empty.
    pub fn volume(&self) -> (r: usize)
        requires
            self.spec_volume() <= usize::MAX,
        ensures
            r == self.spec_volume(),
    {
        if self.is_empty() {
            return 0;
        }
        proof {
            self.lemma_corners();
        }
        let ghost low = self.low();
        let ghost high = self.high();
        let dims = A::get_dimension_count();
        let mut product: usize = 1;
        let mut d: usize = 0;
        while d < dims
            invariant
                dims == A::dimension_count(),
                d <= dims,
                low == self.low(),
                high == self.high(),
                low.len() == dims,
                is_nonempty_box(low, high),
                self.spec_volume() <= usize::MAX,
                product == span(low, high, d as nat),
            decreases dims - d,
        {
            let e = self.extent_at(d);
            proof {
                crate::mixed_radix::lemma_span_monotone(low, high, (d + 1) as nat, dims as nat);
                lemma_span_positive(low, high, d as nat);
            }
            product = product * e;
            d = d + 1;
        }
        product
    }

    /// The linear index of `address`, or `None` when the bound does not contain it.
    ///
    /// Dimensions are taken from the last down to 0, each one multiplying the offset so
    /// far by its extent and adding the address's distance from the low corner.
    pub fn index_address(&self, address: &A) -> (r: Option<usize>)
        requires
            self.spec_volume() <= usize::MAX,
        ensures
            r is Some <==> self.spec_contains(address.coordinates()),
            r is Some ==> r->0 == self.linear_index(address.coordinates()),
            r is Some ==> self.address_at(r->0 as int) == address.coordinates(),
    {
        if !self.contains_address(address) {
            return None;
        }
        let ghost low = self.low();
        let ghost high = self.high();
        let ghost c = address.coordinates();
        proof {
            self.lemma_corners();
            lemma_address_of_index(low, high, c);
        }
        let dims = A::get_dimension_count();
        let mut out: usize = 0;
        let mut d: usize = dims;
        while d > 0
            invariant
                dims == A::dimension_count(),
                d <= dims,
                low == self.low(),
                high == self.high(),
                c == address.coordinates(),
                low.len() == dims,
                in_box(low, high, c),
                is_nonempty_box(low, high),
                self.spec_volume() <= usize::MAX,
                0 <= box_index(low, high, c) < box_volume(low, high),
                out * span(low, high, d as nat) + offset(low, high, c, d as nat) == box_index(
                    low,
                    high,
                    c,
                ),
            decreases d,
        {
            let dd = d - 1;
            let e = self.extent_at(dd);
            let digit = (address.get_value_at_dimension_index(dd) as i128
                - self.smallest_possible_position.get_value_at_dimension_index(dd) as i128) as usize;
            proof {
                assert(low[dd as int] <= c[dd as int] <= high[dd as int]);
                let s = span(low, high, dd as nat);
                let o = offset(low, high, c, dd as nat);
                let total = box_index(low, high, c);
                lemma_span_positive(low, high, dd as nat);
                lemma_offset_bounds(low, high, c, dd as nat);
                assert(out * (s * e) + (o + digit * s) == total);
                assert((out * e + digit) * s + o == total) by (nonlinear_arith)
                    requires
                        out * (s * e) + (o + digit * s) == total,
                ;
                assert(out * e + digit <= total) by (nonlinear_arith)
                    requires
                        (out * e + digit) * s + o == total,
                        s >= 1,
                        o >= 0,
                        out >= 0,
                        e >= 1,
                        digit >= 0,
                ;
                assert(out * e <= out * e + digit);
            }
            out = out * e + digit;
            d = dd;
        }
        Some(out)
    }

    /// The address whose linear index is `index`, or an error when `index` is not below
    /// the volume.
    ///
    /// The index is decoded from dimension 0 upward: each digit is the remainder by the
    /// dimension's extent, and the quotient carries on to the next dimension. A quotient
    /// left over after the last dimension means the index was out of range.
    pub fn get_address_from_index(&self, index: usize) -> (r: Result<A, &'static str>)
        ensures
            r is Ok <==> index < self.spec_volume(),
            r is Ok ==> r->Ok_0.coordinates() == self.address_at(index as int),
            r is Ok ==> self.spec_contains(r->Ok_0.coordinates()),
            r is Ok ==> self.linear_index(r->Ok_0.coordinates()) == index,
    {
        if self.is_empty() {
            return Err("Index is too large.");
        }
        let ghost low = self.low();
        let ghost high = self.high();
        let ghost i = index as int;
        proof {
            self.lemma_corners();
        }
        let dims = A::get_dimension_count();
        let mut rest: i128 = index as i128;
        let mut values: Vec<i64> = Vec::new();
        let mut d: usize = 0;
        while d < dims
            invariant
                dims == A::dimension_count(),
                d <= dims,
                low == self.low(),
                high == self.high(),
                low.len() == dims,
                high.len() == dims,
                is_nonempty_box(low, high),
                forall|e: int| 0 <= e < dims ==> i64::MIN <= #[trigger] low[e] <= i64::MAX,
                forall|e: int| 0 <= e < dims ==> i64::MIN <= #[trigger] high[e] <= i64::MAX,
                i == index as int,
                0 <= i,
                rest == i / span(low, high, d as nat),
                values@.len() == d,
                forall|e: int|
                    0 <= e < d ==> #[trigger] values@[e] as int == box_address(low, high, i)[e],
            decreases dims - d,
        {
            let low_d = self.smallest_possible_position.get_value_at_dimension_index(d);
            let high_d = self.largest_possible_position.get_value_at_dimension_index(d);
            let breadth: i128 = high_d as i128 - low_d as i128 + 1;
            proof {
                assert(low[d as int] <= high[d as int]);
                lemma_span_positive(low, high, d as nat);
                lemma_div_pos_is_pos(i, span(low, high, d as nat));
                lemma_div_denominator(i, span(low, high, d as nat), breadth as int);
                vstd::arithmetic::div_mod::lemma_mod_pos_bound(rest as int, breadth as int);
            }
            let value = (rest % breadth + low_d as i128) as i64;
            values.push(value);
            proof {
                lemma_div_pos_is_pos(rest as int, breadth as int);
            }
            rest = rest / breadth;
            d = d + 1;
        }
        if rest != 0 {
            proof {
                lemma_span_positive(low, high, dims as nat);
                if i < span(low, high, dims as nat) {
                    lemma_basic_div(i, span(low, high, dims as nat));
                }
            }
            return Err("Index is too large.");
        }
        proof {
            lemma_span_positive(low, high, dims as nat);
            vstd::arithmetic::div_mod::lemma_small_div_converse(i, span(low, high, dims as nat));
            assert(int_coords(values@) =~= box_address(low, high, i));
            lemma_address_in_box(low, high, i);
            lemma_index_of_address(low, high, i);
            A::lemma_can_hold_between(
                self.smallest_possible_position,
                self.largest_possible_position,
                int_coords(values@),
            );
        }
        Ok(A::new_from_value_vec(values))
    }

    /// A fresh iterator over the addresses of the bound, in linear-index order.
    pub fn iter(&self) -> (r: AddressIterator<A>)
        ensures
            r.wf(),
            r.bounds() == *self,
            r.produced() == 0,
    {
        AddressIterator::new(*self)
    }

    /// Every address of the bound, in linear-index order.
    pub fn addresses(&self) -> (r: Vec<A>)
        requires
            self.spec_volume() <= usize::MAX,
        ensures
            r@.len() == self.spec_volume(),
            forall|k: int|
                0 <= k < r@.len() ==> #[trigger] r@[k].coordinates() == self.address_at(k),
    {
        let mut it = self.iter();
        let mut out: Vec<A> = Vec::new();
        loop
            invariant
                it.wf(),
                it.bounds() == *self,
                self.spec_volume() <= usize::MAX,
                out@.len() == it.produced(),
                it.produced() <= self.spec_volume(),
                forall|k: int|
                    0 <= k < out@.len() ==> #[trigger] out@[k].coordinates() == self.address_at(k),
            ensures
                out@.len() == self.spec_volume(),
                forall|k: int|
                    0 <= k < out@.len() ==> #[trigger] out@[k].coordinates() == self.address_at(k),
            decreases self.spec_volume() - it.produced(),
        {
            match it.next() {
                Some(a) => {
                    out.push(a);
                },
                None => {
                    break ;
                },
            }
        }
        out
    }
}

/// Round trip: encoding a contained address and decoding its index gives back the
/// address, and decoding an index below the volume and encoding the result gives back
/// the index.
pub proof fn lemma_round_trip<A: Addressable>(bound: AddressBound<A>, a: A, i: int)
    ensures
        bound.spec_contains(a.coordinates()) ==> bound.address_at(
            bound.linear_index(a.coordinates()),
        ) == a.coordinates(),
        0 <= i < bound.spec_volume() ==> bound.linear_index(bound.address_at(i)) == i,
{
    if bound.spec_contains(a.coordinates()) {
        lemma_address_of_index(bound.low(), bound.high(), a.coordinates());
    }
    if 0 <= i < bound.spec_volume() {
        lemma_index_of_address(bound.low(), bound.high(), i);
    }
}

/// Iteration covers the bound exactly: the addresses at indices below the volume are
/// contained, carry their own index, are pairwise distinct, and every contained address
/// is one of them.
pub proof fn lemma_iteration_covers<A: Addressable>(bound: AddressBound<A>)
    ensures
        forall|k: int|
            0 <= k < bound.spec_volume() ==> bound.spec_contains(#[trigger] bound.address_at(k))
                && bound.linear_index(bound.address_at(k)) == k,
        forall|j: int, k: int|
            0 <= j < bound.spec_volume() && 0 <= k < bound.spec_volume() && j != k
                ==> #[trigger] bound.address_at(j) != #[trigger] bound.address_at(k),
        forall|c: Seq<int>|
            #[trigger] bound.spec_contains(c) ==> 0 <= bound.linear_index(c) < bound.spec_volume()
                && bound.address_at(bound.linear_index(c)) == c,
{
    assert forall|k: int| 0 <= k < bound.spec_volume() implies bound.spec_contains(
        #[trigger] bound.address_at(k),
    ) && bound.linear_index(bound.address_at(k)) == k by {
        lemma_index_of_address(bound.low(), bound.high(), k);
    }
    assert forall|j: int, k: int|
        0 <= j < bound.spec_volume() && 0 <= k < bound.spec_volume() && j != k implies #[trigger] bound.address_at(j)
        != #[trigger] bound.address_at(k) by {
        lemma_index_of_address(bound.low(), bound.high(), j);
        lemma_index_of_address(bound.low(), bound.high(), k);
    }
    assert forall|c: Seq<int>| #[trigger] bound.spec_contains(c) implies 0 <= bound.linear_index(c)
        < bound.spec_volume() && bound.address_at(bound.linear_index(c)) == c by {
        lemma_address_of_index(bound.low(), bound.high(), c);
    }
}

/// Iteration order is strictly increasing in the canonical order, which compares the
/// last dimension first.
pub proof fn lemma_iteration_increasing<A: Addressable>(bound: AddressBound<A>, i: int, j: int)
    requires
        0 <= i < j < bound.spec_volume(),
    ensures
        precedes(bound.address_at(i), bound.address_at(j)),
{
    let low = bound.low();
    let high = bound.high();
    lemma_index_of_address(low, high, i);
    lemma_index_of_address(low, high, j);
    crate::mixed_radix::lemma_precedes_offset(
        low,
        high,
        box_address(low, high, i),
        box_address(low, high, j),
        low.len(),
    );
}

} // verus!
