use vstd::prelude::*;

verus! {

/// Machine coordinates viewed as integers.
pub open spec fn int_coords(values: Seq<i64>) -> Seq<int> {
    values.map_values(|v: i64| v as int)
}

/// Componentwise sum of two coordinate sequences.
pub open spec fn coords_add(a: Seq<int>, b: Seq<int>) -> Seq<int> {
    Seq::new(a.len(), |d: int| a[d] + b[d])
}

/// Componentwise difference of two coordinate sequences.
pub open spec fn coords_sub(a: Seq<int>, b: Seq<int>) -> Seq<int> {
    Seq::new(a.len(), |d: int| a[d] - b[d])
}

/// Componentwise absolute difference of two coordinate sequences.
pub open spec fn coords_abs_diff(a: Seq<int>, b: Seq<int>) -> Seq<int> {
    Seq::new(a.len(), |d: int| if a[d] >= b[d] { a[d] - b[d] } else { b[d] - a[d] })
}

/// Every coordinate multiplied by the same integer.
pub open spec fn coords_scale(a: Seq<int>, k: int) -> Seq<int> {
    Seq::new(a.len(), |d: int| a[d] * k)
}

/// A fixed-dimensional integer coordinate.
///
/// An address is viewed as the sequence of its coordinates; dimension 0 comes
/// first and is the fastest-varying axis in every ordering of this library.
pub trait Addressable: Sized + Copy {
    /// The number of dimensions, the same for every address of the type.
    spec fn dimension_count() -> nat;

    /// The coordinates of this address, one per dimension.
    spec fn coordinates(&self) -> Seq<int>;

    /// Whether a sequence of integers is the coordinates of some address of the type.
    spec fn can_hold(values: Seq<int>) -> bool;

    proof fn lemma_dimension_count_positive()
        ensures
            Self::dimension_count() >= 1,
    ;

    proof fn lemma_coordinates_held(a: Self)
        ensures
            Self::can_hold(a.coordinates()),
    ;

    proof fn lemma_can_hold_range(values: Seq<int>)
        requires
            Self::can_hold(values),
        ensures
            values.len() == Self::dimension_count(),
            forall|d: int|
                0 <= d < values.len() ==> i64::MIN <= #[trigger] values[d] <= i64::MAX,
    ;

    /// Every point of the box spanned by two addresses is an address.
    proof fn lemma_can_hold_between(low: Self, high: Self, values: Seq<int>)
        requires
            values.len() == Self::dimension_count(),
            forall|d: int|
                0 <= d < values.len() ==> low.coordinates()[d] <= #[trigger] values[d]
                    <= high.coordinates()[d],
        ensures
            Self::can_hold(values),
    ;

    /// An address is determined by its coordinates.
    proof fn lemma_coordinates_injective(a: Self, b: Self)
        requires
            a.coordinates() == b.coordinates(),
        ensures
            a == b,
    ;

    fn get_dimension_count() -> (r: usize)
        ensures
            r == Self::dimension_count(),
    ;

    fn get_value_at_dimension_index(&self, index: usize) -> (r: i64)
        requires
            index < Self::dimension_count(),
        ensures
            r == self.coordinates()[index as int],
    ;

    fn new_from_value_vec(values: Vec<i64>) -> (r: Self)
        requires
            Self::can_hold(int_coords(values@)),
        ensures
            r.coordinates() == int_coords(values@),
    ;
}

/// The componentwise sum of two addresses.
pub fn add_addresses<A: Addressable>(a: &A, b: &A) -> (r: A)
    requires
        A::can_hold(coords_add(a.coordinates(), b.coordinates())),
    ensures
        r.coordinates() == coords_add(a.coordinates(), b.coordinates()),
{
    let ghost sum = coords_add(a.coordinates(), b.coordinates());
    proof {
        A::lemma_can_hold_range(sum);
        A::lemma_coordinates_held(*a);
        A::lemma_can_hold_range(a.coordinates());
    }
    let dims = A::get_dimension_count();
    let mut values: Vec<i64> = Vec::new();
    let mut d: usize = 0;
    while d < dims
        invariant
            dims == A::dimension_count(),
            sum == coords_add(a.coordinates(), b.coordinates()),
            sum.len() == dims,
            forall|e: int| 0 <= e < dims ==> i64::MIN <= #[trigger] sum[e] <= i64::MAX,
            d <= dims,
            values@.len() == d,
            forall|e: int| 0 <= e < d ==> #[trigger] values@[e] as int == sum[e],
        decreases dims - d,
    {
        assert(sum[d as int] == a.coordinates()[d as int] + b.coordinates()[d as int]);
        let v = a.get_value_at_dimension_index(d) + b.get_value_at_dimension_index(d);
        values.push(v);
        d = d + 1;
    }
    proof {
        assert(int_coords(values@) =~= sum);
    }
    A::new_from_value_vec(values)
}

/// The componentwise difference of two addresses.
pub fn subtract_addresses<A: Addressable>(a: &A, b: &A) -> (r: A)
    requires
        A::can_hold(coords_sub(a.coordinates(), b.coordinates())),
    ensures
        r.coordinates() == coords_sub(a.coordinates(), b.coordinates()),
{
    let ghost diff = coords_sub(a.coordinates(), b.coordinates());
    proof {
        A::lemma_can_hold_range(diff);
        A::lemma_coordinates_held(*a);
        A::lemma_can_hold_range(a.coordinates());
    }
    let dims = A::get_dimension_count();
    let mut values: Vec<i64> = Vec::new();
    let mut d: usize = 0;
    while d < dims
        invariant
            dims == A::dimension_count(),
            diff == coords_sub(a.coordinates(), b.coordinates()),
            diff.len() == dims,
            forall|e: int| 0 <= e < dims ==> i64::MIN <= #[trigger] diff[e] <= i64::MAX,
            d <= dims,
            values@.len() == d,
            forall|e: int| 0 <= e < d ==> #[trigger] values@[e] as int == diff[e],
        decreases dims - d,
    {
        assert(diff[d as int] == a.coordinates()[d as int] - b.coordinates()[d as int]);
        let v = a.get_value_at_dimension_index(d) - b.get_value_at_dimension_index(d);
        values.push(v);
        d = d + 1;
    }
    proof {
        assert(int_coords(values@) =~= diff);
    }
    A::new_from_value_vec(values)
}

/// The componentwise distance between two addresses: `|a[d] - b[d]|`.
pub fn address_difference<A: Addressable>(a: &A, b: &A) -> (r: A)
    requires
        A::can_hold(coords_abs_diff(a.coordinates(), b.coordinates())),
    ensures
        r.coordinates() == coords_abs_diff(a.coordinates(), b.coordinates()),
{
    let ghost diff = coords_abs_diff(a.coordinates(), b.coordinates());
    proof {
        A::lemma_can_hold_range(diff);
        A::lemma_coordinates_held(*a);
        A::lemma_can_hold_range(a.coordinates());
        A::lemma_coordinates_held(*b);
        A::lemma_can_hold_range(b.coordinates());
    }
    let dims = A::get_dimension_count();
    let mut values: Vec<i64> = Vec::new();
    let mut d: usize = 0;
    while d < dims
        invariant
            dims == A::dimension_count(),
            diff == coords_abs_diff(a.coordinates(), b.coordinates()),
            diff.len() == dims,
            a.coordinates().len() == dims,
            b.coordinates().len() == dims,
            forall|e: int| 0 <= e < dims ==> i64::MIN <= #[trigger] diff[e] <= i64::MAX,
            forall|e: int|
                0 <= e < dims ==> i64::MIN <= #[trigger] a.coordinates()[e] <= i64::MAX,
            forall|e: int|
                0 <= e < dims ==> i64::MIN <= #[trigger] b.coordinates()[e] <= i64::MAX,
            d <= dims,
            values@.len() == d,
            forall|e: int| 0 <= e < d ==> #[trigger] values@[e] as int == diff[e],
        decreases dims - d,
    {
        let x = a.get_value_at_dimension_index(d);
        let y = b.get_value_at_dimension_index(d);
        assert(diff[d as int] == if x >= y {
            x - y
        } else {
            y - x
        });
        let v = if x >= y {
            x - y
        } else {
            y - x
        };
        values.push(v);
        d = d + 1;
    }
    proof {
        assert(int_coords(values@) =~= diff);
    }
    A::new_from_value_vec(values)
}

/// Every coordinate of an address multiplied by the same integer.
pub fn scale_address<A: Addressable>(a: &A, k: i64) -> (r: A)
    requires
        A::can_hold(coords_scale(a.coordinates(), k as int)),
    ensures
        r.coordinates() == coords_scale(a.coordinates(), k as int),
{
    let ghost scaled = coords_scale(a.coordinates(), k as int);
    proof {
        A::lemma_can_hold_range(scaled);
    }
    let dims = A::get_dimension_count();
    let mut values: Vec<i64> = Vec::new();
    let mut d: usize = 0;
    while d < dims
        invariant
            dims == A::dimension_count(),
            scaled == coords_scale(a.coordinates(), k as int),
            scaled.len() == dims,
            forall|e: int| 0 <= e < dims ==> i64::MIN <= #[trigger] scaled[e] <= i64::MAX,
            d <= dims,
            values@.len() == d,
            forall|e: int| 0 <= e < d ==> #[trigger] values@[e] as int == scaled[e],
        decreases dims - d,
    {
        assert(scaled[d as int] == a.coordinates()[d as int] * k);
        let v = a.get_value_at_dimension_index(d) * k;
        values.push(v);
        d = d + 1;
    }
    proof {
        assert(int_coords(values@) =~= scaled);
    }
    A::new_from_value_vec(values)
}

pub fn add_in_place<A: Addressable>(a: &mut A, b: &A)
    requires
        A::can_hold(coords_add(old(a).coordinates(), b.coordinates())),
    ensures
        final(a).coordinates() == coords_add(old(a).coordinates(), b.coordinates()),
{
    *a = add_addresses(a, b);
}

pub fn subtract_in_place<A: Addressable>(a: &mut A, b: &A)
    requires
        A::can_hold(coords_sub(old(a).coordinates(), b.coordinates())),
    ensures
        final(a).coordinates() == coords_sub(old(a).coordinates(), b.coordinates()),
{
    *a = subtract_addresses(a, b);
}

pub fn difference_in_place<A: Addressable>(a: &mut A, b: &A)
    requires
        A::can_hold(coords_abs_diff(old(a).coordinates(), b.coordinates())),
    ensures
        final(a).coordinates() == coords_abs_diff(
            old(a).coordinates(),
            b.coordinates(),
        ),
{
    *a = address_difference(a, b);
}

/// Adding an address and subtracting it again gives back the first address, and so does
/// subtracting and then adding.
pub proof fn lemma_add_subtract_inverse<A: Addressable>(a: A, b: A)
    ensures
        coords_sub(coords_add(a.coordinates(), b.coordinates()), b.coordinates())
            == a.coordinates(),
        coords_add(coords_sub(a.coordinates(), b.coordinates()), b.coordinates())
            == a.coordinates(),
{
    A::lemma_coordinates_held(a);
    A::lemma_coordinates_held(b);
    A::lemma_can_hold_range(a.coordinates());
    A::lemma_can_hold_range(b.coordinates());
    assert(coords_sub(coords_add(a.coordinates(), b.coordinates()), b.coordinates())
        =~= a.coordinates());
    assert(coords_add(coords_sub(a.coordinates(), b.coordinates()), b.coordinates())
        =~= a.coordinates());
}

} // verus!
