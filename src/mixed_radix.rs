//! The arithmetic of an axis-aligned integer box: its extents, its volume, the
//! mixed-radix linear index of a point (dimension 0 is the least significant
//! digit), the inverse decoding, and the dimension order that both follow.
use vstd::arithmetic::div_mod::*;
use vstd::prelude::*;

verus! {

/// The number of integer coordinates between `low[d]` and `high[d]`, both included.
pub open spec fn extent(low: Seq<int>, high: Seq<int>, d: int) -> int {
    high[d] - low[d] + 1
}

/// The product of the extents of dimensions `0 .. n`: the weight of digit `n`.
pub open spec fn span(low: Seq<int>, high: Seq<int>, n: nat) -> int
    decreases n,
{
    if n == 0 {
        1
    } else {
        span(low, high, (n - 1) as nat) * extent(low, high, n - 1)
    }
}

/// Both corners have the same dimension and `low[d] <= high[d]` in every dimension.
pub open spec fn is_nonempty_box(low: Seq<int>, high: Seq<int>) -> bool {
    &&& low.len() == high.len()
    &&& forall|d: int| 0 <= d < low.len() ==> #[trigger] low[d] <= high[d]
}

/// `c` lies in the box, bounds included, in every dimension.
pub open spec fn in_box(low: Seq<int>, high: Seq<int>, c: Seq<int>) -> bool {
    &&& low.len() == high.len()
    &&& c.len() == low.len()
    &&& forall|d: int| 0 <= d < c.len() ==> low[d] <= #[trigger] c[d] <= high[d]
}

/// The number of points in the box: the product of the extents, or zero for an empty box.
pub open spec fn box_volume(low: Seq<int>, high: Seq<int>) -> nat {
    if is_nonempty_box(low, high) {
        span(low, high, low.len()) as nat
    } else {
        0
    }
}

/// The value of the digits of dimensions `0 .. n` of `c`.
pub open spec fn offset(low: Seq<int>, high: Seq<int>, c: Seq<int>, n: nat) -> int
    decreases n,
{
    if n == 0 {
        0
    } else {
        offset(low, high, c, (n - 1) as nat) + (c[n - 1] - low[n - 1]) * span(
            low,
            high,
            (n - 1) as nat,
        )
    }
}

/// The linear index of a point of the box.
pub open spec fn box_index(low: Seq<int>, high: Seq<int>, c: Seq<int>) -> int {
    offset(low, high, c, low.len())
}

/// The point of the box whose linear index is `i`.
pub open spec fn box_address(low: Seq<int>, high: Seq<int>, i: int) -> Seq<int> {
    Seq::new(
        low.len(),
        |d: int| low[d] + (i / span(low, high, d as nat)) % extent(low, high, d),
    )
}

/// `a` comes before `b` when dimensions `0 .. n` are compared from the last one down.
pub open spec fn precedes_upto(a: Seq<int>, b: Seq<int>, n: nat) -> bool
    decreases n,
{
    if n == 0 {
        false
    } else if a[n - 1] < b[n - 1] {
        true
    } else if a[n - 1] > b[n - 1] {
        false
    } else {
        precedes_upto(a, b, (n - 1) as nat)
    }
}

/// The canonical order of addresses: the last dimension is compared first.
pub open spec fn precedes(a: Seq<int>, b: Seq<int>) -> bool {
    precedes_upto(a, b, a.len())
}

/// One step of the odometer: dimension `d` moves up by one and every lower dimension
/// goes back to its low end.
pub open spec fn odometer_step(low: Seq<int>, c: Seq<int>, d: int) -> Seq<int> {
    Seq::new(
        c.len(),
        |e: int|
            if e < d {
                low[e]
            } else if e == d {
                c[e] + 1
            } else {
                c[e]
            },
    )
}

/// Every weight of a non-empty box is positive.
pub proof fn lemma_span_positive(low: Seq<int>, high: Seq<int>, n: nat)
    requires
        is_nonempty_box(low, high),
        n <= low.len(),
    ensures
        span(low, high, n) >= 1,
    decreases n,
{
    if n > 0 {
        lemma_span_positive(low, high, (n - 1) as nat);
        let s = span(low, high, (n - 1) as nat);
        let e = extent(low, high, n - 1);
        assert(low[n - 1] <= high[n - 1]);
        assert(s * e >= 1) by (nonlinear_arith)
            requires
                s >= 1,
                e >= 1,
        ;
    }
}

/// The weights of a non-empty box grow with the digit.
pub proof fn lemma_span_monotone(low: Seq<int>, high: Seq<int>, m: nat, n: nat)
    requires
        is_nonempty_box(low, high),
        m <= n <= low.len(),
    ensures
        span(low, high, m) <= span(low, high, n),
    decreases n,
{
    if m < n {
        lemma_span_monotone(low, high, m, (n - 1) as nat);
        lemma_span_positive(low, high, (n - 1) as nat);
        let s = span(low, high, (n - 1) as nat);
        let e = extent(low, high, n - 1);
        assert(low[n - 1] <= high[n - 1]);
        assert(s <= s * e) by (nonlinear_arith)
            requires
                s >= 1,
                e >= 1,
        ;
    }
}

/// Each extent of a non-empty box is at most its volume.
pub proof fn lemma_extent_le_volume(low: Seq<int>, high: Seq<int>, d: int)
    requires
        is_nonempty_box(low, high),
        0 <= d < low.len(),
    ensures
        1 <= extent(low, high, d) <= box_volume(low, high),
{
    lemma_span_positive(low, high, d as nat);
    lemma_span_monotone(low, high, (d + 1) as nat, low.len());
    let s = span(low, high, d as nat);
    let e = extent(low, high, d);
    assert(low[d] <= high[d]);
    assert(e <= s * e) by (nonlinear_arith)
        requires
            s >= 1,
            e >= 1,
    ;
}

/// The digits `0 .. n` of a point of the box give a value below the weight of digit `n`.
pub proof fn lemma_offset_bounds(low: Seq<int>, high: Seq<int>, c: Seq<int>, n: nat)
    requires
        in_box(low, high, c),
        n <= low.len(),
    ensures
        0 <= offset(low, high, c, n) < span(low, high, n),
    decreases n,
{
    if n > 0 {
        lemma_offset_bounds(low, high, c, (n - 1) as nat);
        let o = offset(low, high, c, (n - 1) as nat);
        let s = span(low, high, (n - 1) as nat);
        let e = extent(low, high, n - 1);
        let g = c[n - 1] - low[n - 1];
        assert(low[n - 1] <= c[n - 1] <= high[n - 1]);
        assert(0 <= o + g * s < s * e) by (nonlinear_arith)
            requires
                0 <= o < s,
                0 <= g < e,
        ;
    }
}

/// Every non-negative position decodes to a point of the box.
pub proof fn lemma_address_in_box(low: Seq<int>, high: Seq<int>, i: int)
    requires
        is_nonempty_box(low, high),
        0 <= i,
    ensures
        in_box(low, high, box_address(low, high, i)),
{
    let c = box_address(low, high, i);
    assert forall|d: int| 0 <= d < c.len() implies low[d] <= #[trigger] c[d] <= high[d] by {
        lemma_span_positive(low, high, d as nat);
        assert(low[d] <= high[d]);
        lemma_div_pos_is_pos(i, span(low, high, d as nat));
        lemma_mod_pos_bound(i / span(low, high, d as nat), extent(low, high, d));
    }
}

/// The digits of dimensions `0 .. n` of the decoded point give back `i` modulo their weight.
pub proof fn lemma_offset_of_address(low: Seq<int>, high: Seq<int>, i: int, n: nat)
    requires
        is_nonempty_box(low, high),
        0 <= i,
        n <= low.len(),
    ensures
        offset(low, high, box_address(low, high, i), n) == i % span(low, high, n),
    decreases n,
{
    if n == 0 {
        assert(i % 1 == 0);
    } else {
        lemma_offset_of_address(low, high, i, (n - 1) as nat);
        lemma_span_positive(low, high, (n - 1) as nat);
        let s = span(low, high, (n - 1) as nat);
        let e = extent(low, high, n - 1);
        assert(low[n - 1] <= high[n - 1]);
        lemma_mod_breakdown(i, s, e);
        let c = box_address(low, high, i);
        assert(c[n - 1] - low[n - 1] == (i / s) % e);
        vstd::arithmetic::mul::lemma_mul_is_commutative(s, (i / s) % e);
    }
}

/// Decoding a position in range and encoding the point again gives back the position.
pub proof fn lemma_index_of_address(low: Seq<int>, high: Seq<int>, i: int)
    requires
        0 <= i < box_volume(low, high),
    ensures
        in_box(low, high, box_address(low, high, i)),
        box_index(low, high, box_address(low, high, i)) == i,
{
    lemma_address_in_box(low, high, i);
    lemma_offset_of_address(low, high, i, low.len());
    lemma_span_positive(low, high, low.len());
    let s = span(low, high, low.len());
    lemma_small_mod(i as nat, s as nat);
    assert(i % s == i);
}

/// Two sequences neither of which precedes the other agree on dimensions `0 .. n`.
pub proof fn lemma_precedes_total(a: Seq<int>, b: Seq<int>, n: nat)
    requires
        n <= a.len(),
        n <= b.len(),
        !precedes_upto(a, b, n),
        !precedes_upto(b, a, n),
    ensures
        forall|d: int| 0 <= d < n ==> a[d] == b[d],
    decreases n,
{
    if n > 0 {
        lemma_precedes_total(a, b, (n - 1) as nat);
    }
}

/// On the points of a box, the dimension order is the order of the digit values.
pub proof fn lemma_precedes_offset(
    low: Seq<int>,
    high: Seq<int>,
    a: Seq<int>,
    b: Seq<int>,
    n: nat,
)
    requires
        in_box(low, high, a),
        in_box(low, high, b),
        n <= low.len(),
    ensures
        precedes_upto(a, b, n) <==> offset(low, high, a, n) < offset(low, high, b, n),
    decreases n,
{
    if n > 0 {
        let m = (n - 1) as nat;
        lemma_precedes_offset(low, high, a, b, m);
        lemma_offset_bounds(low, high, a, m);
        lemma_offset_bounds(low, high, b, m);
        let oa = offset(low, high, a, m);
        let ob = offset(low, high, b, m);
        let s = span(low, high, m);
        assert(low[n - 1] <= a[n - 1] <= high[n - 1]);
        assert(low[n - 1] <= b[n - 1] <= high[n - 1]);
        let ga = a[n - 1] - low[n - 1];
        let gb = b[n - 1] - low[n - 1];
        if ga < gb {
            assert(oa + ga * s < ob + gb * s) by (nonlinear_arith)
                requires
                    0 <= oa < s,
                    0 <= ob < s,
                    ga < gb,
            ;
        } else if ga > gb {
            assert(ob + gb * s < oa + ga * s) by (nonlinear_arith)
                requires
                    0 <= oa < s,
                    0 <= ob < s,
                    gb < ga,
            ;
        }
    }
}

/// Distinct points of a box have distinct linear indices.
pub proof fn lemma_box_index_injective(low: Seq<int>, high: Seq<int>, a: Seq<int>, b: Seq<int>)
    requires
        in_box(low, high, a),
        in_box(low, high, b),
        box_index(low, high, a) == box_index(low, high, b),
    ensures
        a == b,
{
    lemma_precedes_offset(low, high, a, b, low.len());
    lemma_precedes_offset(low, high, b, a, low.len());
    lemma_precedes_total(a, b, low.len());
    assert(a =~= b);
}

/// Encoding a point of the box and decoding its index gives back the point.
pub proof fn lemma_address_of_index(low: Seq<int>, high: Seq<int>, c: Seq<int>)
    requires
        in_box(low, high, c),
    ensures
        is_nonempty_box(low, high),
        0 <= box_index(low, high, c) < box_volume(low, high),
        box_address(low, high, box_index(low, high, c)) == c,
{
    assert forall|d: int| 0 <= d < low.len() implies #[trigger] low[d] <= high[d] by {
        assert(low[d] <= c[d] <= high[d]);
    }
    lemma_offset_bounds(low, high, c, low.len());
    let i = box_index(low, high, c);
    lemma_index_of_address(low, high, i);
    lemma_box_index_injective(low, high, box_address(low, high, i), c);
}

proof fn lemma_offset_all_high(low: Seq<int>, high: Seq<int>, c: Seq<int>, n: nat)
    requires
        in_box(low, high, c),
        n <= low.len(),
        forall|e: int| 0 <= e < n ==> c[e] == high[e],
    ensures
        offset(low, high, c, n) == span(low, high, n) - 1,
    decreases n,
{
    if n > 0 {
        lemma_offset_all_high(low, high, c, (n - 1) as nat);
        let s = span(low, high, (n - 1) as nat);
        let e = extent(low, high, n - 1);
        assert(c[n - 1] - low[n - 1] == e - 1);
        assert(s - 1 + (e - 1) * s == s * e - 1) by (nonlinear_arith);
    }
}

/// A point whose first `n` coordinates sit at the low corner has no value in those digits.
pub proof fn lemma_offset_all_low(low: Seq<int>, high: Seq<int>, c: Seq<int>, n: nat)
    requires
        n <= low.len(),
        n <= c.len(),
        forall|e: int| 0 <= e < n ==> c[e] == low[e],
    ensures
        offset(low, high, c, n) == 0,
    decreases n,
{
    if n > 0 {
        lemma_offset_all_low(low, high, c, (n - 1) as nat);
        assert(c[n - 1] - low[n - 1] == 0);
        assert(0 * span(low, high, (n - 1) as nat) == 0);
    }
}

proof fn lemma_offset_step(low: Seq<int>, high: Seq<int>, c: Seq<int>, d: int, n: nat)
    requires
        in_box(low, high, c),
        0 <= d < n <= low.len(),
        forall|e: int| 0 <= e < d ==> c[e] == high[e],
        c[d] < high[d],
    ensures
        offset(low, high, odometer_step(low, c, d), n) == offset(low, high, c, n) + 1,
    decreases n,
{
    let next = odometer_step(low, c, d);
    if n == d + 1 {
        lemma_offset_all_high(low, high, c, d as nat);
        lemma_offset_all_low(low, high, next, d as nat);
        let s = span(low, high, d as nat);
        let g = c[d] - low[d];
        assert(next[d] - low[d] == g + 1);
        assert((g + 1) * s == s - 1 + g * s + 1) by (nonlinear_arith);
    } else {
        lemma_offset_step(low, high, c, d, (n - 1) as nat);
        assert(next[n - 1] == c[n - 1]);
    }
}

/// Moving the odometer by one step moves the linear index by one.
pub proof fn lemma_odometer_step(low: Seq<int>, high: Seq<int>, c: Seq<int>, d: int)
    requires
        in_box(low, high, c),
        0 <= d < low.len(),
        forall|e: int| 0 <= e < d ==> c[e] == high[e],
        c[d] < high[d],
    ensures
        in_box(low, high, odometer_step(low, c, d)),
        box_index(low, high, odometer_step(low, c, d)) == box_index(low, high, c) + 1,
{
    let next = odometer_step(low, c, d);
    assert forall|e: int| 0 <= e < next.len() implies low[e] <= #[trigger] next[e] <= high[e] by {
        assert(low[e] <= c[e] <= high[e]);
    }
    lemma_offset_step(low, high, c, d, low.len());
}

/// The point with every coordinate at its high end is the last one.
pub proof fn lemma_index_all_high(low: Seq<int>, high: Seq<int>, c: Seq<int>)
    requires
        in_box(low, high, c),
        forall|e: int| 0 <= e < c.len() ==> c[e] == high[e],
    ensures
        box_index(low, high, c) == box_volume(low, high) - 1,
{
    lemma_address_of_index(low, high, c);
    lemma_offset_all_high(low, high, c, low.len());
}

} // verus!
