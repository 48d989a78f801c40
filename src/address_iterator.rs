use crate::address_bound::AddressBound;
use crate::addressable::{int_coords, Addressable};
use crate::mixed_radix::{
    box_address, in_box, is_nonempty_box, lemma_address_of_index, lemma_index_all_high,
    lemma_index_of_address, lemma_odometer_step, odometer_step,
};
use vstd::prelude::*;

verus! {

/// Walks every address of a bound exactly once, like an odometer: dimension 0 moves
/// fastest, and a dimension that passes its high end goes back to its low end and
/// carries into the next one.
///
/// The iterator is not restartable; ask the bound for a fresh one.
pub struct AddressIterator<A: Addressable> {
    bounds: AddressBound<A>,
    abacus: Vec<i64>,
    started: bool,
    finished: bool,
    produced: Ghost<nat>,
}

impl<A: Addressable> AddressIterator<A> {
    /// The bound being walked.
    pub closed spec fn bounds(&self) -> AddressBound<A> {
        self.bounds
    }

    /// How many addresses have been handed out so far.
    pub closed spec fn produced(&self) -> nat {
        self.produced@
    }

    pub closed spec fn wf(&self) -> bool {
        let low = self.bounds.low();
        let high = self.bounds.high();
        let vol = self.bounds.spec_volume();
        &&& self.produced@ <= vol
        &&& !self.started ==> self.produced@ == 0 && !self.finished
        &&& self.finished ==> self.produced@ == vol
        &&& self.started && !self.finished ==> {
            &&& 1 <= self.produced@
            &&& is_nonempty_box(low, high)
            &&& int_coords(self.abacus@) == box_address(low, high, self.produced@ - 1)
        }
    }

    /// An iterator that has not yet produced anything.
    pub fn new(bounds: AddressBound<A>) -> (r: Self)
        ensures
            r.wf(),
            r.bounds() == bounds,
            r.produced() == 0,
    {
        AddressIterator {
            bounds,
            abacus: Vec::new(),
            started: false,
            finished: false,
            produced: Ghost(0),
        }
    }

    /// The next address in linear-index order, or `None` once all have been produced.
    pub fn next(&mut self) -> (r: Option<A>)
        requires
            old(self).wf(),
        ensures
            final(self).wf(),
            final(self).bounds() == old(self).bounds(),
            old(self).produced() < old(self).bounds().spec_volume() ==> {
                &&& r is Some
                &&& r->0.coordinates() == old(self).bounds().address_at(
                    old(self).produced() as int,
                )
                &&& final(self).produced() == old(self).produced() + 1
            },
            old(self).produced() >= old(self).bounds().spec_volume() ==> {
                &&& r is None
                &&& final(self).produced() == old(self).produced()
            },
    {
        let ghost low = self.bounds.low();
        let ghost high = self.bounds.high();
        proof {
            self.bounds.lemma_corners();
        }
        if self.finished {
            return None;
        }
        let dims = A::get_dimension_count();
        if !self.started {
            self.started = true;
            if self.bounds.is_empty() {
                self.finished = true;
                return None;
            }
            let mut first: Vec<i64> = Vec::new();
            let mut d: usize = 0;
            while d < dims
                invariant
                    dims == A::dimension_count(),
                    d <= dims,
                    low == self.bounds.low(),
                    low.len() == dims,
                    first@.len() == d,
                    forall|e: int| 0 <= e < d ==> #[trigger] first@[e] as int == low[e],
                decreases dims - d,
            {
                first.push(self.bounds.smallest_possible_position.get_value_at_dimension_index(d));
                d = d + 1;
            }
            proof {
                assert(int_coords(first@) =~= low);
                assert(in_box(low, high, low));
                lemma_address_of_index(low, high, low);
                crate::mixed_radix::lemma_offset_all_low(low, high, low, low.len());
                A::lemma_coordinates_injective(
                    self.bounds.smallest_possible_position,
                    self.bounds.smallest_possible_position,
                );
            }
            self.abacus = first;
            self.produced = Ghost(1);
            return Some(self.bounds.smallest_possible_position);
        }
        let ghost k = (self.produced@ - 1) as int;
        let ghost current = int_coords(self.abacus@);
        proof {
            lemma_index_of_address(low, high, k);
        }
        let mut d: usize = 0;
        while d < dims
            invariant
                dims == A::dimension_count(),
                d <= dims,
                low == self.bounds.low(),
                high == self.bounds.high(),
                low.len() == dims,
                high.len() == dims,
                self.bounds == old(self).bounds,
                self.started == old(self).started,
                self.finished == old(self).finished,
                self.produced == old(self).produced,
                self.started && !self.finished,
                1 <= self.produced@ <= self.bounds.spec_volume(),
                is_nonempty_box(low, high),
                k == self.produced@ - 1,
                current == box_address(low, high, k),
                crate::mixed_radix::box_index(low, high, current) == k,
                in_box(low, high, current),
                self.abacus@.len() == dims,
                forall|e: int| 0 <= e < d ==> #[trigger] current[e] == high[e],
                forall|e: int| 0 <= e < d ==> #[trigger] self.abacus@[e] as int == low[e],
                forall|e: int| d <= e < dims ==> #[trigger] self.abacus@[e] as int == current[e],
            decreases dims - d,
        {
            let high_d = self.bounds.largest_possible_position.get_value_at_dimension_index(d);
            if self.abacus[d] < high_d {
                let bumped = self.abacus[d] + 1;
                self.abacus.set(d, bumped);
                proof {
                    let next = odometer_step(low, current, d as int);
                    lemma_odometer_step(low, high, current, d as int);
                    lemma_address_of_index(low, high, next);
                    assert(int_coords(self.abacus@) =~= next);
                    A::lemma_can_hold_between(
                        self.bounds.smallest_possible_position,
                        self.bounds.largest_possible_position,
                        next,
                    );
                }
                self.produced = Ghost(self.produced@ + 1);
                let values = self.abacus.clone();
                proof {
                    assert(values@ =~= self.abacus@);
                }
                return Some(A::new_from_value_vec(values));
            }
            let low_d = self.bounds.smallest_possible_position.get_value_at_dimension_index(d);
            self.abacus.set(d, low_d);
            d = d + 1;
        }
        proof {
            lemma_index_all_high(low, high, current);
        }
        self.finished = true;
        None
    }
}

} // verus!
