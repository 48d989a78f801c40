use crate::address_bound::AddressBound;
use crate::address_iterator::AddressIterator;
use crate::addressable::Addressable;
use crate::mixed_radix::{lemma_address_of_index, lemma_index_of_address};
use vstd::prelude::*;

verus! {

/// A write or read named an address that lies outside the tensor's bound.
#[derive(Clone, Copy, Debug, PartialEq, Eq)]
pub struct OutOfBounds;

/// A dense store with one value for every address of a bound.
///
/// The value of address `a` sits at the bound's linear index of `a`.
#[derive(Clone, Debug, PartialEq, Eq)]
pub struct Tensor<T, A: Addressable> {
    bounds: AddressBound<A>,
    data: Vec<T>,
}

impl<T, A: Addressable> Tensor<T, A> {
    /// The storage holds exactly one value per address of the bound.
    pub closed spec fn wf(&self) -> bool {
        &&& self.data@.len() == self.bounds.spec_volume()
        &&& self.bounds.spec_volume() <= usize::MAX
    }

    /// The bound of the tensor.
    pub closed spec fn spec_bounds(&self) -> AddressBound<A> {
        self.bounds
    }

    /// The stored values, in linear-index order.
    pub closed spec fn values(&self) -> Seq<T> {
        self.data@
    }

    pub proof fn lemma_wf(&self)
        requires
            self.wf(),
        ensures
            self.values().len() == self.spec_bounds().spec_volume(),
            self.spec_bounds().spec_volume() <= usize::MAX,
    {
    }

    /// The value stored for a contained address.
    pub open spec fn value_at(&self, c: Seq<int>) -> T {
        self.values()[self.spec_bounds().linear_index(c)]
    }

    /// A tensor over `bounds` whose value at each address is what `generator` returns
    /// for it; the generator is called once per address, in iteration order.
    pub fn new<F: Fn(A) -> T>(bounds: AddressBound<A>, generator: F) -> (r: Self)
        requires
            bounds.spec_volume() <= usize::MAX,
            forall|a: A| bounds.spec_contains(a.coordinates()) ==> #[trigger] generator.requires((a,)),
        ensures
            r.wf(),
            r.spec_bounds() == bounds,
            r.values().len() == bounds.spec_volume(),
            forall|a: A|
                bounds.spec_contains(a.coordinates()) ==> #[trigger] generator.ensures(
                    (a,),
                    r.value_at(a.coordinates()),
                ),
    {
        let mut it = bounds.iter();
        let mut data: Vec<T> = Vec::new();
        loop
            invariant
                it.wf(),
                it.bounds() == bounds,
                bounds.spec_volume() <= usize::MAX,
                data@.len() == it.produced(),
                it.produced() <= bounds.spec_volume(),
                forall|a: A|
                    bounds.spec_contains(a.coordinates()) ==> #[trigger] generator.requires((a,)),
                forall|a: A|
                    bounds.spec_contains(a.coordinates()) && 0 <= bounds.linear_index(
                        a.coordinates(),
                    ) < data@.len() ==> #[trigger] generator.ensures(
                        (a,),
                        data@[bounds.linear_index(a.coordinates())],
                    ),
            ensures
                data@.len() == bounds.spec_volume(),
                forall|a: A|
                    bounds.spec_contains(a.coordinates()) ==> #[trigger] generator.ensures(
                        (a,),
                        data@[bounds.linear_index(a.coordinates())],
                    ),
            decreases bounds.spec_volume() - it.produced(),
        {
            let ghost k = data@.len() as int;
            match it.next() {
                Some(a) => {
                    proof {
                        lemma_index_of_address(bounds.low(), bounds.high(), k);
                    }
                    let v = generator(a);
                    let ghost before = data@;
                    data.push(v);
                    proof {
                        assert forall|b: A|
                            bounds.spec_contains(b.coordinates()) && 0 <= bounds.linear_index(
                                b.coordinates(),
                            ) < data@.len() implies #[trigger] generator.ensures(
                            (b,),
                            data@[bounds.linear_index(b.coordinates())],
                        ) by {
                            let j = bounds.linear_index(b.coordinates());
                            if j == k {
                                lemma_address_of_index(bounds.low(), bounds.high(), b.coordinates());
                                A::lemma_coordinates_injective(a, b);
                                assert(data@[k] == v);
                            } else {
                                assert(data@[j] == before[j]);
                            }
                        }
                    }
                },
                None => {
                    proof {
                        assert forall|b: A| bounds.spec_contains(b.coordinates()) implies 0
                            <= bounds.linear_index(b.coordinates()) < data@.len() by {
                            lemma_address_of_index(bounds.low(), bounds.high(), b.coordinates());
                        }
                    }
                    break ;
                },
            }
        }
        Tensor { bounds, data }
    }

    /// A tensor over `bounds` holding `values`, given in linear-index order.
    pub fn from_values(bounds: AddressBound<A>, values: Vec<T>) -> (r: Self)
        requires
            values@.len() == bounds.spec_volume(),
        ensures
            r.wf(),
            r.spec_bounds() == bounds,
            r.values() == values@,
    {
        let n = values.len();
        assert(n == bounds.spec_volume());
        Tensor { bounds, data: values }
    }

    /// The stored values, in linear-index order.
    pub fn into_values(self) -> (r: Vec<T>)
        ensures
            r@ == self.values(),
    {
        self.data
    }

    /// The bound of the tensor.
    pub fn bounds(&self) -> (r: AddressBound<A>)
        ensures
            r == self.spec_bounds(),
    {
        self.bounds
    }

    /// The low corner of the bound.
    pub fn smallest_contained_address(&self) -> (r: A)
        ensures
            r == self.spec_bounds().smallest_possible_position,
    {
        self.bounds.smallest_possible_position
    }

    /// The high corner of the bound.
    pub fn largest_contained_address(&self) -> (r: A)
        ensures
            r == self.spec_bounds().largest_possible_position,
    {
        self.bounds.largest_possible_position
    }

    /// Whether the tensor holds a value for `address`.
    pub fn contains_address(&self, address: A) -> (r: bool)
        ensures
            r == self.spec_bounds().spec_contains(address.coordinates()),
    {
        self.bounds.contains_address(&address)
    }

    /// The value stored for `address`, or `None` when the address is outside the bound.
    pub fn get(&self, address: A) -> (r: Option<&T>)
        requires
            self.wf(),
        ensures
            self.spec_bounds().spec_contains(address.coordinates()) ==> (r matches Some(v) && *v
                == self.value_at(address.coordinates())),
            !self.spec_bounds().spec_contains(address.coordinates()) ==> r is None,
    {
        proof {
            if self.spec_bounds().spec_contains(address.coordinates()) {
                lemma_address_of_index(self.bounds.low(), self.bounds.high(), address.coordinates());
            }
        }
        match self.bounds.index_address(&address) {
            Some(i) => Some(&self.data[i]),
            None => None,
        }
    }

    /// Exclusive access to the value stored for `address`, or `None` when the address is
    /// outside the bound.
    pub fn get_mut(&mut self, address: A) -> (r: Option<&mut T>)
        requires
            old(self).wf(),
        ensures
            old(self).spec_bounds().spec_contains(address.coordinates()) ==> {
                &&& r is Some
                &&& *r->0 == old(self).value_at(address.coordinates())
                &&& final(self).wf()
                &&& final(self).spec_bounds() == old(self).spec_bounds()
                &&& final(self).values() == old(self).values().update(
                    old(self).spec_bounds().linear_index(address.coordinates()),
                    *final(r->0),
                )
            },
            !old(self).spec_bounds().spec_contains(address.coordinates()) ==> {
                &&& r is None
                &&& *final(self) == *old(self)
            },
    {
        proof {
            if self.spec_bounds().spec_contains(address.coordinates()) {
                lemma_address_of_index(self.bounds.low(), self.bounds.high(), address.coordinates());
            }
        }
        match self.bounds.index_address(&address) {
            Some(i) => Some(&mut self.data[i]),
            None => None,
        }
    }

    /// Stores `value` for `address`; an address outside the bound is refused and leaves
    /// the tensor as it was.
    pub fn set(&mut self, address: A, value: T) -> (r: Result<(), OutOfBounds>)
        requires
            old(self).wf(),
        ensures
            final(self).wf(),
            final(self).spec_bounds() == old(self).spec_bounds(),
            r is Ok <==> old(self).spec_bounds().spec_contains(address.coordinates()),
            r is Ok ==> final(self).values() == old(self).values().update(
                old(self).spec_bounds().linear_index(address.coordinates()),
                value,
            ),
            r is Err ==> final(self).values() == old(self).values(),
    {
        proof {
            if self.spec_bounds().spec_contains(address.coordinates()) {
                lemma_address_of_index(self.bounds.low(), self.bounds.high(), address.coordinates());
            }
        }
        match self.bounds.index_address(&address) {
            Some(i) => {
                self.data.set(i, value);
                Ok(())
            },
            None => Err(OutOfBounds),
        }
    }

    /// A fresh iterator over the addresses of the tensor, in storage order.
    pub fn address_iter(&self) -> (r: AddressIterator<A>)
        ensures
            r.wf(),
            r.bounds() == self.spec_bounds(),
            r.produced() == 0,
    {
        self.bounds.iter()
    }

    /// A tensor of the same bound whose values are `f` of this tensor's values.
    pub fn transform<U, F: Fn(&T) -> U>(&self, f: F) -> (r: Tensor<U, A>)
        requires
            self.wf(),
            forall|i: int| 0 <= i < self.values().len() ==> #[trigger] f.requires((&self.values()[i],)),
        ensures
            r.wf(),
            r.spec_bounds() == self.spec_bounds(),
            r.values().len() == self.values().len(),
            forall|i: int|
                0 <= i < self.values().len() ==> #[trigger] f.ensures(
                    (&self.values()[i],),
                    r.values()[i],
                ),
    {
        let mut data: Vec<U> = Vec::new();
        let mut i: usize = 0;
        while i < self.data.len()
            invariant
                self.wf(),
                i <= self.data@.len(),
                data@.len() == i,
                forall|j: int| 0 <= j < self.values().len() ==> #[trigger] f.requires((&self.values()[j],)),
                forall|j: int| 0 <= j < i ==> #[trigger] f.ensures((&self.values()[j],), data@[j]),
            decreases self.data@.len() - i,
        {
            assert(f.requires((&self.values()[i as int],)));
            data.push(f(&self.data[i]));
            i = i + 1;
        }
        Tensor { bounds: self.bounds, data }
    }

    /// Replaces every value by `f` of it.
    pub fn transform_in_place<F: Fn(&T) -> T>(&mut self, f: F)
        requires
            old(self).wf(),
            forall|i: int|
                0 <= i < old(self).values().len() ==> #[trigger] f.requires((&old(self).values()[i],)),
        ensures
            final(self).wf(),
            final(self).spec_bounds() == old(self).spec_bounds(),
            final(self).values().len() == old(self).values().len(),
            forall|i: int|
                0 <= i < old(self).values().len() ==> #[trigger] f.ensures(
                    (&old(self).values()[i],),
                    final(self).values()[i],
                ),
    {
        let ghost before = self.data@;
        let mut i: usize = 0;
        while i < self.data.len()
            invariant
                self.bounds == old(self).bounds,
                old(self).wf(),
                before == old(self).values(),
                self.data@.len() == before.len(),
                i <= before.len(),
                forall|j: int| 0 <= j < before.len() ==> #[trigger] f.requires((&before[j],)),
                forall|j: int| 0 <= j < i ==> #[trigger] f.ensures((&before[j],), self.data@[j]),
                forall|j: int| i <= j < before.len() ==> #[trigger] self.data@[j] == before[j],
            decreases before.len() - i,
        {
            let v = f(&self.data[i]);
            self.data.set(i, v);
            i = i + 1;
        }
    }
}

} // verus!
