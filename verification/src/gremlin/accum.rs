//! Accumulators: values that take in items one by one and give a result at the end.
use std::marker::PhantomData;
use vstd::prelude::*;

verus! {

#[verifier::external_type_specification]
#[verifier::external_body]
pub struct ExIoError(std::io::Error);

/// Takes in items of type `I` one by one and gives a result of type `O`.
pub trait Accumulator<I, O> {
    /// Whether the accumulator can take in one more item.
    spec fn can_accum(&self) -> bool;

    fn accum(&mut self, next: I) -> Result<(), std::io::Error>
        requires
            old(self).can_accum(),
    ;

    fn finalize(&mut self) -> O;
}

/// Makes accumulators.
pub trait AccumFactory<I, O> {
    type Target: Accumulator<I, O>;

    fn create(&self) -> Self::Target;

    /// Whether what the accumulators take in may be split, accumulated apart and combined:
    /// not unless the factory says so.
    fn is_associative(&self) -> (b: bool)
        default_ensures
            !b,
    {
        false
    }
}

/// Counts the items it takes in.
#[derive(Eq, PartialEq)]
pub struct Count<D> {
    pub value: u64,
    pub _ph: PhantomData<D>,
}

impl<D> Accumulator<D, u64> for Count<D> {
    /// A counter takes in items until its count is the largest `u64`.
    open spec fn can_accum(&self) -> bool {
        self.value < u64::MAX
    }

    fn accum(&mut self, _next: D) -> (r: Result<(), std::io::Error>)
        ensures
            r is Ok,
            final(self).value == old(self).value + 1,
    {
        self.value = self.value + 1;
        Ok(())
    }

    fn finalize(&mut self) -> (value: u64)
        ensures
            value == old(self).value,
            final(self).value == 0,
    {
        let value = self.value;
        self.value = 0;
        value
    }
}

/// Makes counters that start at zero.
pub struct CountAccum<D> {
    pub _ph: PhantomData<D>,
}

impl<D> CountAccum<D> {
    pub fn new() -> (accum: Self)
        ensures
            accum == (CountAccum::<D> { _ph: PhantomData }),
    {
        CountAccum { _ph: PhantomData }
    }
}

impl<D> AccumFactory<D, u64> for CountAccum<D> {
    type Target = Count<D>;

    fn create(&self) -> (count: Count<D>)
        ensures
            count.value == 0,
    {
        Count { value: 0, _ph: PhantomData }
    }

    fn is_associative(&self) -> (b: bool)
        ensures
            b,
    {
        true
    }
}

/// Collects the items it takes in, in order.
#[derive(Clone, Eq, PartialEq)]
pub struct ToList<D> {
    pub inner: Vec<D>,
}

impl<D> Accumulator<D, Vec<D>> for ToList<D> {
    /// A list takes in any number of items.
    open spec fn can_accum(&self) -> bool {
        true
    }

    fn accum(&mut self, next: D) -> (r: Result<(), std::io::Error>)
        ensures
            r is Ok,
            final(self).inner@ == old(self).inner@.push(next),
    {
        self.inner.push(next);
        Ok(())
    }

    fn finalize(&mut self) -> (items: Vec<D>)
        ensures
            items@ == old(self).inner@,
            final(self).inner@ == Seq::<D>::empty(),
    {
        let mut items = Vec::new();
        std::mem::swap(&mut items, &mut self.inner);
        items
    }
}

/// Makes lists that collect items, with room for `capacity` items where it is not zero.
pub struct ToListAccum<D> {
    capacity: usize,
    pub _ph: PhantomData<D>,
}

impl<D> ToListAccum<D> {
    pub fn new() -> (accum: Self)
        ensures
            accum.capacity() == 0,
    {
        ToListAccum { capacity: 0, _ph: PhantomData }
    }

    pub fn with_capacity(capacity: usize) -> (accum: Self)
        ensures
            accum.capacity() == capacity,
    {
        ToListAccum { capacity, _ph: PhantomData }
    }

    /// The room that the lists it makes start with.
    pub closed spec fn capacity(&self) -> usize {
        self.capacity
    }
}

impl<D> AccumFactory<D, Vec<D>> for ToListAccum<D> {
    type Target = ToList<D>;

    fn create(&self) -> (list: ToList<D>)
        ensures
            list.inner@ == Seq::<D>::empty(),
    {
        if self.capacity > 0 {
            ToList { inner: Vec::with_capacity(self.capacity) }
        } else {
            ToList { inner: Vec::new() }
        }
    }
}

} // verus!
