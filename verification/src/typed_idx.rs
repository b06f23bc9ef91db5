//! Typed indices: a `usize` that remembers which kind of element it indexes.
use core::cmp::Ordering;
use core::marker::PhantomData;
use vstd::prelude::*;
use vstd::std_specs::cmp::PartialEqSpecImpl;
use vstd::std_specs::cmp::PartialOrdSpecImpl;

verus! {

/// An index into a collection of `T`.
#[derive(Debug)]
pub struct Idx<T>(usize, PhantomData<T>);

impl<T> Copy for Idx<T> {
}

impl<T> Clone for Idx<T> {
    fn clone(&self) -> (r: Idx<T>)
        ensures
            r@ == self@,
    {
        Idx(self.0, PhantomData)
    }
}

impl<T> View for Idx<T> {
    type V = usize;

    closed spec fn view(&self) -> usize {
        self.0
    }
}

impl<T> PartialEq for Idx<T> {
    fn eq(&self, other: &Self) -> (r: bool) {
        self.0 == other.0
    }
}

impl<T> PartialEqSpecImpl for Idx<T> {
    open spec fn obeys_eq_spec() -> bool {
        true
    }

    open spec fn eq_spec(&self, other: &Idx<T>) -> bool {
        self@ == other@
    }
}

impl<T> Eq for Idx<T> {
}

impl<T> PartialOrd for Idx<T> {
    fn partial_cmp(&self, other: &Self) -> (r: Option<Ordering>) {
        if self.0 < other.0 {
            Some(Ordering::Less)
        } else if self.0 == other.0 {
            Some(Ordering::Equal)
        } else {
            Some(Ordering::Greater)
        }
    }
}

impl<T> PartialOrdSpecImpl for Idx<T> {
    open spec fn obeys_partial_cmp_spec() -> bool {
        true
    }

    open spec fn partial_cmp_spec(&self, other: &Idx<T>) -> Option<Ordering> {
        if self@ < other@ {
            Some(Ordering::Less)
        } else if self@ == other@ {
            Some(Ordering::Equal)
        } else {
            Some(Ordering::Greater)
        }
    }
}

impl<T> Idx<T> {
    /// The index of the first element.
    pub fn zero() -> (r: Idx<T>)
        ensures
            r@ == 0,
    {
        Idx(0usize, PhantomData)
    }

    /// The index of the second element.
    pub fn one() -> (r: Idx<T>)
        ensures
            r@ == 1,
    {
        Idx(1usize, PhantomData)
    }

    /// The position this index designates.
    pub fn as_usize(&self) -> (r: usize)
        ensures
            r == self@,
    {
        self.0
    }

    /// Whether this is the index of the first element.
    pub fn is_zero(&self) -> (r: bool)
        ensures
            r == (self@ == 0),
    {
        self.0 == 0usize
    }
}

/// Builds the typed index of position `i`.
pub fn idx<T>(i: usize) -> (r: Idx<T>)
    ensures
        r@ == i,
{
    Idx(i, PhantomData)
}

/// Reads the element that a typed index designates.
pub fn at<T>(v: &Vec<T>, i: Idx<T>) -> (r: &T)
    requires
        i@ < v.len(),
    ensures
        *r == v@[i@ as int],
{
    &v[i.0]
}

/// Overwrites the element that a typed index designates.
pub fn set_at<T>(v: &mut Vec<T>, i: Idx<T>, value: T)
    requires
        i@ < old(v).len(),
    ensures
        final(v)@ == old(v)@.update(i@ as int, value),
{
    v.set(i.0, value);
}

} // verus!
