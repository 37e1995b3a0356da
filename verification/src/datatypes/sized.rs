//! A vector made with room for a number of elements that its type names.

use std::slice::Iter;
use vstd::prelude::*;
use vstd::std_specs::slice::into_iter_elts;

verus! {

/// A vector that is made with room for `S` elements. The number is a hint
/// for the allocation and no bound: the vector may hold more.
#[derive(Debug, Clone, PartialEq)]
pub struct SizedVec<T, const S: usize> {
    pub inner: Vec<T>,
}

impl<T, const S: usize> SizedVec<T, S> {
    /// An empty vector with room for `S` elements.
    pub fn new() -> (v: Self)
        ensures
            v.inner@ == Seq::<T>::empty(),
    {
        SizedVec { inner: Vec::with_capacity(S) }
    }

    /// The elements of `inner`, in their order, with room for `S` more.
    pub fn from_vec(inner: Vec<T>) -> (v: Self)
        ensures
            v.inner@ == inner@,
    {
        let mut inner = inner;
        inner.reserve(S);
        SizedVec { inner }
    }

    /// The number of elements that the type makes room for.
    pub fn get_size(&self) -> (size: usize)
        ensures
            size == S,
    {
        S
    }

    /// An iterator over the elements, first to last.
    pub fn iter(&self) -> (iter: Iter<'_, T>)
        ensures
            into_iter_elts(iter) == self.inner@,
    {
        broadcast use vstd::std_specs::slice::axiom_spec_slice_iter;

        let iter = self.inner.as_slice().iter();
        assert(into_iter_elts(iter) == self.inner@);
        iter
    }
}

impl<T, const S: usize> From<Vec<T>> for SizedVec<T, S> {
    /// The elements of `data`, in their order, as [`SizedVec::from_vec`]
    /// gives them.
    fn from(data: Vec<T>) -> (v: Self)
        ensures
            v.inner@ == data@,
    {
        SizedVec::from_vec(data)
    }
}

impl<T, const S: usize> vstd::std_specs::convert::FromSpecImpl<Vec<T>> for SizedVec<T, S> {
    /// The conversion is stated over the elements, not over the vector that
    /// holds them: room is made, and the vector is not the one that came.
    open spec fn obeys_from_spec() -> bool {
        false
    }

    open spec fn from_spec(data: Vec<T>) -> Self {
        SizedVec { inner: data }
    }
}

} // verus!
