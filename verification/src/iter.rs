//! Reading the arguments that are left, one after the other.
use crate::args::Args;
use crate::error::Error;
use crate::parse::{result_view, FromText};
use std::marker::PhantomData;
use vstd::prelude::*;

verus! {

/// Reads each argument that is left as a `T`, quotes and all.
///
/// It borrows the arguments and moves their cursor: each call of [`Iter::next`] is one call of
/// [`Args::single`].
pub struct Iter<'a, T: FromText> {
    args: &'a mut Args,
    marker: PhantomData<T>,
}

impl<'a, T: FromText> Iter<'a, T> {
    /// The arguments that are read.
    pub closed spec fn args(self) -> &'a mut Args {
        self.args
    }

    /// A reader of `args`, from the argument under the cursor on.
    pub fn new(args: &'a mut Args) -> (iter: Self)
        ensures
            *iter.args() == *old(args),
            *final(iter.args()) == *final(args),
    {
        Iter { args, marker: PhantomData }
    }

    /// Once the reader is used no more, the arguments are as it left them.
    pub proof fn lemma_released(self)
        requires
            has_resolved(self),
        ensures
            *self.args() == *final(self.args()),
    {
    }

    /// Reads the argument under the cursor, if one is left.
    pub fn next(&mut self) -> (item: Option<Result<T, Error<T::Err>>>)
        ensures
            final(self).args()@.wf(),
            *final(final(self).args()) == *final(old(self).args()),
            match item {
                Some(r) => {
                    &&& !old(self).args()@.is_empty()
                    &&& result_view(r) == old(self).args()@.read::<T>(false)
                    &&& final(self).args()@ == old(self).args()@.after_read::<T>(false)
                },
                None => old(self).args()@.is_empty() && final(self).args()@ == old(self).args()@,
            },
    {
        if self.args.is_empty() {
            None
        } else {
            Some(self.args.single::<T>())
        }
    }
}

/// Reads each argument that is left as a `T`, a quoted argument without its quotes.
///
/// It borrows the arguments and moves their cursor: each call of [`IterQuoted::next`] is one
/// call of [`Args::single_quoted`].
pub struct IterQuoted<'a, T: FromText> {
    args: &'a mut Args,
    marker: PhantomData<T>,
}

impl<'a, T: FromText> IterQuoted<'a, T> {
    /// The arguments that are read.
    pub closed spec fn args(self) -> &'a mut Args {
        self.args
    }

    /// A reader of `args`, from the argument under the cursor on.
    pub fn new(args: &'a mut Args) -> (iter: Self)
        ensures
            *iter.args() == *old(args),
            *final(iter.args()) == *final(args),
    {
        IterQuoted { args, marker: PhantomData }
    }

    /// Once the reader is used no more, the arguments are as it left them.
    pub proof fn lemma_released(self)
        requires
            has_resolved(self),
        ensures
            *self.args() == *final(self.args()),
    {
    }

    /// Reads the argument under the cursor, if one is left.
    pub fn next(&mut self) -> (item: Option<Result<T, Error<T::Err>>>)
        ensures
            final(self).args()@.wf(),
            *final(final(self).args()) == *final(old(self).args()),
            match item {
                Some(r) => {
                    &&& !old(self).args()@.is_empty()
                    &&& result_view(r) == old(self).args()@.read::<T>(true)
                    &&& final(self).args()@ == old(self).args()@.after_read::<T>(true)
                },
                None => old(self).args()@.is_empty() && final(self).args()@ == old(self).args()@,
            },
    {
        if self.args.is_empty() {
            None
        } else {
            Some(self.args.single_quoted::<T>())
        }
    }
}

} // verus!
