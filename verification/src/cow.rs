//! Operands that are either borrowed or owned.

use vstd::prelude::*;

verus! {

/// A value that a combinator reads but never changes: borrowed from its
/// owner, or owned by the combinator itself.
#[derive(Debug)]
pub enum LCow<'a, T> {
    Borrowed(&'a T),
    Owned(T),
}

impl<'a, T> LCow<'a, T> {
    /// The value that is held, whichever way.
    pub open spec fn value(self) -> T {
        match self {
            LCow::Borrowed(t) => *t,
            LCow::Owned(t) => t,
        }
    }

    /// Holds `t` by reference.
    pub fn borrowed(t: &'a T) -> (c: Self)
        ensures
            c.value() == *t,
    {
        LCow::Borrowed(t)
    }

    /// Takes `t` over.
    pub fn owned(t: T) -> (c: Self)
        ensures
            c.value() == t,
    {
        LCow::Owned(t)
    }

    /// Read access to the value.
    pub fn get(&self) -> (t: &T)
        ensures
            *t == self.value(),
    {
        match self {
            LCow::Borrowed(t) => t,
            LCow::Owned(t) => t,
        }
    }
}

impl<'a, T> From<T> for LCow<'a, T> {
    /// Takes `t` over.
    fn from(t: T) -> (c: Self) {
        LCow::Owned(t)
    }
}

impl<'a, T> vstd::std_specs::convert::FromSpecImpl<T> for LCow<'a, T> {
    open spec fn obeys_from_spec() -> bool {
        true
    }

    open spec fn from_spec(t: T) -> Self {
        LCow::Owned(t)
    }
}

impl<'a, T> From<&'a T> for LCow<'a, T> {
    /// Holds `t` by reference.
    fn from(t: &'a T) -> (c: Self) {
        LCow::Borrowed(t)
    }
}

impl<'a, T> vstd::std_specs::convert::FromSpecImpl<&'a T> for LCow<'a, T> {
    open spec fn obeys_from_spec() -> bool {
        true
    }

    open spec fn from_spec(t: &'a T) -> Self {
        LCow::Borrowed(t)
    }
}

} // verus!
