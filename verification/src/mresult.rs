//! A minimal two-variant success/failure wrapper with fatal extraction.

use vstd::prelude::*;

verus! {

/// Holds either a success value or an error value.
#[derive(Debug, PartialEq, Eq)]
pub enum MResult<T, E> {
    MOk(T),
    MErr(E),
}

impl<T, E> MResult<T, E> {
    /// Wraps a value in the success variant.
    pub fn ok(value: T) -> (r: Self)
        ensures
            r == MResult::<T, E>::MOk(value),
    {
        MResult::MOk(value)
    }

    /// Wraps a value in the error variant.
    pub fn err(error: E) -> (r: Self)
        ensures
            r == MResult::<T, E>::MErr(error),
    {
        MResult::MErr(error)
    }

    /// True exactly on the success variant.
    pub fn is_ok(&self) -> (r: bool)
        ensures
            r == (self is MOk),
    {
        match self {
            MResult::MOk(_) => true,
            MResult::MErr(_) => false,
        }
    }

    /// True exactly on the error variant.
    pub fn is_err(&self) -> (r: bool)
        ensures
            r == (self is MErr),
    {
        match self {
            MResult::MOk(_) => false,
            MResult::MErr(_) => true,
        }
    }

    /// Extracts the success value; calling this on an error value is a
    /// programmer error, so the error variant is excluded up front.
    pub fn unwrap(self) -> (r: T)
        requires
            self is MOk,
        ensures
            self == MResult::<T, E>::MOk(r),
    {
        match self {
            MResult::MOk(x) => x,
            MResult::MErr(_) => vstd::pervasive::unreached(),
        }
    }

    /// Extracts the error value; calling this on a success value is a
    /// programmer error, so the success variant is excluded up front.
    pub fn unwrap_err(self) -> (r: E)
        requires
            self is MErr,
        ensures
            self == MResult::<T, E>::MErr(r),
    {
        match self {
            MResult::MOk(_) => vstd::pervasive::unreached(),
            MResult::MErr(e) => e,
        }
    }
}

} // verus!
