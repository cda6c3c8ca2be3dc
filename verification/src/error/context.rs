//! Turning a missing value into an error of the library.

use vstd::prelude::*;
use crate::error::PiramidError;

verus! {

/// Attach an error to the failing case of an `Option` or a `Result`.
pub trait ErrorContext<T>: Sized {
    /// The value inside `self`, if it holds one.
    spec fn payload(self) -> Option<T>;

    /// `Ok` with the value where there is one, `Err(error)` otherwise.
    fn context(self, error: PiramidError) -> (r: Result<T, PiramidError>)
        ensures
            r == match self.payload() {
                Some(v) => Ok::<T, PiramidError>(v),
                None => Err::<T, PiramidError>(error),
            },
    ;

    /// `Ok` with the value where there is one, `Err` with what `f` makes
    /// otherwise. `f` is called only where it is needed.
    fn with_context<F: FnOnce() -> PiramidError>(self, f: F) -> (r: Result<T, PiramidError>)
        requires
            f.requires(()),
        ensures
            match self.payload() {
                Some(v) => r == Ok::<T, PiramidError>(v),
                None => r is Err && f.ensures((), r->Err_0),
            },
    ;
}

impl<T> ErrorContext<T> for Option<T> {
    open spec fn payload(self) -> Option<T> {
        self
    }

    fn context(self, error: PiramidError) -> (r: Result<T, PiramidError>) {
        match self {
            Some(v) => Ok(v),
            None => Err(error),
        }
    }

    fn with_context<F: FnOnce() -> PiramidError>(self, f: F) -> (r: Result<T, PiramidError>) {
        match self {
            Some(v) => Ok(v),
            None => Err(f()),
        }
    }
}

impl<T, E> ErrorContext<T> for Result<T, E> {
    open spec fn payload(self) -> Option<T> {
        match self {
            Ok(v) => Some(v),
            Err(_) => None,
        }
    }

    fn context(self, error: PiramidError) -> (r: Result<T, PiramidError>) {
        match self {
            Ok(v) => Ok(v),
            Err(_) => Err(error),
        }
    }

    fn with_context<F: FnOnce() -> PiramidError>(self, f: F) -> (r: Result<T, PiramidError>) {
        match self {
            Ok(v) => Ok(v),
            Err(_) => Err(f()),
        }
    }
}

} // verus!
