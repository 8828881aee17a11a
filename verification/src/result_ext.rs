//! A look at errors in passing.

use vstd::prelude::*;

verus! {

/// What results can do besides.
pub trait ResultExt<T, E>: Sized {
    /// The error, if this is one.
    spec fn failure(self) -> Option<E>;

    /// Lets you pass a thunk that does a thing to an `Err` without mutating it.
    /// Mainly for logging.
    fn inspect_err<F: FnOnce(&E)>(self, f: F) -> (r: Self)
        requires
            self.failure() matches Some(e) ==> call_requires(f, (&e,)),
        ensures
            r == self,
            self.failure() matches Some(e) ==> call_ensures(f, (&e,), ()),
    ;
}

impl<T, E> ResultExt<T, E> for Result<T, E> {
    open spec fn failure(self) -> Option<E> {
        match self {
            Ok(_) => None,
            Err(e) => Some(e),
        }
    }

    fn inspect_err<F: FnOnce(&E)>(self, f: F) -> (r: Self) {
        match self {
            Err(e) => {
                f(&e);
                Err(e)
            },
            Ok(t) => Ok(t),
        }
    }
}

/// An error is looked at exactly when there is one.
pub proof fn law_failure_is_the_error<T, E>(t: T, e: E)
    ensures
        Ok::<T, E>(t).failure() is None,
        Err::<T, E>(e).failure() == Some(e),
{
}

} // verus!
