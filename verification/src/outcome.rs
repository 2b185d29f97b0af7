//! What comes of a call that can fail.
use vstd::prelude::*;

verus! {

/// The error of a call that failed.
pub open spec fn failure<T, E>(r: Result<T, E>) -> Option<E> {
    match r {
        Ok(_) => None,
        Err(error) => Some(error),
    }
}

/// A call has an error if it failed, and that error.
pub proof fn law_failures<T, E>(value: T, error: E)
    ensures
        failure(Ok::<T, E>(value)) is None,
        failure(Err::<T, E>(error)) == Some(error),
{
}

} // verus!
