//! Resources which can be created when a system first asks for them.

use vstd::prelude::*;

verus! {

/// A type which may be able to provide a default value of itself: `Some`
/// for a type that has a default, `None` otherwise.
pub trait TryDefault {
    fn try_default() -> Option<Self> where Self: Sized;
}

} // verus!
