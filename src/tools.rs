use vstd::prelude::*;

verus! {

/// Passes a value on to a function in method position, so that a chain of
/// calls reads from left to right.
pub trait UsedInTrait: Sized {
    fn used_in<O, F: FnOnce(Self) -> O>(self, f: F) -> (r: O)
        requires
            f.requires((self,)),
        ensures
            f.ensures((self,), r),
    {
        f(self)
    }
}

impl<T: Sized> UsedInTrait for T {}

} // verus!
