//! A function that runs at most once.
use vstd::prelude::*;

verus! {

/// Holds the function until its one run.
pub struct Once<F> {
    func: Option<F>,
}

impl<F: FnOnce()> Once<F> {
    /// Whether the function has yet to run.
    pub closed spec fn pending(&self) -> bool {
        self.func is Some
    }

    pub closed spec fn spec_func(&self) -> F {
        self.func->Some_0
    }

    /// Run the function if it has not run yet; returns whether it ran.
    pub fn call(&mut self) -> (r: bool)
        requires
            old(self).pending() ==> old(self).spec_func().requires(()),
        ensures
            r == old(self).pending(),
            !final(self).pending(),
    {
        match self.func.take() {
            Some(f) => {
                f();
                true
            },
            None => false,
        }
    }
}

/// Wrap `func` so that only its first call runs it.
pub fn once<F: FnOnce()>(func: F) -> (r: Once<F>)
    ensures
        r.pending(),
        r.spec_func() == func,
{
    Once { func: Some(func) }
}

} // verus!
