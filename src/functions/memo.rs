//! Memoization: results of a pure function cached by argument, without
//! eviction.
use vstd::prelude::*;

use std::collections::HashMap;

verus! {

broadcast use vstd::std_specs::hash::group_hash_axioms;

/// A memoized function of a `u64` argument.
pub struct Memoized<V, F> {
    func: F,
    cache: HashMap<u64, V>,
    computations: u64,
}

/// The result and the cache after a lookup of `arg`, where `fresh` is what
/// the function gives on a miss.
pub open spec fn memo_lookup<V>(cache: Map<u64, V>, arg: u64, fresh: V) -> (V, Map<u64, V>) {
    if cache.contains_key(arg) {
        (cache[arg], cache)
    } else {
        (fresh, cache.insert(arg, fresh))
    }
}

impl<V: Copy, F: Fn(u64) -> V> Memoized<V, F> {
    pub closed spec fn spec_func(&self) -> F {
        self.func
    }

    /// The cached results, by argument.
    pub closed spec fn spec_cache(&self) -> Map<u64, V> {
        self.cache@
    }

    /// How many times the underlying function has run.
    pub closed spec fn spec_computations(&self) -> u64 {
        self.computations
    }

    /// Every cached value is one the function can give for its argument.
    pub open spec fn wf(&self) -> bool {
        forall|k: u64|
            #[trigger] self.spec_cache().contains_key(k) ==> self.spec_func().ensures(
                (k,),
                self.spec_cache()[k],
            )
    }

    /// Number of underlying runs so far.
    pub fn computations(&self) -> (r: u64)
        ensures
            r == self.spec_computations(),
    {
        self.computations
    }

    /// The function's result on `arg`: from the cache on a hit, otherwise
    /// computed once and cached.
    pub fn call(&mut self, arg: u64) -> (r: V)
        requires
            old(self).wf(),
            old(self).spec_func().requires((arg,)),
        ensures
            final(self).wf(),
            old(self).spec_func().ensures((arg,), r),
            final(self).spec_func() == old(self).spec_func(),
            old(self).spec_cache().contains_key(arg) ==> {
                &&& (r, final(self).spec_cache()) == memo_lookup(old(self).spec_cache(), arg, r)
                &&& final(self).spec_computations() == old(self).spec_computations()
            },
            !old(self).spec_cache().contains_key(arg) ==> {
                &&& old(self).spec_func().ensures((arg,), r)
                &&& (r, final(self).spec_cache()) == memo_lookup(old(self).spec_cache(), arg, r)
                &&& final(self).spec_computations() == (if old(self).spec_computations()
                    == u64::MAX {
                    u64::MAX
                } else {
                    (old(self).spec_computations() + 1) as u64
                })
            },
    {
        match self.cache.get(&arg) {
            Some(v) => *v,
            None => {
                let res = (self.func)(arg);
                let ghost before = self.cache@;
                self.cache.insert(arg, res);
                proof {
                    assert forall|k: u64| #[trigger] self.cache@.contains_key(k) implies self.func.ensures(
                        (k,),
                        self.cache@[k],
                    ) by {
                        if k != arg {
                            assert(before == old(self).spec_cache());
                            assert(old(self).spec_cache().contains_key(k));
                            assert(self.cache@[k] == before[k]);
                        }
                    }
                }
                self.computations = self.computations.saturating_add(1);
                res
            },
        }
    }
}

/// Wrap `func` with an empty cache.
pub fn memo_fn<V: Copy, F: Fn(u64) -> V>(func: F) -> (r: Memoized<V, F>)
    ensures
        r.wf(),
        r.spec_func() == func,
        r.spec_cache() == Map::<u64, V>::empty(),
        r.spec_computations() == 0,
{
    Memoized { func, cache: HashMap::new(), computations: 0 }
}

/// Two lookups of one argument give the same result, and the second is a
/// hit that leaves the cache as the first left it, whatever a second run
/// of the function would have given.
pub proof fn lemma_memo_twice<V>(cache: Map<u64, V>, arg: u64, fresh: V, other: V)
    ensures
        ({
            let (r1, c1) = memo_lookup(cache, arg, fresh);
            let (r2, c2) = memo_lookup(c1, arg, other);
            &&& c1.contains_key(arg)
            &&& r2 == r1
            &&& c2 == c1
        }),
{
}

} // verus!
