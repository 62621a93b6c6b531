//! Small function combinators.
use vstd::prelude::*;

verus! {

/// `g` after `f`.
pub struct Composed<F, G> {
    pub f: F,
    pub g: G,
}

impl<F, G> Composed<F, G> {
    /// `g(f(a))`.
    pub fn call<A, B, C>(&self, a: A) -> (r: C) where F: Fn(A) -> B, G: Fn(B) -> C
        requires
            self.f.requires((a,)),
            forall|b: B| self.f.ensures((a,), b) ==> self.g.requires((b,)),
        ensures
            exists|b: B| self.f.ensures((a,), b) && self.g.ensures((b,), r),
    {
        let b = (self.f)(a);
        (self.g)(b)
    }
}

/// The composition `g ∘ f`.
pub fn compose<F, G>(g: G, f: F) -> (r: Composed<F, G>)
    ensures
        r.f == f,
        r.g == g,
{
    Composed { f, g }
}

/// Feed `a` through `f`, then `g`.
pub fn pipe<A, B, C, F: Fn(A) -> B, G: Fn(B) -> C>(a: A, f: F, g: G) -> (r: C)
    requires
        f.requires((a,)),
        forall|b: B| f.ensures((a,), b) ==> g.requires((b,)),
    ensures
        exists|b: B| f.ensures((a,), b) && g.ensures((b,), r),
{
    let b = f(a);
    g(b)
}

/// Call `f` on a reference to `value`, then return `value`.
pub fn tap<T, F: Fn(&T)>(value: T, f: F) -> (r: T)
    requires
        f.requires((&value,)),
    ensures
        r == value,
{
    f(&value);
    value
}

/// Its argument, unchanged.
pub fn identity<T>(x: T) -> (r: T)
    ensures
        r == x,
{
    x
}

/// A function that always gives the same value.
pub struct Constant<T> {
    pub value: T,
}

impl<T: Copy> Constant<T> {
    /// The value.
    pub fn call(&self) -> (r: T)
        ensures
            r == self.value,
    {
        self.value
    }
}

/// The constant function of `x`.
pub fn constant<T: Copy>(x: T) -> (r: Constant<T>)
    ensures
        r.value == x,
{
    Constant { value: x }
}

/// Does nothing.
pub fn noop() {
}

/// The negation of a predicate.
pub struct Negated<F> {
    pub pred: F,
}

impl<F> Negated<F> {
    /// `!pred(p)`.
    pub fn call<P>(&self, p: P) -> (r: bool) where F: Fn(P) -> bool
        requires
            self.pred.requires((p,)),
        ensures
            self.pred.ensures((p,), !r),
    {
        !(self.pred)(p)
    }
}

/// The predicate that holds where `pred` does not.
pub fn negate<F>(pred: F) -> (r: Negated<F>)
    ensures
        r.pred == pred,
{
    Negated { pred }
}

/// A two-argument function with its arguments swapped.
pub struct Flipped<F> {
    pub f: F,
}

impl<F> Flipped<F> {
    /// `f(a, b)`.
    pub fn call<A, B, R>(&self, b: B, a: A) -> (r: R) where F: Fn(A, B) -> R
        requires
            self.f.requires((a, b)),
        ensures
            self.f.ensures((a, b), r),
    {
        (self.f)(a, b)
    }
}

/// `f` taking its arguments in the other order.
pub fn flip<F>(f: F) -> (r: Flipped<F>)
    ensures
        r.f == f,
{
    Flipped { f }
}

/// A function with its argument bound.
pub struct Partial<A, F> {
    pub f: F,
    pub arg: A,
}

impl<A: Copy, F> Partial<A, F> {
    /// `f(arg)`.
    pub fn call<R>(&self) -> (r: R) where F: Fn(A) -> R
        requires
            self.f.requires((self.arg,)),
        ensures
            self.f.ensures((self.arg,), r),
    {
        (self.f)(self.arg)
    }
}

/// `f` with its argument fixed to `a`.
pub fn partial<A, F>(f: F, a: A) -> (r: Partial<A, F>)
    ensures
        r.f == f,
        r.arg == a,
{
    Partial { f, arg: a }
}

/// Call `f(0)`, `f(1)`, ..., `f(n - 1)` in order.
pub fn times<F: Fn(usize)>(n: usize, f: F)
    requires
        forall|i: usize| i < n ==> f.requires((i,)),
{
    let mut i: usize = 0;
    while i < n
        invariant
            i <= n,
            forall|j: usize| j < n ==> f.requires((j,)),
        decreases n - i,
    {
        f(i);
        i = i + 1;
    }
}

} // verus!
