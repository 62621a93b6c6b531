//! Small helpers on options, results and containers.
use vstd::prelude::*;

use std::collections::HashMap;

verus! {

/// Containers that can tell whether they hold anything.
pub trait IsEmpty {
    /// Whether the value holds nothing.
    fn is_empty(&self) -> bool;
}

impl IsEmpty for String {
    fn is_empty(&self) -> bool {
        self.as_str().is_empty()
    }
}

impl<T> IsEmpty for Vec<T> {
    fn is_empty(&self) -> bool {
        self.len() == 0
    }
}

impl<T> IsEmpty for &[T] {
    fn is_empty(&self) -> bool {
        self.len() == 0
    }
}

impl<K, V> IsEmpty for HashMap<K, V> {
    fn is_empty(&self) -> bool {
        self.len() == 0
    }
}

/// Whether `value` holds nothing.
pub fn is_empty<T: IsEmpty>(value: &T) -> bool {
    value.is_empty()
}

/// The held value, or `default`.
pub fn default_to<T>(value: Option<T>, default: T) -> (r: T)
    ensures
        r == (match value {
            Some(v) => v,
            None => default,
        }),
{
    match value {
        Some(v) => v,
        None => default,
    }
}

/// `f` of the held value, or `default`.
pub fn map_some_or<T, U, F: FnOnce(T) -> U>(opt: Option<T>, default: U, f: F) -> (r: U)
    requires
        opt is Some ==> f.requires((opt->Some_0,)),
    ensures
        opt is None ==> r == default,
        opt is Some ==> f.ensures((opt->Some_0,), r),
{
    match opt {
        Some(v) => f(v),
        None => default,
    }
}

/// `f` of the success value, or `default` on an error.
pub fn map_ok_or<T, E, U, F: FnOnce(T) -> U>(res: Result<T, E>, default: U, f: F) -> (r: U)
    requires
        res is Ok ==> f.requires((res->Ok_0,)),
    ensures
        res is Err ==> r == default,
        res is Ok ==> f.ensures((res->Ok_0,), r),
{
    match res {
        Ok(v) => f(v),
        Err(_) => default,
    }
}

/// `x` clamped to `[min, max]`; `min` wins when the bounds cross.
pub fn coerce(x: i64, min: i64, max: i64) -> (r: i64)
    ensures
        r == (if x < min {
            min
        } else if x > max {
            max
        } else {
            x
        }),
{
    if x < min {
        min
    } else if x > max {
        max
    } else {
        x
    }
}

/// Whether there is a value and `f` holds of it.
pub fn is_some_and<T, F: FnOnce(&T) -> bool>(opt: Option<T>, f: F) -> (r: bool)
    requires
        opt is Some ==> f.requires((&opt->Some_0,)),
    ensures
        opt is None ==> !r,
        opt is Some ==> f.ensures((&opt->Some_0,), r),
{
    match opt {
        Some(v) => f(&v),
        None => false,
    }
}

/// Whether the result is a success and `f` holds of its value.
pub fn is_ok_and<T, E, F: FnOnce(&T) -> bool>(res: Result<T, E>, f: F) -> (r: bool)
    requires
        res is Ok ==> f.requires((&res->Ok_0,)),
    ensures
        res is Err ==> !r,
        res is Ok ==> f.ensures((&res->Ok_0,), r),
{
    match res {
        Ok(v) => f(&v),
        Err(_) => false,
    }
}

/// The held reference, or `default`.
pub fn as_ref_or<'a, T>(opt: Option<&'a T>, default: &'a T) -> (r: &'a T)
    ensures
        r == (match opt {
            Some(v) => v,
            None => default,
        }),
{
    match opt {
        Some(v) => v,
        None => default,
    }
}

/// Take the value out of `opt` when `f` holds of it.
pub fn take_if<T, F: FnOnce(&T) -> bool>(opt: &mut Option<T>, f: F) -> (r: Option<T>)
    requires
        *old(opt) is Some ==> f.requires((&old(opt)->Some_0,)),
    ensures
        *old(opt) is None ==> r is None && *final(opt) == *old(opt),
        *old(opt) is Some ==> (f.ensures((&old(opt)->Some_0,), true) && r == *old(opt)
            && *final(opt) == None::<T>) || (f.ensures((&old(opt)->Some_0,), false) && r is None
            && *final(opt) == *old(opt)),
{
    let hit = match opt {
        Some(v) => f(v),
        None => false,
    };
    if hit {
        opt.take()
    } else {
        None
    }
}

/// Put `new_val` in `slot` and return what was there.
pub fn replace_with<T>(slot: &mut T, new_val: T) -> (r: T)
    ensures
        r == *old(slot),
        *final(slot) == new_val,
{
    let mut v = new_val;
    std::mem::swap(slot, &mut v);
    v
}

/// A vector with at least one element.
pub struct NonEmptyVec<T> {
    head: T,
    tail: Vec<T>,
}

impl<T> NonEmptyVec<T> {
    /// The elements, in order.
    pub closed spec fn view(&self) -> Seq<T> {
        seq![self.head] + self.tail@
    }

    /// `head` followed by `tail`.
    pub fn new(head: T, tail: Vec<T>) -> (r: Self)
        ensures
            r.view() == seq![head] + tail@,
    {
        NonEmptyVec { head, tail }
    }

    /// The elements of `v`, or `None` when it is empty.
    pub fn from_vec(v: Vec<T>) -> (r: Option<Self>)
        ensures
            v@.len() == 0 <==> r is None,
            r is Some ==> r->Some_0.view() == v@,
    {
        let ghost orig = v@;
        let mut v = v;
        if v.len() == 0 {
            None
        } else {
            let head = v.remove(0);
            proof {
                assert(seq![head] + v@ =~= orig);
            }
            Some(NonEmptyVec { head, tail: v })
        }
    }

    /// Number of elements.
    pub fn len(&self) -> (r: usize)
        requires
            self.view().len() <= usize::MAX,
        ensures
            r == self.view().len(),
    {
        1 + self.tail.len()
    }

    /// Always false.
    pub fn is_empty(&self) -> (r: bool)
        ensures
            r == (self.view().len() == 0),
            !r,
    {
        false
    }
}

impl<T: Copy> NonEmptyVec<T> {
    /// The elements, in order, as a vector.
    pub fn iter(&self) -> (r: Vec<T>)
        ensures
            r@ == self.view(),
    {
        let mut out: Vec<T> = Vec::new();
        out.push(self.head);
        let mut i: usize = 0;
        while i < self.tail.len()
            invariant
                i <= self.tail@.len(),
                out@ == seq![self.head] + self.tail@.subrange(0, i as int),
            decreases self.tail@.len() - i,
        {
            out.push(self.tail[i]);
            i = i + 1;
        }
        proof {
            assert(self.tail@.subrange(0, self.tail@.len() as int) == self.tail@);
        }
        out
    }
}

/// Relies on `str::parse`: the parsed value, or `None` when `s` does not
/// parse. Nothing more is promised of the value.
#[verifier::external_body]
fn parse_value<T: std::str::FromStr>(s: &str) -> (r: Option<T>) {
    s.parse().ok()
}

/// `s` parsed as a `T`, or `default` when it does not parse.
pub fn parse_or<T: std::str::FromStr>(s: &str, default: T) -> (r: T) {
    match parse_value::<T>(s) {
        Some(v) => v,
        None => default,
    }
}

/// `s` parsed as a `T`, or `T::default()` when it does not parse.
pub fn parse_or_default<T: std::str::FromStr + Default>(s: &str) -> (r: T) {
    match parse_value::<T>(s) {
        Some(v) => v,
        None => T::default(),
    }
}

/// The text that `value`'s `Display` writes.
pub fn to_string_safe<T: std::fmt::Display>(value: T) -> (r: String)
    ensures
        vstd::string::to_string_from_display_ensures::<T>(&value, r),
{
    value.to_string()
}

} // verus!
