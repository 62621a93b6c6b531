//! Whole-value helpers: cloning, element-wise equality, merging of
//! scalars, and access by path for containers that offer it.
use vstd::prelude::*;

verus! {

/// Types that can produce an independent copy of themselves.
pub trait DeepClone: Sized {
    /// An independent copy.
    fn deep_clone(&self) -> Self;
}

impl<T: Copy> DeepClone for T {
    fn deep_clone(&self) -> (r: Self) {
        *self
    }
}

/// An independent copy of `value`, made by its `DeepClone`.
pub fn clone<T: DeepClone>(value: &T) -> (r: T) {
    value.deep_clone()
}

/// An independent copy of `value`.
pub fn deep_clone<T: Copy>(value: &T) -> (r: T)
    ensures
        r == *value,
{
    *value
}

/// Whether the slices hold equal elements in the same order.
pub fn deep_equal_slice(a: &[i64], b: &[i64]) -> (r: bool)
    ensures
        r == (a@ == b@),
{
    if a.len() != b.len() {
        return false;
    }
    let mut i: usize = 0;
    while i < a.len()
        invariant
            a@.len() == b@.len(),
            i <= a@.len(),
            forall|j: int| 0 <= j < i ==> a@[j] == b@[j],
        decreases a@.len() - i,
    {
        if a[i] != b[i] {
            return false;
        }
        i = i + 1;
    }
    proof {
        assert(a@ =~= b@);
    }
    true
}

/// Values that absorb another value of their type.
pub trait DeepMerge {
    /// Merge `other` into `self`.
    fn deep_merge(&mut self, other: &Self);
}

impl DeepMerge for i32 {
    /// A scalar takes the other value.
    fn deep_merge(&mut self, other: &Self) {
        *self = *other;
    }
}

impl<V: Copy + DeepMerge> DeepMerge for std::collections::HashMap<u64, V> {
    /// Each entry of `other` is merged into the entry of the same key, or
    /// added when there is none.
    fn deep_merge(&mut self, other: &Self) {
        broadcast use vstd::std_specs::hash::group_hash_axioms;

        for (key, value) in other.iter() {
            match self.get(key) {
                Some(existing) => {
                    let mut merged = *existing;
                    merged.deep_merge(value);
                    self.insert(*key, merged);
                },
                None => {
                    self.insert(*key, *value);
                },
            }
        }
    }
}

/// `right` merged into a copy of `left`.
pub fn merge<T: DeepMerge + Clone>(left: &T, right: &T) -> (r: T) {
    let mut result = left.clone();
    result.deep_merge(right);
    result
}

/// All values merged into a copy of the first, left to right; `None` when
/// there is none.
pub fn merge_all<T: DeepMerge + Clone>(values: &[&T]) -> (r: Option<T>)
    ensures
        r is None <==> values@.len() == 0,
{
    if values.len() == 0 {
        return None;
    }
    let mut result = values[0].clone();
    let mut i: usize = 1;
    while i < values.len()
        invariant
            1 <= i <= values@.len(),
        decreases values@.len() - i,
    {
        result.deep_merge(values[i]);
        i = i + 1;
    }
    Some(result)
}

/// Containers whose parts can be reached by a path.
pub trait PathAccess {
    /// What a path leads to.
    type Value;

    /// The value at `path`, if any.
    fn get_path<'a>(&'a self, path: &str) -> Option<&'a Self::Value>;

    /// Put `value` at `path`; false when the path cannot be taken.
    fn set_path(&mut self, path: &str, value: Self::Value) -> bool;

    /// Whether `path` leads to a value.
    fn has_path(&self, path: &str) -> bool;
}

/// The value at `path` in `container`.
pub fn get<'a, T: PathAccess>(container: &'a T, path: &str) -> (r: Option<&'a T::Value>) {
    container.get_path(path)
}

/// Put `value` at `path` in `container`.
pub fn set<T: PathAccess>(container: &mut T, path: &str, value: T::Value) -> (r: bool) {
    container.set_path(path, value)
}

/// Whether `path` leads to a value in `container`.
pub fn has<T: PathAccess>(container: &T, path: &str) -> (r: bool) {
    container.has_path(path)
}

} // verus!
