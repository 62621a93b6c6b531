//! Collection helpers on slices.
//!
//! Elements are `Copy`; helpers that compare elements work on `i64`, whose
//! equality and order the contracts can state.
use vstd::prelude::*;

use std::collections::HashMap;

use crate::random::{clock_seed, Lcg};

verus! {

/// Copy of `s[a..b]`.
pub fn copy_range<T: Copy>(s: &[T], a: usize, b: usize) -> (r: Vec<T>)
    requires
        a <= b <= s@.len(),
    ensures
        r@ == s@.subrange(a as int, b as int),
{
    let mut out: Vec<T> = Vec::new();
    let mut i: usize = a;
    while i < b
        invariant
            a <= i <= b <= s@.len(),
            out@ == s@.subrange(a as int, i as int),
        decreases b - i,
    {
        out.push(s[i]);
        i = i + 1;
    }
    out
}

/// `min(a, b)` on integers.
pub open spec fn min_int(a: int, b: int) -> int {
    if a < b {
        a
    } else {
        b
    }
}

/// Split `slice` into pieces of `size` elements; the last piece holds the
/// rest. A size of zero gives no pieces.
pub fn chunk<T: Copy>(slice: &[T], size: usize) -> (r: Vec<Vec<T>>)
    ensures
        size == 0 ==> r@.len() == 0,
        size > 0 ==> {
            &&& r@.len() * size >= slice@.len()
            &&& r@.len() == 0 || (r@.len() - 1) * size < slice@.len()
            &&& forall|j: int|
                0 <= j < r@.len() ==> (#[trigger] r@[j])@ == slice@.subrange(
                    j * size,
                    min_int(j * size + size, slice@.len() as int),
                )
        },
{
    let mut out: Vec<Vec<T>> = Vec::new();
    if size == 0 {
        return out;
    }
    let n = slice.len();
    let mut start: usize = 0;
    proof {
        assert(0 * size == 0) by (nonlinear_arith);
    }
    while start < n
        invariant
            size > 0,
            n == slice@.len(),
            start <= n,
            start < n ==> start == out@.len() * size,
            start == n ==> out@.len() * size >= n && (out@.len() == 0 || (out@.len() - 1) * size
                < n),
            forall|j: int|
                0 <= j < out@.len() ==> (#[trigger] out@[j])@ == slice@.subrange(
                    j * size,
                    min_int(j * size + size, n as int),
                ),
        decreases n - start,
    {
        let end = if n - start > size {
            start + size
        } else {
            n
        };
        let piece = copy_range(slice, start, end);
        let ghost len = out@.len();
        proof {
            assert(len * size + size == (len + 1) * size) by (nonlinear_arith);
            assert((len + 1 - 1) * size == len * size);
        }
        out.push(piece);
        start = end;
        proof {
            assert(out@[len as int] == piece);
        }
    }
    out
}

/// The values of the `Some` entries of `s`, in order.
pub open spec fn somes<T>(s: Seq<Option<T>>) -> Seq<T>
    decreases s.len(),
{
    if s.len() == 0 {
        Seq::empty()
    } else {
        let p = somes(s.drop_last());
        match s.last() {
            Some(v) => p.push(v),
            None => p,
        }
    }
}

/// The values held by the `Some` entries, in order.
pub fn compact<T: Copy>(slice: &[Option<T>]) -> (r: Vec<T>)
    ensures
        r@ == somes(slice@),
{
    let mut out: Vec<T> = Vec::new();
    let mut i: usize = 0;
    while i < slice.len()
        invariant
            i <= slice@.len(),
            out@ == somes(slice@.subrange(0, i as int)),
        decreases slice@.len() - i,
    {
        proof {
            assert(slice@.subrange(0, i as int + 1).drop_last() == slice@.subrange(0, i as int));
        }
        if let Some(v) = slice[i] {
            out.push(v);
        }
        i = i + 1;
    }
    proof {
        assert(slice@.subrange(0, slice@.len() as int) == slice@);
    }
    out
}

/// Whether `x` occurs in `v`.
pub fn contains_i64(v: &[i64], x: i64) -> (r: bool)
    ensures
        r == v@.contains(x),
{
    let mut i: usize = 0;
    while i < v.len()
        invariant
            i <= v@.len(),
            forall|j: int| 0 <= j < i ==> v@[j] != x,
        decreases v@.len() - i,
    {
        if v[i] == x {
            return true;
        }
        i = i + 1;
    }
    false
}

/// The distinct elements of `s`, each at its first occurrence.
pub open spec fn uniq_spec(s: Seq<i64>) -> Seq<i64>
    decreases s.len(),
{
    if s.len() == 0 {
        Seq::empty()
    } else {
        let p = uniq_spec(s.drop_last());
        if p.contains(s.last()) {
            p
        } else {
            p.push(s.last())
        }
    }
}

/// `uniq_spec` holds exactly the elements of its argument, once each.
pub proof fn lemma_uniq_spec(s: Seq<i64>)
    ensures
        forall|x: i64| uniq_spec(s).contains(x) <==> s.contains(x),
        uniq_spec(s).no_duplicates(),
    decreases s.len(),
{
    if s.len() > 0 {
        let d = s.drop_last();
        lemma_uniq_spec(d);
        let p = uniq_spec(d);
        let l = s.last();
        assert(s == d.push(l));
        assert forall|x: i64| s.contains(x) <==> (d.contains(x) || x == l) by {
            if s.contains(x) && x != l {
                let j = choose|j: int| 0 <= j < s.len() && s[j] == x;
                assert(d[j] == x);
            }
            if d.contains(x) {
                let j = choose|j: int| 0 <= j < d.len() && d[j] == x;
                assert(s[j] == x);
            }
            if x == l {
                assert(s[s.len() - 1] == x);
            }
        }
        if !p.contains(l) {
            assert forall|x: i64| p.push(l).contains(x) <==> (p.contains(x) || x == l) by {
                if p.push(l).contains(x) && x != l {
                    let j = choose|j: int| 0 <= j < p.push(l).len() && p.push(l)[j] == x;
                    assert(p[j] == x);
                }
                if p.contains(x) {
                    let j = choose|j: int| 0 <= j < p.len() && p[j] == x;
                    assert(p.push(l)[j] == x);
                }
                if x == l {
                    assert(p.push(l)[p.len() as int] == x);
                }
            }
            assert forall|i: int, j: int|
                0 <= i < p.push(l).len() && 0 <= j < p.push(l).len() && i != j implies p.push(l)[i]
                != p.push(l)[j] by {
                if i == p.len() as int {
                    assert(p.contains(p[j]));
                } else if j == p.len() as int {
                    assert(p.contains(p[i]));
                }
            }
        }
    }
}

/// The distinct elements, in order of first occurrence.
pub fn uniq(slice: &[i64]) -> (r: Vec<i64>)
    ensures
        r@ == uniq_spec(slice@),
        forall|x: i64| r@.contains(x) <==> slice@.contains(x),
        r@.no_duplicates(),
{
    let mut out: Vec<i64> = Vec::new();
    let mut i: usize = 0;
    while i < slice.len()
        invariant
            i <= slice@.len(),
            out@ == uniq_spec(slice@.subrange(0, i as int)),
        decreases slice@.len() - i,
    {
        proof {
            assert(slice@.subrange(0, i as int + 1).drop_last() == slice@.subrange(0, i as int));
        }
        let x = slice[i];
        if !contains_i64(out.as_slice(), x) {
            out.push(x);
        }
        i = i + 1;
    }
    proof {
        assert(slice@.subrange(0, slice@.len() as int) == slice@);
        lemma_uniq_spec(slice@);
    }
    out
}

/// The elements of `s` that `keep` admits, in order.
pub open spec fn filter_in(s: Seq<i64>, other: Seq<i64>, keep_present: bool) -> Seq<i64>
    decreases s.len(),
{
    if s.len() == 0 {
        Seq::empty()
    } else {
        let p = filter_in(s.drop_last(), other, keep_present);
        if other.contains(s.last()) == keep_present {
            p.push(s.last())
        } else {
            p
        }
    }
}

fn filter_by_membership(a: &[i64], b: &[i64], keep_present: bool) -> (r: Vec<i64>)
    ensures
        r@ == filter_in(a@, b@, keep_present),
{
    let mut out: Vec<i64> = Vec::new();
    let mut i: usize = 0;
    while i < a.len()
        invariant
            i <= a@.len(),
            out@ == filter_in(a@.subrange(0, i as int), b@, keep_present),
        decreases a@.len() - i,
    {
        proof {
            assert(a@.subrange(0, i as int + 1).drop_last() == a@.subrange(0, i as int));
        }
        let x = a[i];
        if contains_i64(b, x) == keep_present {
            out.push(x);
        }
        i = i + 1;
    }
    proof {
        assert(a@.subrange(0, a@.len() as int) == a@);
    }
    out
}

/// The elements of `a` that do not occur in `b`, in order.
pub fn difference(a: &[i64], b: &[i64]) -> (r: Vec<i64>)
    ensures
        r@ == filter_in(a@, b@, false),
{
    filter_by_membership(a, b, false)
}

/// The elements of `a` that occur in `b`, in order.
pub fn intersection(a: &[i64], b: &[i64]) -> (r: Vec<i64>)
    ensures
        r@ == filter_in(a@, b@, true),
{
    filter_by_membership(a, b, true)
}

/// The distinct elements of `a` then `b`, in order of first occurrence.
pub fn union(a: &[i64], b: &[i64]) -> (r: Vec<i64>)
    requires
        a@.len() + b@.len() <= usize::MAX,
    ensures
        r@ == uniq_spec(a@ + b@),
{
    let mut all: Vec<i64> = copy_range(a, 0, a.len());
    let mut rest: Vec<i64> = copy_range(b, 0, b.len());
    proof {
        assert(a@.subrange(0, a@.len() as int) == a@);
        assert(b@.subrange(0, b@.len() as int) == b@);
    }
    all.append(&mut rest);
    uniq(all.as_slice())
}

/// The pieces of `nested` one after another.
pub fn flatten<T: Copy>(nested: &[Vec<T>]) -> (r: Vec<T>)
    ensures
        r@ == nested@.map_values(|v: Vec<T>| v@).flatten(),
{
    let mut out: Vec<T> = Vec::new();
    let mut i: usize = 0;
    while i < nested.len()
        invariant
            i <= nested@.len(),
            out@ == nested@.subrange(0, i as int).map_values(|v: Vec<T>| v@).flatten(),
        decreases nested@.len() - i,
    {
        let piece = &nested[i];
        let mut j: usize = 0;
        let ghost before = out@;
        while j < piece.len()
            invariant
                j <= piece@.len(),
                out@ == before + piece@.subrange(0, j as int),
            decreases piece@.len() - j,
        {
            out.push(piece[j]);
            j = j + 1;
        }
        proof {
            let s = nested@.subrange(0, i as int + 1).map_values(|v: Vec<T>| v@);
            assert(piece@.subrange(0, piece@.len() as int) == piece@);
            assert(s.drop_last() == nested@.subrange(0, i as int).map_values(|v: Vec<T>| v@));
            s.drop_last().lemma_flatten_push(s.last());
            assert(s == s.drop_last().push(s.last()));
        }
        i = i + 1;
    }
    proof {
        assert(nested@.subrange(0, nested@.len() as int) == nested@);
    }
    out
}

/// Index of the first element equal to `item`.
pub fn index_of(slice: &[i64], item: &i64) -> (r: Option<usize>)
    ensures
        match r {
            Some(i) => i < slice@.len() && slice@[i as int] == *item && forall|j: int|
                0 <= j < i ==> slice@[j] != *item,
            None => !slice@.contains(*item),
        },
{
    let mut i: usize = 0;
    while i < slice.len()
        invariant
            i <= slice@.len(),
            forall|j: int| 0 <= j < i ==> slice@[j] != *item,
        decreases slice@.len() - i,
    {
        if slice[i] == *item {
            return Some(i);
        }
        i = i + 1;
    }
    None
}

/// Index of the last element equal to `item`.
pub fn last_index_of(slice: &[i64], item: &i64) -> (r: Option<usize>)
    ensures
        match r {
            Some(i) => i < slice@.len() && slice@[i as int] == *item && forall|j: int|
                i < j < slice@.len() ==> slice@[j] != *item,
            None => !slice@.contains(*item),
        },
{
    let mut i: usize = slice.len();
    while i > 0
        invariant
            i <= slice@.len(),
            forall|j: int| i <= j < slice@.len() ==> slice@[j] != *item,
        decreases i,
    {
        if slice[i - 1] == *item {
            return Some(i - 1);
        }
        i = i - 1;
    }
    None
}

/// The first `n` elements (all of them when there are fewer).
pub fn take<T: Copy>(slice: &[T], n: usize) -> (r: Vec<T>)
    ensures
        r@ == slice@.subrange(0, min_int(n as int, slice@.len() as int)),
{
    let end = if n < slice.len() {
        n
    } else {
        slice.len()
    };
    copy_range(slice, 0, end)
}

/// All but the first `n` elements.
pub fn drop<T: Copy>(slice: &[T], n: usize) -> (r: Vec<T>)
    ensures
        r@ == slice@.subrange(min_int(n as int, slice@.len() as int), slice@.len() as int),
{
    let start = if n < slice.len() {
        n
    } else {
        slice.len()
    };
    copy_range(slice, start, slice.len())
}

/// The last `n` elements (all of them when there are fewer).
pub fn take_right<T: Copy>(slice: &[T], n: usize) -> (r: Vec<T>)
    ensures
        r@ == slice@.subrange(
            slice@.len() - min_int(n as int, slice@.len() as int),
            slice@.len() as int,
        ),
{
    let start = if n < slice.len() {
        slice.len() - n
    } else {
        0
    };
    copy_range(slice, start, slice.len())
}

/// All but the last `n` elements.
pub fn drop_right<T: Copy>(slice: &[T], n: usize) -> (r: Vec<T>)
    ensures
        r@ == slice@.subrange(0, slice@.len() - min_int(n as int, slice@.len() as int)),
{
    let end = slice.len().saturating_sub(n);
    copy_range(slice, 0, end)
}

/// The longest prefix whose elements all satisfy `f`.
pub fn take_while<T: Copy, F: Fn(&T) -> bool>(slice: &[T], f: F) -> (r: Vec<T>)
    requires
        forall|x: &T| f.requires((x,)),
    ensures
        r@.len() <= slice@.len(),
        r@ == slice@.subrange(0, r@.len() as int),
        forall|j: int| 0 <= j < r@.len() ==> f.ensures((&slice@[j],), true),
        r@.len() < slice@.len() ==> f.ensures((&slice@[r@.len() as int],), false),
{
    let mut i: usize = 0;
    let mut go = true;
    while go && i < slice.len()
        invariant
            i <= slice@.len(),
            forall|x: &T| f.requires((x,)),
            forall|j: int| 0 <= j < i ==> f.ensures((&slice@[j],), true),
            !go ==> i < slice@.len() && f.ensures((&slice@[i as int],), false),
        decreases slice@.len() - i + (if go {
            1int
        } else {
            0int
        }),
    {
        if f(&slice[i]) {
            i = i + 1;
        } else {
            go = false;
        }
    }
    copy_range(slice, 0, i)
}

/// What follows the longest prefix whose elements all satisfy `f`.
pub fn drop_while<T: Copy, F: Fn(&T) -> bool>(slice: &[T], f: F) -> (r: Vec<T>)
    requires
        forall|x: &T| f.requires((x,)),
    ensures
        r@.len() <= slice@.len(),
        r@ == slice@.subrange(slice@.len() - r@.len(), slice@.len() as int),
        forall|j: int| 0 <= j < slice@.len() - r@.len() ==> f.ensures((&slice@[j],), true),
        r@.len() > 0 ==> f.ensures((&slice@[slice@.len() - r@.len()],), false),
{
    let mut i: usize = 0;
    let mut go = true;
    while go && i < slice.len()
        invariant
            i <= slice@.len(),
            forall|x: &T| f.requires((x,)),
            forall|j: int| 0 <= j < i ==> f.ensures((&slice@[j],), true),
            !go ==> i < slice@.len() && f.ensures((&slice@[i as int],), false),
        decreases slice@.len() - i + (if go {
            1int
        } else {
            0int
        }),
    {
        if f(&slice[i]) {
            i = i + 1;
        } else {
            go = false;
        }
    }
    copy_range(slice, i, slice.len())
}

/// Swap two entries in place; the multiset of entries is unchanged.
fn swap_entries<T: Copy>(v: &mut Vec<T>, i: usize, j: usize)
    requires
        i < old(v)@.len(),
        j < old(v)@.len(),
    ensures
        final(v)@ == old(v)@.update(i as int, old(v)@[j as int]).update(j as int, old(v)@[i as int]),
        final(v)@.to_multiset() == old(v)@.to_multiset(),
{
    broadcast use vstd::seq_lib::to_multiset_update, vstd::multiset::group_multiset_axioms;

    let ghost s = v@;
    let a = v[i];
    let b = v[j];
    v[i] = b;
    v[j] = a;
    proof {
        let s1 = s.update(i as int, s[j as int]);
        assert(s1.to_multiset() == s.to_multiset().insert(s[j as int]).remove(s[i as int]));
        assert(s1.update(j as int, s[i as int]).to_multiset() == s1.to_multiset().insert(
            s[i as int],
        ).remove(s1[j as int]));
        if i == j {
            assert(s1 == s);
            assert(s1.update(j as int, s[i as int]) == s);
        } else {
            assert(s1[j as int] == s[j as int]);
            let m = s.to_multiset();
            let a = s[j as int];
            let b = s[i as int];
            assert(m.count(a) > 0 && m.count(b) > 0) by {
                vstd::seq_lib::to_multiset_contains(s, a);
                vstd::seq_lib::to_multiset_contains(s, b);
                assert(s.contains(a) && s.contains(b));
            }
            let m2 = m.insert(a).remove(b).insert(b).remove(a);
            assert forall|x: T| m2.count(x) == m.count(x) by {}
            assert(m2 =~= m);
        }
        assert(v@ == s1.update(j as int, s[i as int]));
    }
}

/// Swap the entries at `i` and `j`; returns false, changing nothing, when
/// either index is out of range.
pub fn swap<T: Copy>(v: &mut Vec<T>, i: usize, j: usize) -> (r: bool)
    ensures
        r == (i < old(v)@.len() && j < old(v)@.len()),
        r ==> final(v)@ == old(v)@.update(i as int, old(v)@[j as int]).update(
            j as int,
            old(v)@[i as int],
        ),
        !r ==> final(v)@ == old(v)@,
{
    if i >= v.len() || j >= v.len() {
        false
    } else {
        swap_entries(v, i, j);
        true
    }
}

/// `s` rotated left by `k` places.
pub open spec fn rotated_left<T>(s: Seq<T>, k: int) -> Seq<T> {
    s.subrange(k, s.len() as int) + s.subrange(0, k)
}

/// Rotate left by `n` places (modulo the length).
pub fn rotate_left<T: Copy>(v: &mut Vec<T>, n: usize)
    ensures
        old(v)@.len() == 0 ==> final(v)@ == old(v)@,
        old(v)@.len() > 0 ==> final(v)@ == rotated_left(old(v)@, n as int % old(v)@.len() as int),
{
    let len = v.len();
    if len == 0 {
        return;
    }
    let k = n % len;
    let mut out = copy_range(v.as_slice(), k, len);
    let mut front = copy_range(v.as_slice(), 0, k);
    out.append(&mut front);
    *v = out;
}

/// Rotate right by `n` places (modulo the length).
pub fn rotate_right<T: Copy>(v: &mut Vec<T>, n: usize)
    ensures
        old(v)@.len() == 0 ==> final(v)@ == old(v)@,
        old(v)@.len() > 0 ==> final(v)@ == rotated_left(
            old(v)@,
            (old(v)@.len() - n as int % old(v)@.len() as int) % old(v)@.len() as int,
        ),
{
    let len = v.len();
    if len == 0 {
        return;
    }
    let k = (len - n % len) % len;
    let mut out = copy_range(v.as_slice(), k, len);
    let mut front = copy_range(v.as_slice(), 0, k);
    out.append(&mut front);
    *v = out;
}

/// `sep` between consecutive elements of `slice`.
pub fn intersperse<T: Copy>(slice: &[T], sep: T) -> (r: Vec<T>)
    requires
        slice@.len() * 2 <= usize::MAX,
    ensures
        slice@.len() == 0 ==> r@.len() == 0,
        slice@.len() > 0 ==> r@.len() == 2 * slice@.len() - 1,
        forall|j: int| 0 <= j < slice@.len() ==> r@[2 * j] == slice@[j],
        forall|j: int| 0 <= j < slice@.len() - 1 ==> #[trigger] r@[2 * j + 1] == sep,
{
    let mut out: Vec<T> = Vec::new();
    let mut i: usize = 0;
    while i < slice.len()
        invariant
            i <= slice@.len(),
            i == 0 ==> out@.len() == 0,
            i > 0 ==> out@.len() == 2 * i - 1,
            forall|j: int| 0 <= j < i ==> out@[2 * j] == slice@[j],
            forall|j: int| 0 <= j < i - 1 ==> #[trigger] out@[2 * j + 1] == sep,
        decreases slice@.len() - i,
    {
        if i > 0 {
            out.push(sep);
        }
        out.push(slice[i]);
        i = i + 1;
    }
    out
}

/// Windows of `size` elements, starting every `step` elements; no windows
/// when either is zero.
pub fn sliding_window<T: Copy>(slice: &[T], size: usize, step: usize) -> (r: Vec<Vec<T>>)
    ensures
        size == 0 || step == 0 ==> r@.len() == 0,
        size > 0 && step > 0 ==> {
            &&& forall|j: int|
                0 <= j < r@.len() ==> (#[trigger] r@[j])@ == slice@.subrange(
                    j * step,
                    j * step + size,
                )
            &&& r@.len() == 0 || (r@.len() - 1) * step + size <= slice@.len()
            &&& r@.len() * step + size > slice@.len()
        },
{
    let mut out: Vec<Vec<T>> = Vec::new();
    if size == 0 || step == 0 {
        return out;
    }
    let n = slice.len();
    let mut i: usize = 0;
    let mut go = true;
    proof {
        assert(0 * step == 0) by (nonlinear_arith);
    }
    while go
        invariant
            size > 0,
            step > 0,
            n == slice@.len(),
            i <= n,
            go ==> i == out@.len() * step,
            !go ==> out@.len() * step + size > n,
            out@.len() == 0 || (out@.len() - 1) * step + size <= n,
            forall|j: int|
                0 <= j < out@.len() ==> (#[trigger] out@[j])@ == slice@.subrange(
                    j * step,
                    j * step + size,
                ),
        decreases n + step - i + (if go {
            1int
        } else {
            0int
        }),
    {
        if size > n - i {
            go = false;
        } else {
            let w = copy_range(slice, i, i + size);
            let ghost len = out@.len();
            let ghost prev = out@;
            proof {
                assert(len * step + step == (len + 1) * step) by (nonlinear_arith);
            }
            out.push(w);
            proof {
                assert((len + 1 - 1) * step == len * step);
                assert forall|j: int| 0 <= j < out@.len() implies (#[trigger] out@[j])@
                    == slice@.subrange(j * step, j * step + size) by {
                    if j < len {
                        assert(out@[j] == prev[j]);
                    } else {
                        assert(j == len);
                        assert(out@[j] == w);
                    }
                }
            }
            if n - i < step {
                go = false;
            } else {
                i = i + step;
            }
        }
    }
    out
}

/// Every pair of an element of `a` with an element of `b`, `a`-major.
pub open spec fn product<A, B>(a: Seq<A>, b: Seq<B>) -> Seq<(A, B)>
    decreases a.len(),
{
    if a.len() == 0 {
        Seq::empty()
    } else {
        product(a.drop_last(), b) + b.map_values(|y: B| (a.last(), y))
    }
}

/// Every pair of an element of `a` with an element of `b`, `a`-major.
pub fn cartesian_product<A: Copy, B: Copy>(a: &[A], b: &[B]) -> (r: Vec<(A, B)>)
    ensures
        r@ == product(a@, b@),
{
    let mut out: Vec<(A, B)> = Vec::new();
    let mut i: usize = 0;
    while i < a.len()
        invariant
            i <= a@.len(),
            out@ == product(a@.subrange(0, i as int), b@),
        decreases a@.len() - i,
    {
        let ghost before = out@;
        let x = a[i];
        let mut j: usize = 0;
        while j < b.len()
            invariant
                i < a@.len(),
                x == a@[i as int],
                j <= b@.len(),
                out@ == before + b@.subrange(0, j as int).map_values(|y: B| (x, y)),
            decreases b@.len() - j,
        {
            out.push((x, b[j]));
            proof {
                assert(b@.subrange(0, j as int + 1).map_values(|y: B| (x, y)) == b@.subrange(
                    0,
                    j as int,
                ).map_values(|y: B| (x, y)).push((x, b@[j as int])));
            }
            j = j + 1;
        }
        proof {
            assert(b@.subrange(0, b@.len() as int) == b@);
            let s = a@.subrange(0, i as int + 1);
            assert(s.drop_last() == a@.subrange(0, i as int));
            assert(s.last() == x);
        }
        i = i + 1;
    }
    proof {
        assert(a@.subrange(0, a@.len() as int) == a@);
    }
    out
}

/// The elements that occur more than once, each once, in order of their
/// second occurrence.
pub open spec fn dups_spec(s: Seq<i64>) -> Seq<i64>
    decreases s.len(),
{
    if s.len() == 0 {
        Seq::empty()
    } else {
        let p = dups_spec(s.drop_last());
        if s.drop_last().contains(s.last()) && !p.contains(s.last()) {
            p.push(s.last())
        } else {
            p
        }
    }
}

/// The elements that occur more than once, each listed once.
pub fn find_duplicates(slice: &[i64]) -> (r: Vec<i64>)
    ensures
        r@ == dups_spec(slice@),
{
    let mut seen: Vec<i64> = Vec::new();
    let mut out: Vec<i64> = Vec::new();
    let mut i: usize = 0;
    while i < slice.len()
        invariant
            i <= slice@.len(),
            seen@ == slice@.subrange(0, i as int),
            out@ == dups_spec(slice@.subrange(0, i as int)),
        decreases slice@.len() - i,
    {
        proof {
            assert(slice@.subrange(0, i as int + 1).drop_last() == slice@.subrange(0, i as int));
        }
        let x = slice[i];
        if contains_i64(seen.as_slice(), x) && !contains_i64(out.as_slice(), x) {
            out.push(x);
        }
        seen.push(x);
        i = i + 1;
    }
    proof {
        assert(slice@.subrange(0, slice@.len() as int) == slice@);
    }
    out
}

/// Whether each element is at most the next.
pub fn is_sorted(slice: &[i64]) -> (r: bool)
    ensures
        r == forall|j: int| 0 <= j < slice@.len() - 1 ==> slice@[j] <= #[trigger] slice@[j + 1],
{
    let mut i: usize = 1;
    while i < slice.len()
        invariant
            1 <= i,
            forall|j: int| 0 <= j < i - 1 && j < slice@.len() - 1 ==> slice@[j] <= #[trigger] slice@[j + 1],
        decreases slice@.len() - i,
    {
        if slice[i - 1] > slice[i] {
            proof {
                assert(slice@[(i - 1) + 1] == slice@[i as int]);
            }
            return false;
        }
        i = i + 1;
    }
    true
}

/// Move the entry at `from` to position `to`; returns false, changing
/// nothing, when either index is out of range.
pub fn move_item<T: Copy>(v: &mut Vec<T>, from: usize, to: usize) -> (r: bool)
    ensures
        r == (from < old(v)@.len() && to < old(v)@.len()),
        r ==> final(v)@ == old(v)@.remove(from as int).insert(to as int, old(v)@[from as int]),
        !r ==> final(v)@ == old(v)@,
{
    if from >= v.len() || to >= v.len() {
        return false;
    }
    let item = v.remove(from);
    v.insert(to, item);
    true
}

/// The pairs' first and second components, in order.
pub fn unzip<K: Copy, V: Copy>(pairs: &[(K, V)]) -> (r: (Vec<K>, Vec<V>))
    ensures
        r.0@.len() == pairs@.len(),
        r.1@.len() == pairs@.len(),
        forall|j: int| 0 <= j < pairs@.len() ==> r.0@[j] == pairs@[j].0 && r.1@[j] == pairs@[j].1,
{
    let mut ks: Vec<K> = Vec::new();
    let mut vs: Vec<V> = Vec::new();
    let mut i: usize = 0;
    while i < pairs.len()
        invariant
            i <= pairs@.len(),
            ks@.len() == i,
            vs@.len() == i,
            forall|j: int| 0 <= j < i ==> ks@[j] == pairs@[j].0 && vs@[j] == pairs@[j].1,
        decreases pairs@.len() - i,
    {
        let (k, x) = pairs[i];
        ks.push(k);
        vs.push(x);
        i = i + 1;
    }
    (ks, vs)
}

/// Shuffle in place (Fisher-Yates on a clock-seeded generator): the
/// result holds the same elements, each as often.
pub fn shuffle_in_place<T: Copy>(v: &mut Vec<T>)
    ensures
        final(v)@.len() == old(v)@.len(),
        final(v)@.to_multiset() == old(v)@.to_multiset(),
{
    let mut g = Lcg::new(clock_seed());
    let mut i = v.len();
    while i > 1
        invariant
            i <= v@.len(),
            v@.len() == old(v)@.len(),
            v@.to_multiset() == old(v)@.to_multiset(),
        decreases i,
    {
        i = i - 1;
        let j = (g.next_u64() as usize) % (i + 1);
        swap_entries(v, i, j);
    }
}

/// A pseudo-random element, `None` when the slice is empty.
pub fn sample<T>(slice: &[T]) -> (r: Option<&T>)
    ensures
        r is None <==> slice@.len() == 0,
        r is Some ==> exists|i: int| 0 <= i < slice@.len() && *r->Some_0 == slice@[i],
{
    crate::random::random_choice(slice)
}

/// Entry `c` of row `k`, or the matrix's first entry where the row is
/// too short.
pub open spec fn cell_or_first<T>(matrix: Seq<Vec<T>>, k: int, c: int) -> T {
    if c < matrix[k]@.len() {
        matrix[k]@[c]
    } else {
        matrix[0]@[0]
    }
}

/// Rows and columns swapped. The first row decides the number of columns:
/// longer rows are cut, and gaps in shorter rows are filled with the first
/// entry of the matrix (which must therefore exist when there are rows).
pub fn transpose<T: Copy>(matrix: &[Vec<T>]) -> (r: Vec<Vec<T>>)
    requires
        matrix@.len() > 0 ==> matrix@[0]@.len() > 0,
    ensures
        matrix@.len() == 0 ==> r@.len() == 0,
        matrix@.len() > 0 ==> {
            &&& r@.len() == matrix@[0]@.len()
            &&& forall|c: int|
                0 <= c < r@.len() ==> (#[trigger] r@[c])@.len() == matrix@.len()
            &&& forall|c: int, k: int|
                0 <= c < r@.len() && 0 <= k < matrix@.len() ==> #[trigger] r@[c]@[k]
                    == cell_or_first(matrix@, k, c)
        },
{
    let mut out: Vec<Vec<T>> = Vec::new();
    if matrix.len() == 0 {
        return out;
    }
    let first = matrix[0][0];
    let cols = matrix[0].len();
    let rows = matrix.len();
    let mut c: usize = 0;
    while c < cols
        invariant
            rows == matrix@.len(),
            rows > 0,
            cols == matrix@[0]@.len(),
            cols > 0,
            first == matrix@[0]@[0],
            c <= cols,
            out@.len() == c,
            forall|x: int| 0 <= x < c ==> (#[trigger] out@[x])@.len() == rows,
            forall|x: int, k: int|
                0 <= x < c && 0 <= k < rows ==> #[trigger] out@[x]@[k] == cell_or_first(
                    matrix@,
                    k,
                    x,
                ),
        decreases cols - c,
    {
        let mut col: Vec<T> = Vec::new();
        let mut k: usize = 0;
        while k < rows
            invariant
                rows == matrix@.len(),
                rows > 0,
                cols > 0,
                first == matrix@[0]@[0],
                c < cols,
                k <= rows,
                col@.len() == k,
                forall|y: int| 0 <= y < k ==> #[trigger] col@[y] == cell_or_first(matrix@, y, c as int),
            decreases rows - k,
        {
            let row = &matrix[k];
            let v = if c < row.len() {
                row[c]
            } else {
                first
            };
            col.push(v);
            k = k + 1;
        }
        let ghost prev = out@;
        out.push(col);
        proof {
            assert forall|x: int, k: int|
                0 <= x < c + 1 && 0 <= k < rows implies #[trigger] out@[x]@[k] == cell_or_first(
                matrix@,
                k,
                x,
            ) by {
                if x < c {
                    assert(out@[x] == prev[x]);
                }
            }
            assert forall|x: int| 0 <= x < c + 1 implies (#[trigger] out@[x])@.len() == rows by {
                if x < c {
                    assert(out@[x] == prev[x]);
                }
            }
        }
        c = c + 1;
    }
    out
}

/// The elements for which `f` holds, then those for which it does not,
/// each in order.
pub fn partition<T: Copy, F: Fn(&T) -> bool>(slice: &[T], f: F) -> (r: (Vec<T>, Vec<T>))
    requires
        forall|x: &T| f.requires((x,)),
    ensures
        exists|keep: Seq<bool>|
            {
                &&& keep.len() == slice@.len()
                &&& forall|j: int| 0 <= j < slice@.len() ==> f.ensures((&slice@[j],), #[trigger] keep[j])
                &&& r.0@ == select(slice@, keep, true)
                &&& r.1@ == select(slice@, keep, false)
            },
{
    let mut yes: Vec<T> = Vec::new();
    let mut no: Vec<T> = Vec::new();
    let ghost mut keep: Seq<bool> = Seq::empty();
    let mut i: usize = 0;
    while i < slice.len()
        invariant
            i <= slice@.len(),
            forall|x: &T| f.requires((x,)),
            keep.len() == i,
            forall|j: int| 0 <= j < i ==> f.ensures((&slice@[j],), #[trigger] keep[j]),
            yes@ == select(slice@.subrange(0, i as int), keep, true),
            no@ == select(slice@.subrange(0, i as int), keep, false),
        decreases slice@.len() - i,
    {
        let b = f(&slice[i]);
        proof {
            let s2 = slice@.subrange(0, i as int + 1);
            assert(s2.drop_last() == slice@.subrange(0, i as int));
            assert(keep.push(b).drop_last() == keep);
            lemma_select_prefix(slice@.subrange(0, i as int), keep, true);
            lemma_select_prefix(slice@.subrange(0, i as int), keep, false);
            keep = keep.push(b);
        }
        if b {
            yes.push(slice[i]);
        } else {
            no.push(slice[i]);
        }
        i = i + 1;
    }
    proof {
        assert(slice@.subrange(0, slice@.len() as int) == slice@);
    }
    (yes, no)
}

/// The elements of `s` whose flag in `keep` equals `which`, in order.
pub open spec fn select<T>(s: Seq<T>, keep: Seq<bool>, which: bool) -> Seq<T>
    decreases s.len(),
{
    if s.len() == 0 || keep.len() < s.len() {
        Seq::empty()
    } else {
        let p = select(s.drop_last(), keep.subrange(0, s.len() - 1), which);
        if keep[s.len() - 1] == which {
            p.push(s.last())
        } else {
            p
        }
    }
}

proof fn lemma_select_prefix<T>(s: Seq<T>, keep: Seq<bool>, which: bool)
    requires
        keep.len() == s.len(),
    ensures
        forall|b: bool, x: T|
            #[trigger] select(s.push(x), keep.push(b), which) == (if b == which {
                select(s, keep, which).push(x)
            } else {
                select(s, keep, which)
            }),
{
    assert forall|b: bool, x: T|
        #[trigger] select(s.push(x), keep.push(b), which) == (if b == which {
            select(s, keep, which).push(x)
        } else {
            select(s, keep, which)
        }) by {
        assert(s.push(x).drop_last() == s);
        assert(keep.push(b).subrange(0, s.len() as int) == keep);
    }
}

/// Binary search with a comparator that orders the probe against the
/// target: `Less` means look right. Returns an index where `cmp` gives
/// `Equal`, or `None` when the search closes without one.
pub fn binary_search_by<T, F: Fn(&T) -> std::cmp::Ordering>(v: &[T], cmp: F) -> (r: Option<usize>)
    requires
        forall|x: &T| cmp.requires((x,)),
    ensures
        r is Some ==> r->Some_0 < v@.len() && cmp.ensures((&v@[r->Some_0 as int],), std::cmp::Ordering::Equal),
{
    let mut low: usize = 0;
    let mut high: usize = v.len();
    while low < high
        invariant
            low <= high <= v@.len(),
            forall|x: &T| cmp.requires((x,)),
        decreases high - low,
    {
        let mid = low + (high - low) / 2;
        match cmp(&v[mid]) {
            std::cmp::Ordering::Less => low = mid + 1,
            std::cmp::Ordering::Greater => high = mid,
            std::cmp::Ordering::Equal => return Some(mid),
        }
    }
    None
}

/// Count of each key among `keys`.
pub open spec fn count_spec(keys: Seq<usize>) -> Map<usize, nat>
    decreases keys.len(),
{
    if keys.len() == 0 {
        Map::empty()
    } else {
        let m = count_spec(keys.drop_last());
        let k = keys.last();
        m.insert(k, if m.contains_key(k) {
            m[k] + 1
        } else {
            1
        })
    }
}

proof fn lemma_count_bound(keys: Seq<usize>, k: usize)
    ensures
        count_spec(keys).contains_key(k) ==> count_spec(keys)[k] <= keys.len(),
    decreases keys.len(),
{
    if keys.len() > 0 {
        lemma_count_bound(keys.drop_last(), k);
    }
}

/// How many elements `f` sends to each key.
pub fn count_by<T, F: Fn(&T) -> usize>(slice: &[T], f: F) -> (r: HashMap<usize, usize>)
    requires
        forall|x: &T| f.requires((x,)),
    ensures
        exists|keys: Seq<usize>|
            {
                &&& keys.len() == slice@.len()
                &&& forall|j: int| 0 <= j < slice@.len() ==> f.ensures((&slice@[j],), #[trigger] keys[j])
                &&& r@.dom() == count_spec(keys).dom()
                &&& forall|k: usize| #[trigger] r@.contains_key(k) ==> r@[k] == count_spec(keys)[k]
            },
{
    broadcast use vstd::std_specs::hash::group_hash_axioms;

    let mut map: HashMap<usize, usize> = HashMap::new();
    let ghost mut keys: Seq<usize> = Seq::empty();
    let mut i: usize = 0;
    while i < slice.len()
        invariant
            i <= slice@.len(),
            forall|x: &T| f.requires((x,)),
            keys.len() == i,
            forall|j: int| 0 <= j < i ==> f.ensures((&slice@[j],), #[trigger] keys[j]),
            map@.dom() == count_spec(keys).dom(),
            forall|k: usize| #[trigger] map@.contains_key(k) ==> map@[k] == count_spec(keys)[k],
        decreases slice@.len() - i,
    {
        let k = f(&slice[i]);
        proof {
            lemma_count_bound(keys, k);
        }
        let c = match map.get(&k) {
            Some(c) => *c,
            None => 0,
        };
        map.insert(k, c + 1);
        proof {
            let ghost old_keys = keys;
            keys = keys.push(k);
            assert(keys.drop_last() == old_keys);
            assert(map@.dom() =~= count_spec(keys).dom());
        }
        i = i + 1;
    }
    map
}

/// Elements grouped by key, each group in order.
pub open spec fn group_spec<T>(s: Seq<T>, keys: Seq<usize>) -> Map<usize, Seq<T>>
    decreases s.len(),
{
    if s.len() == 0 || keys.len() < s.len() {
        Map::empty()
    } else {
        let m = group_spec(s.drop_last(), keys.subrange(0, s.len() - 1));
        let k = keys[s.len() - 1];
        m.insert(k, if m.contains_key(k) {
            m[k].push(s.last())
        } else {
            seq![s.last()]
        })
    }
}

/// The elements grouped by the key `f` gives them, each group in order.
pub fn group_by<T: Copy, F: Fn(&T) -> usize>(slice: &[T], f: F) -> (r: HashMap<usize, Vec<T>>)
    requires
        forall|x: &T| f.requires((x,)),
    ensures
        exists|keys: Seq<usize>|
            {
                &&& keys.len() == slice@.len()
                &&& forall|j: int| 0 <= j < slice@.len() ==> f.ensures((&slice@[j],), #[trigger] keys[j])
                &&& r@.dom() == group_spec(slice@, keys).dom()
                &&& forall|k: usize| #[trigger] r@.contains_key(k) ==> r@[k]@ == group_spec(slice@, keys)[k]
            },
{
    broadcast use vstd::std_specs::hash::group_hash_axioms;

    let mut map: HashMap<usize, Vec<T>> = HashMap::new();
    let ghost mut keys: Seq<usize> = Seq::empty();
    let mut i: usize = 0;
    while i < slice.len()
        invariant
            i <= slice@.len(),
            forall|x: &T| f.requires((x,)),
            keys.len() == i,
            forall|j: int| 0 <= j < i ==> f.ensures((&slice@[j],), #[trigger] keys[j]),
            map@.dom() == group_spec(slice@.subrange(0, i as int), keys).dom(),
            forall|k: usize| #[trigger] map@.contains_key(k) ==> map@[k]@ == group_spec(slice@.subrange(0, i as int), keys)[k],
        decreases slice@.len() - i,
    {
        let k = f(&slice[i]);
        let mut bucket = match map.remove(&k) {
            Some(b) => b,
            None => Vec::new(),
        };
        bucket.push(slice[i]);
        map.insert(k, bucket);
        proof {
            let ghost old_keys = keys;
            let ghost p = slice@.subrange(0, i as int);
            keys = keys.push(k);
            let s2 = slice@.subrange(0, i as int + 1);
            assert(s2.drop_last() == p);
            assert(keys.subrange(0, i as int) == old_keys);
            assert(map@.dom() =~= group_spec(s2, keys).dom());
        }
        i = i + 1;
    }
    proof {
        assert(slice@.subrange(0, slice@.len() as int) == slice@);
    }
    map
}

/// Map from each key to the last element of `s` with that key.
pub open spec fn last_by_key<T>(s: Seq<T>, keys: Seq<usize>) -> Map<usize, T>
    decreases s.len(),
{
    if s.len() == 0 || keys.len() < s.len() {
        Map::empty()
    } else {
        last_by_key(s.drop_last(), keys.subrange(0, s.len() - 1)).insert(keys[s.len() - 1], s.last())
    }
}

/// Each element under the key `f` gives it; a later element replaces an
/// earlier one with the same key.
pub fn key_by<T: Copy, F: Fn(&T) -> usize>(slice: &[T], f: F) -> (r: HashMap<usize, T>)
    requires
        forall|x: &T| f.requires((x,)),
    ensures
        exists|keys: Seq<usize>|
            {
                &&& keys.len() == slice@.len()
                &&& forall|j: int| 0 <= j < slice@.len() ==> f.ensures((&slice@[j],), #[trigger] keys[j])
                &&& r@ == last_by_key(slice@, keys)
            },
{
    broadcast use vstd::std_specs::hash::group_hash_axioms;

    let mut map: HashMap<usize, T> = HashMap::new();
    let ghost mut keys: Seq<usize> = Seq::empty();
    let mut i: usize = 0;
    while i < slice.len()
        invariant
            i <= slice@.len(),
            forall|x: &T| f.requires((x,)),
            keys.len() == i,
            forall|j: int| 0 <= j < i ==> f.ensures((&slice@[j],), #[trigger] keys[j]),
            map@ == last_by_key(slice@.subrange(0, i as int), keys),
        decreases slice@.len() - i,
    {
        let k = f(&slice[i]);
        map.insert(k, slice[i]);
        proof {
            let ghost old_keys = keys;
            keys = keys.push(k);
            assert(slice@.subrange(0, i as int + 1).drop_last() == slice@.subrange(0, i as int));
            assert(keys.subrange(0, i as int) == old_keys);
        }
        i = i + 1;
    }
    proof {
        assert(slice@.subrange(0, slice@.len() as int) == slice@);
    }
    map
}

/// Map pairing `keys[i]` with `values[i]`, as far as the shorter goes; a
/// later key replaces an earlier equal one.
pub open spec fn zip_spec<K, V>(keys: Seq<K>, values: Seq<V>) -> Map<K, V>
    decreases keys.len(),
{
    if keys.len() == 0 {
        Map::empty()
    } else if keys.len() > values.len() {
        zip_spec(keys.drop_last(), values)
    } else {
        zip_spec(keys.drop_last(), values).insert(keys.last(), values[keys.len() - 1])
    }
}

/// A map pairing each key with the value at the same position, as far as
/// the shorter slice goes. The contract holds for key types whose `Eq` and
/// `Hash` behave as the map model requires (integers among them).
pub fn zip_object<K: Eq + std::hash::Hash + Copy, V: Copy>(keys: &[K], values: &[V]) -> (r:
    HashMap<K, V>)
    ensures
        vstd::std_specs::hash::obeys_key_model::<K>() ==> r@ == zip_spec(keys@, values@),
{
    let mut map: HashMap<K, V> = HashMap::new();
    let mut i: usize = 0;
    while i < keys.len() && i < values.len()
        invariant
            i <= keys@.len(),
            i <= values@.len(),
            vstd::std_specs::hash::obeys_key_model::<K>() ==> map@ == zip_spec(
                keys@.subrange(0, i as int),
                values@,
            ),
        decreases keys@.len() - i,
    {
        map.insert(keys[i], values[i]);
        proof {
            assert(keys@.subrange(0, i as int + 1).drop_last() == keys@.subrange(0, i as int));
        }
        i = i + 1;
    }
    proof {
        lemma_zip_tail(keys@, values@, i as int);
    }
    map
}

proof fn lemma_zip_tail<K, V>(keys: Seq<K>, values: Seq<V>, i: int)
    requires
        0 <= i <= keys.len(),
        i == keys.len() || i == values.len(),
    ensures
        zip_spec(keys.subrange(0, i), values) == zip_spec(keys, values),
    decreases keys.len() - i,
{
    if i < keys.len() {
        lemma_zip_tail(keys.drop_last(), values, if i < keys.len() - 1 {
            i
        } else {
            keys.len() - 1
        });
        assert(keys.drop_last().subrange(0, i) == keys.subrange(0, i));
    } else {
        assert(keys.subrange(0, i) == keys);
    }
}

} // verus!
