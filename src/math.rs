//! Integer arithmetic helpers: signs, saturating sums, gcd and lcm,
//! factorials, Fibonacci numbers, primes, clamping.
use vstd::prelude::*;

use vstd::arithmetic::div_mod::{
    lemma_div_is_ordered_by_denominator, lemma_fundamental_div_mod, lemma_mod_multiples_basic,
};

verus! {

/// Sign of `value`: 1, -1 or 0.
pub fn signum_zero(value: i64) -> (r: i8)
    ensures
        r == (if value > 0 {
            1i8
        } else if value < 0 {
            -1i8
        } else {
            0i8
        }),
{
    if value > 0 {
        1
    } else if value < 0 {
        -1
    } else {
        0
    }
}

/// `a + b` clamped to the range of `i64`.
pub open spec fn sat_add_i64(a: int, b: int) -> int {
    if a + b > i64::MAX {
        i64::MAX as int
    } else if a + b < i64::MIN {
        i64::MIN as int
    } else {
        a + b
    }
}

/// Left-to-right sum of `s`, saturating at each step.
pub open spec fn sat_sum(s: Seq<i64>) -> int
    decreases s.len(),
{
    if s.len() == 0 {
        0
    } else {
        sat_add_i64(sat_sum(s.drop_last()), s.last() as int)
    }
}

/// Sum of `values`, saturating at each step.
pub fn sum_i64_saturating(values: &[i64]) -> (r: i64)
    ensures
        r == sat_sum(values@),
{
    let mut acc: i64 = 0;
    let mut i: usize = 0;
    while i < values.len()
        invariant
            i <= values@.len(),
            acc == sat_sum(values@.subrange(0, i as int)),
        decreases values@.len() - i,
    {
        proof {
            assert(values@.subrange(0, i as int + 1).drop_last() == values@.subrange(0, i as int));
        }
        let x = values[i];
        acc = match acc.checked_add(x) {
            Some(v) => v,
            None => if x > 0 {
                i64::MAX
            } else {
                i64::MIN
            },
        };
        i = i + 1;
    }
    proof {
        assert(values@.subrange(0, values@.len() as int) == values@);
    }
    acc
}

/// Plain sum of `s`.
pub open spec fn seq_sum(s: Seq<i64>) -> int
    decreases s.len(),
{
    if s.len() == 0 {
        0
    } else {
        seq_sum(s.drop_last()) + s.last()
    }
}

/// Sum of `values`; every running sum must fit in an `i64`.
pub fn sum(values: &[i64]) -> (r: i64)
    requires
        forall|k: int|
            0 <= k <= values@.len() ==> i64::MIN <= #[trigger] seq_sum(values@.subrange(0, k))
                <= i64::MAX,
    ensures
        r == seq_sum(values@),
{
    let mut acc: i64 = 0;
    let mut i: usize = 0;
    while i < values.len()
        invariant
            i <= values@.len(),
            acc == seq_sum(values@.subrange(0, i as int)),
            forall|k: int|
                0 <= k <= values@.len() ==> i64::MIN <= #[trigger] seq_sum(
                    values@.subrange(0, k),
                ) <= i64::MAX,
        decreases values@.len() - i,
    {
        proof {
            assert(values@.subrange(0, i as int + 1).drop_last() == values@.subrange(0, i as int));
            assert(i64::MIN <= seq_sum(values@.subrange(0, i as int + 1)) <= i64::MAX);
        }
        acc = acc + values[i];
        i = i + 1;
    }
    proof {
        assert(values@.subrange(0, values@.len() as int) == values@);
    }
    acc
}

/// Greatest common divisor by Euclid's algorithm.
pub open spec fn gcd(a: nat, b: nat) -> nat
    decreases b,
{
    if b == 0 {
        a
    } else {
        gcd(b, a % b)
    }
}

/// A gcd with a positive argument is positive.
pub proof fn lemma_gcd_positive(a: nat, b: nat)
    requires
        a > 0 || b > 0,
    ensures
        gcd(a, b) > 0,
    decreases b,
{
    if b > 0 {
        lemma_gcd_positive(b, a % b);
    }
}

/// Greatest common divisor; `gcd(a, 0) == a`.
pub fn gcd_u64(a: u64, b: u64) -> (r: u64)
    ensures
        r == gcd(a as nat, b as nat),
{
    let mut x = a;
    let mut y = b;
    while y != 0
        invariant
            gcd(x as nat, y as nat) == gcd(a as nat, b as nat),
        decreases y,
    {
        let t = y;
        y = x % y;
        x = t;
    }
    x
}

/// Least common multiple, `a / gcd(a, b) * b`; zero when either is zero.
/// The result must fit in a `u64`.
pub fn lcm_u64(a: u64, b: u64) -> (r: u64)
    requires
        a > 0 && b > 0 ==> (a as nat / gcd(a as nat, b as nat)) * b <= u64::MAX,
    ensures
        r == (if a == 0 || b == 0 {
            0
        } else {
            (a as nat / gcd(a as nat, b as nat)) * b
        }),
{
    if a == 0 || b == 0 {
        0
    } else {
        let g = gcd_u64(a, b);
        proof {
            lemma_gcd_positive(a as nat, b as nat);
        }
        let q = a / g;
        q * b
    }
}

/// `n!`.
pub open spec fn fact(n: nat) -> nat
    decreases n,
{
    if n == 0 {
        1
    } else {
        n * fact((n - 1) as nat)
    }
}

/// Factorials grow with their argument.
proof fn lemma_fact_monotone(i: nat, j: nat)
    requires
        i <= j,
    ensures
        fact(i) <= fact(j),
    decreases j,
{
    if i < j {
        lemma_fact_monotone(i, (j - 1) as nat);
        assert(fact((j - 1) as nat) >= 1) by {
            lemma_fact_positive((j - 1) as nat);
        }
        assert(j * fact((j - 1) as nat) >= fact((j - 1) as nat)) by (nonlinear_arith)
            requires
                j >= 1,
        ;
    }
}

proof fn lemma_fact_positive(n: nat)
    ensures
        fact(n) >= 1,
    decreases n,
{
    if n > 0 {
        lemma_fact_positive((n - 1) as nat);
        assert(n * fact((n - 1) as nat) >= 1) by (nonlinear_arith)
            requires
                n >= 1,
                fact((n - 1) as nat) >= 1,
        ;
    }
}

proof fn lemma_fact_8()
    ensures
        fact(8) == 40320nat,
{
    reveal_with_fuel(fact, 9);
}

proof fn lemma_fact_16()
    ensures
        fact(16) == 20922789888000nat,
{
    lemma_fact_8();
    reveal_with_fuel(fact, 9);
}

proof fn lemma_fact_24()
    ensures
        fact(24) == 620448401733239439360000nat,
{
    lemma_fact_16();
    reveal_with_fuel(fact, 9);
}

proof fn lemma_fact_34()
    ensures
        fact(34) == 295232799039604140847618609643520000000nat,
{
    lemma_fact_24();
    reveal_with_fuel(fact, 11);
}

/// `n!`, for the `n` whose factorial fits in a `u128` (up to 34).
pub fn factorial(n: u32) -> (r: u128)
    requires
        n <= 34,
    ensures
        r == fact(n as nat),
{
    proof {
        lemma_fact_34();
    }
    let mut acc: u128 = 1;
    let mut i: u32 = 0;
    while i < n
        invariant
            i <= n <= 34,
            acc == fact(i as nat),
            fact(34) <= u128::MAX,
        decreases n - i,
    {
        proof {
            lemma_fact_monotone((i + 1) as nat, 34);
            assert(fact((i + 1) as nat) == (i + 1) * fact(i as nat));
            assert(acc * (i + 1) == (i + 1) * fact(i as nat)) by (nonlinear_arith)
                requires
                    acc == fact(i as nat),
            ;
        }
        acc = acc * (i as u128 + 1);
        i = i + 1;
    }
    acc
}

/// The pair `(F(n), F(n + 1))` of Fibonacci numbers.
pub open spec fn fib_pair(n: nat) -> (nat, nat)
    decreases n,
{
    if n == 0 {
        (0, 1)
    } else {
        let p = fib_pair((n - 1) as nat);
        (p.1, p.0 + p.1)
    }
}

/// The `n`-th Fibonacci number, with `F(0) = 0`.
pub open spec fn fib(n: nat) -> nat {
    fib_pair(n).0
}

proof fn lemma_fib_monotone(i: nat, j: nat)
    requires
        i <= j,
    ensures
        fib_pair(i).0 <= fib_pair(j).0,
        fib_pair(i).1 <= fib_pair(j).1,
        fib_pair(j).0 <= fib_pair(j).1,
    decreases j,
{
    if j > 0 {
        if i < j {
            lemma_fib_monotone(i, (j - 1) as nat);
        } else {
            lemma_fib_monotone((j - 1) as nat, (j - 1) as nat);
        }
    }
}

proof fn lemma_fib_16()
    ensures
        fib_pair(16) == (987nat, 1597nat),
{
    reveal_with_fuel(fib_pair, 17);
}

proof fn lemma_fib_32()
    ensures
        fib_pair(32) == (2178309nat, 3524578nat),
{
    lemma_fib_16();
    reveal_with_fuel(fib_pair, 17);
}

proof fn lemma_fib_48()
    ensures
        fib_pair(48) == (4807526976nat, 7778742049nat),
{
    lemma_fib_32();
    reveal_with_fuel(fib_pair, 17);
}

proof fn lemma_fib_64()
    ensures
        fib_pair(64) == (10610209857723nat, 17167680177565nat),
{
    lemma_fib_48();
    reveal_with_fuel(fib_pair, 17);
}

proof fn lemma_fib_80()
    ensures
        fib_pair(80) == (23416728348467685nat, 37889062373143906nat),
{
    lemma_fib_64();
    reveal_with_fuel(fib_pair, 17);
}

proof fn lemma_fib_96()
    ensures
        fib_pair(96) == (51680708854858323072nat, 83621143489848422977nat),
{
    lemma_fib_80();
    reveal_with_fuel(fib_pair, 17);
}

proof fn lemma_fib_112()
    ensures
        fib_pair(112) == (114059301025943970552219nat, 184551825793033096366333nat),
{
    lemma_fib_96();
    reveal_with_fuel(fib_pair, 17);
}

proof fn lemma_fib_128()
    ensures
        fib_pair(128) == (251728825683549488150424261nat, 407305795904080553832073954nat),
{
    lemma_fib_112();
    reveal_with_fuel(fib_pair, 17);
}

proof fn lemma_fib_144()
    ensures
        fib_pair(144) == (555565404224292694404015791808nat, 898923707008479989274290850145nat),
{
    lemma_fib_128();
    reveal_with_fuel(fib_pair, 17);
}

proof fn lemma_fib_160()
    ensures
        fib_pair(160) == (1226132595394188293000174702095995nat, 1983924214061919432247806074196061nat),
{
    lemma_fib_144();
    reveal_with_fuel(fib_pair, 17);
}

proof fn lemma_fib_176()
    ensures
        fib_pair(176) == (2706074082469569338358691163510069157nat, 4378519841510949178490918731459856482nat),
{
    lemma_fib_160();
    reveal_with_fuel(fib_pair, 17);
}

proof fn lemma_fib_186()
    ensures
        fib_pair(186) == (332825110087067562321196029789634457848nat, 538522340430300790495419781092981030533nat),
{
    lemma_fib_176();
    reveal_with_fuel(fib_pair, 11);
}

/// The `n`-th Fibonacci number, for the `n` where the next one fits in a
/// `u128` too (up to 185).
pub fn fibonacci(n: u32) -> (r: u128)
    requires
        n <= 185,
    ensures
        r == fib(n as nat),
{
    proof {
        lemma_fib_186();
        assert(fib_pair(186).0 == 332825110087067562321196029789634457848nat);
    }
    let mut a: u128 = 0;
    let mut b: u128 = 1;
    let mut i: u32 = 0;
    while i < n
        invariant
            i <= n <= 185,
            (a as nat, b as nat) == fib_pair(i as nat),
            fib_pair(186).0 <= u128::MAX,
        decreases n - i,
    {
        proof {
            lemma_fib_monotone((i + 2) as nat, 186);
            reveal_with_fuel(fib_pair, 3);
        }
        let t = a + b;
        a = b;
        b = t;
        i = i + 1;
    }
    a
}

/// Whether `n` is even.
pub fn is_even(n: i64) -> (r: bool)
    ensures
        r == (n % 2 == 0),
{
    n % 2 == 0
}

/// Whether `n` is odd.
pub fn is_odd(n: i64) -> (r: bool)
    ensures
        r == (n % 2 != 0),
{
    n % 2 != 0
}

/// `value` clamped to `[min, max]`; `min` wins when the bounds cross.
pub fn clamp(value: i64, min: i64, max: i64) -> (r: i64)
    ensures
        r == (if value < min {
            min
        } else if value > max {
            max
        } else {
            value
        }),
{
    if value < min {
        min
    } else if value > max {
        max
    } else {
        value
    }
}

/// Whether `value` lies in the half-open range.
pub fn in_range(value: i64, range: std::ops::Range<i64>) -> (r: bool)
    ensures
        r == (range.start <= value < range.end),
{
    value >= range.start && value < range.end
}

/// `n` is prime: at least 2 and without a divisor in `[2, n)`.
pub open spec fn prime(n: nat) -> bool {
    n >= 2 && forall|d: nat| 2 <= d < n ==> #[trigger] (n % d) != 0
}

/// An odd number has no even divisor.
proof fn lemma_odd_no_even_divisor(n: nat, k: nat)
    requires
        n % 2 == 1,
        k >= 2,
        k % 2 == 0,
    ensures
        n % k != 0,
{
    if n % k == 0 {
        lemma_fundamental_div_mod(n as int, k as int);
        let q = (n / k) as int;
        let j = (k / 2) as int;
        assert(n == (j * q) * 2) by (nonlinear_arith)
            requires
                n == k * q + 0,
                k == 2 * j,
        ;
        lemma_mod_multiples_basic(j * q, 2);
    }
}

/// Without a divisor below `d`, where `d * d > n`, there is none at all.
proof fn lemma_no_divisor_above_root(n: nat, d: nat)
    requires
        n >= 2,
        d >= 2,
        d > n / d,
        forall|k: nat| 2 <= k < d ==> #[trigger] (n % k) != 0,
    ensures
        prime(n),
{
    assert forall|k: nat| 2 <= k < n implies #[trigger] (n % k) != 0 by {
        if k >= d && n % k == 0 {
            lemma_fundamental_div_mod(n as int, k as int);
            let q = n / k;
            assert(n == k * q);
            lemma_div_is_ordered_by_denominator(n as int, d as int, k as int);
            assert(q <= n / d);
            assert(q >= 2) by {
                if q == 0 {
                    assert(k * q == 0) by (nonlinear_arith)
                        requires
                            q == 0,
                    ;
                }
                if q == 1 {
                    assert(k * q == k) by (nonlinear_arith)
                        requires
                            q == 1,
                    ;
                }
            }
            assert(n == q * k) by (nonlinear_arith)
                requires
                    n == k * q,
            ;
            lemma_mod_multiples_basic(k as int, q as int);
            assert(n % q == 0);
        }
    }
}

/// Whether `n` is prime, by trial division up to its square root.
pub fn is_prime(n: u64) -> (r: bool)
    ensures
        r == prime(n as nat),
{
    if n < 2 {
        return false;
    }
    if n % 2 == 0 {
        proof {
            if n > 2 {
                assert((n as nat) % 2 == 0);
            }
        }
        return n == 2;
    }
    let mut d: u64 = 3;
    while d <= n / d
        invariant
            n >= 3,
            n % 2 == 1,
            d >= 3,
            d % 2 == 1,
            forall|k: nat| 2 <= k < d ==> #[trigger] ((n as nat) % k) != 0,
        decreases n - d,
    {
        proof {
            assert(d * d <= n) by (nonlinear_arith)
                requires
                    d <= n / d,
                    d >= 3,
            ;
            assert(d < n) by (nonlinear_arith)
                requires
                    d * d <= n,
                    d >= 3,
            ;
        }
        if n % d == 0 {
            proof {
                assert((n as nat) % (d as nat) == 0);
            }
            return false;
        }
        proof {
            lemma_odd_no_even_divisor(n as nat, (d + 1) as nat);
        }
        d = d + 2;
    }
    proof {
        lemma_no_divisor_above_root(n as nat, d as nat);
    }
    true
}

/// Even numbers above 2 are not prime.
proof fn lemma_even_not_prime(n: nat)
    requires
        n > 2,
        n % 2 == 0,
    ensures
        !prime(n),
{
    assert(n % 2 == 0);
}

/// The least prime at least `n`. Such a prime must exist no higher than
/// `u64::MAX - 2`, so that the search stays in range.
pub fn next_prime(n: u64) -> (r: u64)
    requires
        exists|p: nat| n <= p <= u64::MAX - 2 && prime(p),
    ensures
        prime(r as nat),
        n <= r,
        forall|q: nat| n <= q < r ==> !prime(q),
{
    if n <= 2 {
        proof {
            assert forall|q: nat| n <= q < 2 implies !prime(q) by {}
        }
        return 2;
    }
    let ghost p = choose|p: nat| n <= p <= u64::MAX - 2 && prime(p);
    let mut m = n;
    if m % 2 == 0 {
        proof {
            lemma_even_not_prime(m as nat);
        }
        m = m + 1;
    }
    while !is_prime(m)
        invariant
            3 <= n <= m,
            m % 2 == 1,
            n <= p <= u64::MAX - 2,
            prime(p),
            forall|q: nat| n <= q < m ==> !prime(q),
            m <= p,
        decreases p - m,
    {
        proof {
            assert(m != p);
            assert(m + 1 <= p) by {
                if m + 1 == p {
                    lemma_even_not_prime(p);
                }
            }
            lemma_even_not_prime((m + 1) as nat);
            if m + 1 == p {
                assert(false);
            }
        }
        m = m + 2;
    }
    m
}

/// The largest prime strictly below `n`; `None` when there is none
/// (`n <= 2`).
pub fn prev_prime(n: u64) -> (r: Option<u64>)
    ensures
        n <= 2 ==> r is None,
        n > 2 ==> r is Some && prime(r->Some_0 as nat) && r->Some_0 < n && forall|q: nat|
            r->Some_0 < q < n ==> !prime(q),
{
    if n <= 2 {
        return None;
    }
    let mut m = n - 1;
    proof {
        assert(prime(2)) by {
            assert forall|d: nat| 2 <= d < 2 implies #[trigger] (2nat % d) != 0 by {}
        }
    }
    while !is_prime(m)
        invariant
            2 <= m < n,
            prime(2),
            forall|q: nat| m < q < n ==> !prime(q),
        decreases m,
    {
        proof {
            assert(m != 2);
        }
        m = m - 1;
    }
    Some(m)
}

/// Index of the first least key, over the `keys` of a non-empty sequence.
pub open spec fn is_first_min(keys: Seq<i64>, i: int) -> bool {
    &&& 0 <= i < keys.len()
    &&& forall|j: int| 0 <= j < keys.len() ==> keys[i] <= #[trigger] keys[j]
    &&& forall|j: int| 0 <= j < i ==> keys[i] < #[trigger] keys[j]
}

/// Index of the last greatest key, over the `keys` of a non-empty sequence.
pub open spec fn is_last_max(keys: Seq<i64>, i: int) -> bool {
    &&& 0 <= i < keys.len()
    &&& forall|j: int| 0 <= j < keys.len() ==> #[trigger] keys[j] <= keys[i]
    &&& forall|j: int| i < j < keys.len() ==> #[trigger] keys[j] < keys[i]
}

fn best_by<T, F: Fn(&T) -> i64>(items: &[T], f: &F, want_max: bool) -> (r: Option<usize>)
    requires
        forall|x: &T| f.requires((x,)),
    ensures
        r is None <==> items@.len() == 0,
        r is Some ==> exists|keys: Seq<i64>|
            {
                &&& keys.len() == items@.len()
                &&& forall|j: int| 0 <= j < items@.len() ==> f.ensures((&items@[j],), #[trigger] keys[j])
                &&& if want_max {
                    is_last_max(keys, r->Some_0 as int)
                } else {
                    is_first_min(keys, r->Some_0 as int)
                }
            },
{
    if items.len() == 0 {
        return None;
    }
    let mut best: usize = 0;
    let mut best_key = f(&items[0]);
    let ghost mut keys: Seq<i64> = seq![best_key];
    let mut i: usize = 1;
    while i < items.len()
        invariant
            forall|x: &T| f.requires((x,)),
            1 <= i <= items@.len(),
            keys.len() == i,
            forall|j: int| 0 <= j < i ==> f.ensures((&items@[j],), #[trigger] keys[j]),
            best < i,
            keys[best as int] == best_key,
            if want_max {
                is_last_max(keys, best as int)
            } else {
                is_first_min(keys, best as int)
            },
        decreases items@.len() - i,
    {
        let k = f(&items[i]);
        proof {
            keys = keys.push(k);
        }
        if (want_max && k >= best_key) || (!want_max && k < best_key) {
            best = i;
            best_key = k;
        }
        i = i + 1;
    }
    Some(best)
}

/// The first item with the least key, `None` when there is none.
pub fn min_by<T, F: Fn(&T) -> i64>(items: &[T], f: F) -> (r: Option<&T>)
    requires
        forall|x: &T| f.requires((x,)),
    ensures
        r is None <==> items@.len() == 0,
        r is Some ==> exists|i: int, keys: Seq<i64>|
            {
                &&& *r->Some_0 == items@[i]
                &&& keys.len() == items@.len()
                &&& forall|j: int| 0 <= j < items@.len() ==> f.ensures((&items@[j],), #[trigger] keys[j])
                &&& is_first_min(keys, i)
            },
{
    match best_by(items, &f, false) {
        Some(i) => Some(&items[i]),
        None => None,
    }
}

/// The last item with the greatest key, `None` when there is none.
pub fn max_by<T, F: Fn(&T) -> i64>(items: &[T], f: F) -> (r: Option<&T>)
    requires
        forall|x: &T| f.requires((x,)),
    ensures
        r is None <==> items@.len() == 0,
        r is Some ==> exists|i: int, keys: Seq<i64>|
            {
                &&& *r->Some_0 == items@[i]
                &&& keys.len() == items@.len()
                &&& forall|j: int| 0 <= j < items@.len() ==> f.ensures((&items@[j],), #[trigger] keys[j])
                &&& is_last_max(keys, i)
            },
{
    match best_by(items, &f, true) {
        Some(i) => Some(&items[i]),
        None => None,
    }
}

} // verus!
