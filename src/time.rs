//! Durations as whole seconds or milliseconds: human-readable forms,
//! parsing of `1h30m`-style text, stopwatches and doubling backoff steps.
use vstd::prelude::*;

use crate::chars::{chars_of, string_of};
use crate::clock::{instant_now, millis_since};
use crate::validation::{digit_value, is_digit, is_ws, is_ws_char};

verus! {

/// Decimal digits of `n`, most significant first.
pub open spec fn decimal(n: nat) -> Seq<char>
    decreases n,
{
    if n < 10 {
        seq![(n + 48) as u8 as char]
    } else {
        decimal(n / 10).push(((n % 10) + 48) as u8 as char)
    }
}

fn push_decimal(out: &mut Vec<char>, n: u64)
    ensures
        final(out)@ == old(out)@ + decimal(n as nat),
    decreases n,
{
    if n < 10 {
        out.push(((n as u8) + 48) as char);
    } else {
        push_decimal(out, n / 10);
        out.push((((n % 10) as u8) + 48) as char);
    }
}

/// `secs` as `XhYmZs`, leaving out leading zero units.
pub open spec fn humanize_spec(secs: nat) -> Seq<char> {
    let h = secs / 3600;
    let m = secs % 3600 / 60;
    let s = secs % 60;
    if h > 0 {
        decimal(h) + seq!['h'] + decimal(m) + seq!['m'] + decimal(s) + seq!['s']
    } else if m > 0 {
        decimal(m) + seq!['m'] + decimal(s) + seq!['s']
    } else {
        decimal(s) + seq!['s']
    }
}

/// `secs` seconds as `XhYmZs`, `YmZs` or `Zs`.
pub fn duration_humanize(secs: u64) -> (r: String)
    ensures
        r@ == humanize_spec(secs as nat),
{
    let h = secs / 3600;
    let m = secs % 3600 / 60;
    let s = secs % 60;
    let mut out: Vec<char> = Vec::new();
    if h > 0 {
        push_decimal(&mut out, h);
        out.push('h');
    }
    if h > 0 || m > 0 {
        push_decimal(&mut out, m);
        out.push('m');
    }
    push_decimal(&mut out, s);
    out.push('s');
    proof {
        if h > 0 {
            assert(out@ =~= decimal(h as nat) + seq!['h'] + decimal(m as nat) + seq!['m'] + decimal(
                s as nat,
            ) + seq!['s']);
        } else if m > 0 {
            assert(out@ =~= decimal(m as nat) + seq!['m'] + decimal(s as nat) + seq!['s']);
        } else {
            assert(out@ =~= decimal(s as nat) + seq!['s']);
        }
    }
    string_of(&out)
}

/// Milliseconds in one unit of `c` (`h`, `m` or `s`).
pub open spec fn unit_ms(c: char) -> Option<int> {
    if c == 'h' {
        Some(3_600_000)
    } else if c == 'm' {
        Some(60_000)
    } else if c == 's' {
        Some(1000)
    } else {
        None
    }
}

/// State after reading `s`: total so far, pending number, and whether the
/// pending number has a digit; `None` once the text is malformed.
pub open spec fn dur_state(s: Seq<char>) -> Option<(int, int, bool)>
    decreases s.len(),
{
    if s.len() == 0 {
        Some((0, 0, false))
    } else {
        match dur_state(s.drop_last()) {
            None => None,
            Some((t, n, d)) => {
                let c = s.last();
                if is_digit(c) {
                    Some((t, n * 10 + digit_value(c), true))
                } else if !d {
                    None
                } else {
                    match unit_ms(c) {
                        Some(u) => Some((t + n * u, 0, false)),
                        None => None,
                    }
                }
            },
        }
    }
}

/// Milliseconds written by `s` as numbers each followed by `h`, `m` or
/// `s` (`1h30m`), or `None` when it is not of that form.
pub open spec fn dur_spec(s: Seq<char>) -> Option<int> {
    match dur_state(s) {
        Some((t, _, false)) => Some(t),
        _ => None,
    }
}

/// Cap above every `u64`.
pub open spec fn cap() -> int {
    0x1_0000_0000_0000_0000
}

/// `min(x, cap())`.
pub open spec fn capped(x: int) -> int {
    if x < cap() {
        x
    } else {
        cap()
    }
}

proof fn lemma_dur_state_nonneg(s: Seq<char>)
    ensures
        dur_state(s) is Some ==> dur_state(s)->Some_0.0 >= 0 && dur_state(s)->Some_0.1 >= 0,
    decreases s.len(),
{
    if s.len() > 0 {
        lemma_dur_state_nonneg(s.drop_last());
        if let Some((t, n, d)) = dur_state(s.drop_last()) {
            assert(n * 10 >= 0 && n * 3_600_000 >= 0 && n * 60_000 >= 0 && n * 1000 >= 0) by (
            nonlinear_arith)
                requires
                    n >= 0,
            ;
        }
    }
}

/// Malformed text stays malformed whatever follows.
proof fn lemma_dur_none_persists(s: Seq<char>, k: int)
    requires
        0 <= k <= s.len(),
        dur_state(s.subrange(0, k)) is None,
    ensures
        dur_state(s) is None,
    decreases s.len() - k,
{
    if k < s.len() {
        assert(s.subrange(0, k + 1).drop_last() == s.subrange(0, k));
        lemma_dur_none_persists(s, k + 1);
    } else {
        assert(s.subrange(0, k) == s);
    }
}

/// Milliseconds written by `s` (`1h30m`, `45s`, `2m5s`; empty text is
/// zero), or `None` when it is malformed or the total does not fit in a
/// `u64`.
pub fn parse_duration(s: &str) -> (r: Option<u64>)
    ensures
        r is Some <==> (dur_spec(s@) is Some && dur_spec(s@)->Some_0 <= u64::MAX),
        r is Some ==> r->Some_0 == dur_spec(s@)->Some_0,
{
    let cs = chars_of(s);
    let big: u128 = 0x1_0000_0000_0000_0000;
    let mut total: u128 = 0;
    let mut num: u128 = 0;
    let mut has_digit = false;
    let mut i: usize = 0;
    while i < cs.len()
        invariant
            cs@ == s@,
            i <= cs@.len(),
            big == cap(),
            dur_state(cs@.subrange(0, i as int)) is Some,
            ({
                let (t, n, d) = dur_state(cs@.subrange(0, i as int))->Some_0;
                &&& total as int == capped(t)
                &&& num as int == capped(n)
                &&& has_digit == d
            }),
        decreases cs@.len() - i,
    {
        let ghost p = cs@.subrange(0, i as int);
        proof {
            assert(cs@.subrange(0, i as int + 1).drop_last() == p);
            lemma_dur_state_nonneg(p);
        }
        let ghost (t, n, d) = dur_state(p)->Some_0;
        let c = cs[i];
        if '0' <= c && c <= '9' {
            let v = num * 10 + (c as u128 - 48);
            num = if v < big {
                v
            } else {
                big
            };
            proof {
                assert(capped(n * 10 + digit_value(c)) == num) by (nonlinear_arith)
                    requires
                        num == (if capped(n) * 10 + digit_value(c) < cap() {
                            capped(n) * 10 + digit_value(c)
                        } else {
                            cap()
                        }),
                        n >= 0,
                        0 <= digit_value(c) <= 9,
                        capped(n) == (if n < cap() {
                            n
                        } else {
                            cap()
                        }),
                        cap() == 0x1_0000_0000_0000_0000int,
                ;
            }
            has_digit = true;
        } else {
            if !has_digit {
                proof {
                    lemma_dur_none_persists(cs@, i + 1);
                }
                return None;
            }
            let unit: u128 = if c == 'h' {
                3_600_000
            } else if c == 'm' {
                60_000
            } else if c == 's' {
                1000
            } else {
                proof {
                    lemma_dur_none_persists(cs@, i + 1);
                }
                return None;
            };
            let add = num * unit;
            let add_c = if add < big {
                add
            } else {
                big
            };
            let sum = total + add_c;
            total = if sum < big {
                sum
            } else {
                big
            };
            proof {
                let u = unit as int;
                assert(capped(n * u) == add_c) by (nonlinear_arith)
                    requires
                        add_c == (if capped(n) * u < cap() {
                            capped(n) * u
                        } else {
                            cap()
                        }),
                        n >= 0,
                        u >= 1,
                        capped(n) == (if n < cap() {
                            n
                        } else {
                            cap()
                        }),
                        cap() > 0,
                ;
                assert(n * u >= 0) by (nonlinear_arith)
                    requires
                        n >= 0,
                        u >= 1,
                ;
            }
            num = 0;
            has_digit = false;
        }
        i = i + 1;
    }
    proof {
        assert(cs@.subrange(0, cs@.len() as int) == cs@);
        lemma_dur_state_nonneg(cs@);
    }
    if has_digit || total >= big {
        None
    } else {
        Some(total as u64)
    }
}

/// A stopwatch started at some reading of the monotonic clock.
pub struct Stopwatch {
    start: std::time::Instant,
}

impl Stopwatch {
    /// Start a stopwatch now.
    pub fn start_new() -> (r: Self) {
        Stopwatch { start: instant_now() }
    }

    /// Whole milliseconds since the start.
    pub fn elapsed(&self) -> (r: u64) {
        millis_since(&self.start)
    }
}

/// Run `f`, returning its value and the whole milliseconds it took.
pub fn elapsed<T, F: FnOnce() -> T>(f: F) -> (r: (T, u64))
    requires
        f.requires(()),
    ensures
        f.ensures((), r.0),
{
    let sw = Stopwatch::start_new();
    let v = f();
    (v, sw.elapsed())
}

/// Relies on `Instant`'s order (`PartialOrd::ge`): whether `a` is no
/// earlier than `b`.
#[verifier::external_body]
fn instant_ge(a: &std::time::Instant, b: &std::time::Instant) -> (r: bool) {
    a >= b
}

/// Whether the clock has reached `d`.
pub fn deadline(d: std::time::Instant) -> (r: bool) {
    let now = instant_now();
    instant_ge(&now, &d)
}

/// Doubling delays in milliseconds: `base`, `2 * base`, `4 * base`, ...,
/// saturating at `u64::MAX`.
pub struct BackoffIter {
    cur: u64,
}

impl BackoffIter {
    /// The next delay to hand out.
    pub closed spec fn spec_cur(&self) -> u64 {
        self.cur
    }

    /// Delays starting at `base_ms`.
    pub fn new(base_ms: u64) -> (r: Self)
        ensures
            r.spec_cur() == base_ms,
    {
        BackoffIter { cur: base_ms }
    }

    /// The current delay; the next one is twice as long (saturating).
    pub fn next(&mut self) -> (r: Option<u64>)
        ensures
            r == Some(old(self).spec_cur()),
            final(self).spec_cur() == crate::functions::retry::cap_u64(2 * old(self).spec_cur()),
    {
        let out = self.cur;
        self.cur = match self.cur.checked_mul(2) {
            Some(x) => x,
            None => u64::MAX,
        };
        Some(out)
    }
}

/// A moment, as far as schedules read it.
#[derive(Clone, Copy, Debug)]
pub struct DateTime {
    pub minute: u32,
}

/// `s` without its leading white space.
pub open spec fn skip_ws(s: Seq<char>) -> Seq<char>
    decreases s.len(),
{
    if s.len() > 0 && is_ws(s[0]) {
        skip_ws(s.drop_first())
    } else {
        s
    }
}

/// The leading run of `s` without white space.
pub open spec fn take_token(s: Seq<char>) -> Seq<char>
    decreases s.len(),
{
    if s.len() > 0 && !is_ws(s[0]) {
        seq![s[0]] + take_token(s.drop_first())
    } else {
        Seq::empty()
    }
}

/// Value of a run of decimal digits.
pub open spec fn digits_value(d: Seq<char>) -> int
    decreases d.len(),
{
    if d.len() == 0 {
        0
    } else {
        digits_value(d.drop_last()) * 10 + digit_value(d.last())
    }
}

/// `t` read as a `u32` the way `str::parse` reads it: an optional `+`,
/// then one or more digits, in range.
pub open spec fn parse_u32(t: Seq<char>) -> Option<u32> {
    parse_digits(
        if t.len() > 0 && t[0] == '+' {
            t.drop_first()
        } else {
            t
        },
    )
}

/// `d` read as a `u32` when it is one or more digits and in range.
pub open spec fn parse_digits(d: Seq<char>) -> Option<u32> {
    if d.len() == 0 || !(forall|i: int| 0 <= i < d.len() ==> is_digit(#[trigger] d[i])) {
        None
    } else if digits_value(d) > u32::MAX {
        None
    } else {
        Some(digits_value(d) as u32)
    }
}

proof fn lemma_digits_nonneg(d: Seq<char>)
    requires
        forall|i: int| 0 <= i < d.len() ==> is_digit(#[trigger] d[i]),
    ensures
        digits_value(d) >= 0,
    decreases d.len(),
{
    if d.len() > 0 {
        lemma_digits_nonneg(d.drop_last());
    }
}

pub(crate) fn parse_u32_chars(t: &Vec<char>, start: usize) -> (r: Option<u32>)
    requires
        start <= t@.len(),
    ensures
        r == parse_u32(t@.subrange(start as int, t@.len() as int)),
{
    let ghost whole = t@.subrange(start as int, t@.len() as int);
    let n = t.len();
    let mut i = start;
    if i < n && t[i] == '+' {
        i = i + 1;
    }
    let ghost d = t@.subrange(i as int, n as int);
    proof {
        if start < n && t@[start as int] == '+' {
            assert(whole.drop_first() == d);
        } else {
            assert(whole == d);
        }
        assert(parse_u32(whole) == parse_digits(d));
    }
    if i == n {
        return None;
    }
    let first = i;
    let mut val: u64 = 0;
    let mut over = false;
    while i < n
        invariant
            first <= i <= n,
            n == t@.len(),
            d == t@.subrange(first as int, n as int),
            parse_u32(whole) == parse_digits(d),
            whole == t@.subrange(start as int, t@.len() as int),
            forall|q: int| first <= q < i ==> is_digit(#[trigger] t@[q]),
            !over ==> val as int == digits_value(t@.subrange(first as int, i as int)) && val <= u32::MAX,
            over ==> digits_value(t@.subrange(first as int, i as int)) > u32::MAX,
        decreases n - i,
    {
        let c = t[i];
        if !('0' <= c && c <= '9') {
            proof {
                assert(d[i - first] == c);
                assert(!is_digit(d[i - first]));
            }
            return None;
        }
        proof {
            assert(t@.subrange(first as int, i + 1).drop_last() == t@.subrange(first as int, i as int));
            assert forall|q: int| 0 <= q < i - first implies is_digit(#[trigger] t@.subrange(first as int, i as int)[q]) by {
                assert(t@.subrange(first as int, i as int)[q] == t@[first + q]);
            }
            lemma_digits_nonneg(t@.subrange(first as int, i as int));
        }
        if !over {
            val = val * 10 + (c as u64 - 48);
            if val > 0xffff_ffff {
                over = true;
            }
        }
        i = i + 1;
    }
    proof {
        assert(t@.subrange(first as int, n as int) == d);
        assert forall|q: int| 0 <= q < d.len() implies is_digit(#[trigger] d[q]) by {
            assert(d[q] == t@[first + q]);
        }
    }
    if over {
        None
    } else {
        Some(val as u32)
    }
}

/// Whether the minute field of the cron expression `expr` (its first
/// word) matches `now`: `*` always, `*/n` when `n` divides the minute
/// (`n` missing or unreadable counts as 1, `0` never matches), a number
/// when it equals the minute.
pub open spec fn cron_spec(minute: u32, expr: Seq<char>) -> bool {
    let t = take_token(skip_ws(expr));
    if t.len() == 0 {
        false
    } else if t == seq!['*'] {
        true
    } else if t.len() >= 2 && t[0] == '*' && t[1] == '/' {
        let n: u32 = match parse_u32(t.subrange(2, t.len() as int)) {
            Some(v) => v,
            None => 1,
        };
        n != 0 && minute % n == 0
    } else {
        parse_u32(t) == Some(minute)
    }
}

fn first_token(cs: &Vec<char>) -> (r: Vec<char>)
    ensures
        r@ == take_token(skip_ws(cs@)),
{
    let n = cs.len();
    let mut lo: usize = 0;
    proof {
        assert(cs@.subrange(0, n as int) == cs@);
    }
    while lo < n && is_ws_char(cs[lo])
        invariant
            n == cs@.len(),
            lo <= n,
            skip_ws(cs@) == skip_ws(cs@.subrange(lo as int, n as int)),
        decreases n - lo,
    {
        proof {
            assert(cs@.subrange(lo as int, n as int).drop_first() == cs@.subrange(lo + 1, n as int));
        }
        lo = lo + 1;
    }
    let ghost rest = cs@.subrange(lo as int, n as int);
    proof {
        assert(skip_ws(rest) == rest) by {
            if rest.len() > 0 {
                assert(rest[0] == cs@[lo as int]);
            }
        }
        assert(cs@.subrange(lo as int, lo as int) + take_token(rest) =~= take_token(rest));
    }
    let mut hi: usize = lo;
    while hi < n && !is_ws_char(cs[hi])
        invariant
            n == cs@.len(),
            lo <= hi <= n,
            rest == cs@.subrange(lo as int, n as int),
            take_token(rest) == cs@.subrange(lo as int, hi as int) + take_token(
                cs@.subrange(hi as int, n as int),
            ),
        decreases n - hi,
    {
        proof {
            let tail = cs@.subrange(hi as int, n as int);
            assert(tail.drop_first() == cs@.subrange(hi + 1, n as int));
            assert(cs@.subrange(lo as int, hi + 1) == cs@.subrange(lo as int, hi as int).push(
                cs@[hi as int],
            ));
            assert(seq![tail[0]] + take_token(tail.drop_first()) == take_token(tail));
            assert(cs@.subrange(lo as int, hi as int) + take_token(tail) =~= cs@.subrange(
                lo as int,
                hi + 1,
            ) + take_token(cs@.subrange(hi + 1, n as int)));
        }
        hi = hi + 1;
    }
    proof {
        let tail = cs@.subrange(hi as int, n as int);
        assert(take_token(tail) == Seq::<char>::empty()) by {
            if tail.len() > 0 {
                assert(tail[0] == cs@[hi as int]);
            }
        }
        assert(cs@.subrange(lo as int, hi as int) + Seq::<char>::empty() =~= cs@.subrange(
            lo as int,
            hi as int,
        ));
    }
    crate::collections::copy_range(cs.as_slice(), lo, hi)
}

/// Whether `now` matches the minute field of `expr`.
pub fn cron_matches(now: &DateTime, expr: &str) -> (r: bool)
    ensures
        r == cron_spec(now.minute, expr@),
{
    let cs = chars_of(expr);
    let tok = first_token(&cs);
    let t = tok.len();
    if t == 0 {
        return false;
    }
    if t == 1 && tok[0] == '*' {
        proof {
            assert(tok@ =~= seq!['*']);
        }
        return true;
    }
    if t >= 2 && tok[0] == '*' && tok[1] == '/' {
        let step = match parse_u32_chars(&tok, 2) {
            Some(v) => v,
            None => 1,
        };
        proof {
            if tok@ == seq!['*'] {
                assert(tok@.len() == 1);
            }
        }
        return step != 0 && now.minute % step == 0;
    }
    proof {
        assert(tok@.subrange(0, t as int) == tok@);
        if tok@ == seq!['*'] {
            assert(tok@.len() == 1);
        }
    }
    match parse_u32_chars(&tok, 0) {
        Some(v) => v == now.minute,
        None => false,
    }
}

} // verus!
