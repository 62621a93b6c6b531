//! Validators: Luhn checksums, IBANs, E.164 phone numbers, US social
//! security numbers, ASCII and UTF-8 checks.
use vstd::prelude::*;

use crate::chars::chars_of;

verus! {

/// Whether `c` is an ASCII decimal digit.
pub open spec fn is_digit(c: char) -> bool {
    '0' <= c <= '9'
}

/// Value of an ASCII decimal digit.
pub open spec fn digit_value(c: char) -> int {
    c as int - 48
}

/// The decimal digits of `s`, in order, other characters skipped.
pub open spec fn digits_of(s: Seq<char>) -> Seq<int>
    decreases s.len(),
{
    if s.len() == 0 {
        Seq::empty()
    } else if is_digit(s.last()) {
        digits_of(s.drop_last()).push(digit_value(s.last()))
    } else {
        digits_of(s.drop_last())
    }
}

/// Luhn sum of `d`: from the right, every second digit doubled (minus 9
/// when over 9).
pub open spec fn luhn_sum(d: Seq<int>) -> int {
    luhn_tail(d, false)
}

fn digit_values(s: &str) -> (r: Vec<u32>)
    ensures
        r@.len() == digits_of(s@).len(),
        forall|i: int| 0 <= i < r@.len() ==> r@[i] as int == digits_of(s@)[i] && r@[i] <= 9,
{
    let cs = chars_of(s);
    let mut out: Vec<u32> = Vec::new();
    let mut i: usize = 0;
    while i < cs.len()
        invariant
            cs@ == s@,
            i <= cs@.len(),
            out@.len() == digits_of(cs@.subrange(0, i as int)).len(),
            forall|j: int|
                0 <= j < out@.len() ==> out@[j] as int == digits_of(cs@.subrange(0, i as int))[j]
                    && out@[j] <= 9,
        decreases cs@.len() - i,
    {
        proof {
            assert(cs@.subrange(0, i as int + 1).drop_last() == cs@.subrange(0, i as int));
        }
        let c = cs[i];
        if '0' <= c && c <= '9' {
            out.push(c as u32 - 48);
        }
        i = i + 1;
    }
    proof {
        assert(cs@.subrange(0, cs@.len() as int) == cs@);
    }
    out
}

/// Luhn check of the digits of `num` (non-digits are skipped); false
/// when there is no digit.
pub fn luhn(num: &str) -> (r: bool)
    ensures
        r == (digits_of(num@).len() > 0 && luhn_sum(digits_of(num@)) % 10 == 0),
{
    let d = digit_values(num);
    if d.len() == 0 {
        return false;
    }
    let ghost ds = digits_of(num@);
    let mut sum: u32 = 0;
    let mut k: usize = d.len();
    let mut dbl = false;
    proof {
        assert(ds.subrange(0, ds.len() as int) == ds);
    }
    while k > 0
        invariant
            k <= d@.len(),
            d@.len() == ds.len(),
            forall|i: int| 0 <= i < d@.len() ==> d@[i] as int == ds[i] && d@[i] <= 9,
            sum < 10,
            (sum + luhn_tail(ds.subrange(0, k as int), dbl)) % 10 == luhn_sum(ds) % 10,
        decreases k,
    {
        let mut v = d[k - 1];
        if dbl {
            v = v * 2;
            if v > 9 {
                v = v - 9;
            }
        }
        proof {
            let p = ds.subrange(0, k as int);
            assert(p.drop_last() == ds.subrange(0, k - 1));
            assert(p.last() == ds[k - 1]);
            let rest = luhn_tail(ds.subrange(0, k - 1), !dbl);
            assert(luhn_tail(p, dbl) == rest + v);
            vstd::arithmetic::div_mod::lemma_add_mod_noop((sum + v) as int, rest, 10);
            vstd::arithmetic::div_mod::lemma_mod_twice((sum + v) as int, 10);
            vstd::arithmetic::div_mod::lemma_add_mod_noop(((sum + v) % 10) as int, rest, 10);
        }
        sum = (sum + v) % 10;
        dbl = !dbl;
        k = k - 1;
    }
    proof {
        assert(ds.subrange(0, 0) == Seq::<int>::empty());
    }
    sum == 0
}

/// Luhn sum of `d` when its last digit is doubled (`dbl`) or not.
pub open spec fn luhn_tail(d: Seq<int>, dbl: bool) -> int
    decreases d.len(),
{
    if d.len() == 0 {
        0
    } else {
        let x = d.last();
        let v = if dbl {
            if 2 * x > 9 {
                2 * x - 9
            } else {
                2 * x
            }
        } else {
            x
        };
        luhn_tail(d.drop_last(), !dbl) + v
    }
}

/// Whether `num` passes the Luhn check, as credit card numbers do.
pub fn validate_credit_card(num: &str) -> (r: bool)
    ensures
        r == (digits_of(num@).len() > 0 && luhn_sum(digits_of(num@)) % 10 == 0),
{
    luhn(num)
}

/// Whether `s` is an E.164 number: `+`, then 1 to 15 digits, the first
/// not zero.
pub open spec fn phone_ok(s: Seq<char>) -> bool {
    &&& s.len() >= 2
    &&& s[0] == '+'
    &&& s.len() - 1 <= 15
    &&& s[1] != '0'
    &&& forall|i: int| 1 <= i < s.len() ==> is_digit(#[trigger] s[i])
}

/// Whether `phone` is an E.164 number: `+`, then 1 to 15 digits, the
/// first not zero.
pub fn validate_phone(phone: &str) -> (r: bool)
    ensures
        r == phone_ok(phone@),
{
    let cs = chars_of(phone);
    if cs.len() < 2 || cs[0] != '+' || cs.len() - 1 > 15 || cs[1] == '0' {
        return false;
    }
    let mut i: usize = 1;
    while i < cs.len()
        invariant
            cs@ == phone@,
            1 <= i <= cs@.len(),
            forall|j: int| 1 <= j < i ==> is_digit(#[trigger] cs@[j]),
        decreases cs@.len() - i,
    {
        let c = cs[i];
        if !('0' <= c && c <= '9') {
            return false;
        }
        i = i + 1;
    }
    true
}

/// Number written by the digits `d[a..b]`.
pub open spec fn number_of(d: Seq<int>, a: int, b: int) -> int
    decreases b - a,
{
    if b <= a {
        0
    } else {
        number_of(d, a, b - 1) * 10 + d[b - 1]
    }
}

/// Whether `s` is laid out as `AAA-GG-SSSS` or `AAAGGSSSS`, in ASCII
/// digits.
pub open spec fn ssn_layout(s: Seq<char>) -> bool {
    ||| s.len() == 9 && forall|i: int| 0 <= i < 9 ==> is_digit(#[trigger] s[i])
    ||| s.len() == 11 && s[3] == '-' && s[6] == '-' && forall|i: int|
        0 <= i < 11 && i != 3 && i != 6 ==> is_digit(#[trigger] s[i])
}

/// Whether `s` is a valid US social security number: laid out as
/// `AAA-GG-SSSS` or `AAAGGSSSS`, area not 000, 666 or 9xx, group and
/// serial not zero.
pub open spec fn ssn_ok(s: Seq<char>) -> bool {
    let d = digits_of(s);
    let area = number_of(d, 0, 3);
    &&& ssn_layout(s)
    &&& d.len() == 9
    &&& area != 0
    &&& area != 666
    &&& !(900 <= area <= 999)
    &&& number_of(d, 3, 5) != 0
    &&& number_of(d, 5, 9) != 0
}

fn number_exec(d: &Vec<u32>, a: usize, b: usize) -> (r: u32)
    requires
        a <= b <= d@.len(),
        b - a <= 4,
        forall|i: int| 0 <= i < d@.len() ==> d@[i] <= 9,
    ensures
        r == number_of(d@.map_values(|x: u32| x as int), a as int, b as int),
        r < 10000,
{
    let mut v: u32 = 0;
    let mut i: usize = a;
    while i < b
        invariant
            a <= i <= b <= d@.len(),
            b - a <= 4,
            forall|k: int| 0 <= k < d@.len() ==> d@[k] <= 9,
            v == number_of(d@.map_values(|x: u32| x as int), a as int, i as int),
            v < (if i - a == 0 {
                1int
            } else if i - a == 1 {
                10int
            } else if i - a == 2 {
                100int
            } else if i - a == 3 {
                1000int
            } else {
                10000int
            }),
        decreases b - i,
    {
        v = v * 10 + d[i];
        i = i + 1;
    }
    v
}

fn ssn_layout_exec(cs: &Vec<char>) -> (r: bool)
    ensures
        r == ssn_layout(cs@),
{
    let n = cs.len();
    if n != 9 && n != 11 {
        return false;
    }
    if n == 11 && (cs[3] != '-' || cs[6] != '-') {
        return false;
    }
    let mut i: usize = 0;
    while i < n
        invariant
            n == cs@.len(),
            n == 9 || n == 11,
            n == 11 ==> cs@[3] == '-' && cs@[6] == '-',
            i <= n,
            forall|j: int| 0 <= j < i && (n == 9 || (j != 3 && j != 6)) ==> is_digit(#[trigger] cs@[j]),
        decreases n - i,
    {
        if n == 9 || (i != 3 && i != 6) {
            let c = cs[i];
            if !('0' <= c && c <= '9') {
                proof {
                    assert(!is_digit(cs@[i as int]));
                }
                return false;
            }
        }
        i = i + 1;
    }
    true
}

/// Whether `ssn` is a valid US social security number in the layout
/// `AAA-GG-SSSS` or `AAAGGSSSS`.
pub fn validate_ssn(ssn: &str) -> (r: bool)
    ensures
        r == ssn_ok(ssn@),
{
    let cs = chars_of(ssn);
    if !ssn_layout_exec(&cs) {
        return false;
    }
    let d = digit_values(ssn);
    if d.len() != 9 {
        return false;
    }
    let ghost ds = digits_of(ssn@);
    proof {
        assert(d@.map_values(|x: u32| x as int) == ds);
    }
    let area = number_exec(&d, 0, 3);
    let group = number_exec(&d, 3, 5);
    let serial = number_exec(&d, 5, 9);
    if area == 0 || area == 666 || (900 <= area && area <= 999) {
        return false;
    }
    if group == 0 || serial == 0 {
        return false;
    }
    true
}

/// Whether every character of `s` is ASCII.
pub fn is_ascii(s: &str) -> (r: bool)
    ensures
        r == vstd::string::is_ascii(s),
{
    s.is_ascii()
}

/// Relies on `std::str::from_utf8`: it succeeds exactly on well-formed
/// UTF-8.
#[verifier::external_body]
fn utf8_ok(bytes: &[u8]) -> (r: bool)
    ensures
        r == vstd::utf8::valid_utf8(bytes@),
{
    std::str::from_utf8(bytes).is_ok()
}

/// Whether `bytes` are well-formed UTF-8.
pub fn is_utf8(bytes: &[u8]) -> (r: bool)
    ensures
        r == vstd::utf8::valid_utf8(bytes@),
{
    utf8_ok(bytes)
}

/// Unicode `White_Space`, the property `char::is_whitespace` tests.
pub open spec fn is_ws(c: char) -> bool {
    let u = c as u32;
    (0x9 <= u <= 0xd) || u == 0x20 || u == 0x85 || u == 0xa0 || u == 0x1680 || (0x2000 <= u
        <= 0x200a) || u == 0x2028 || u == 0x2029 || u == 0x202f || u == 0x205f || u == 0x3000
}

pub(crate) fn is_ws_char(c: char) -> (r: bool)
    ensures
        r == is_ws(c),
{
    let u = c as u32;
    (0x9 <= u && u <= 0xd) || u == 0x20 || u == 0x85 || u == 0xa0 || u == 0x1680 || (0x2000 <= u
        && u <= 0x200a) || u == 0x2028 || u == 0x2029 || u == 0x202f || u == 0x205f || u == 0x3000
}

/// ASCII upper case of `c`.
pub open spec fn ascii_upper(c: char) -> char {
    if 'a' <= c <= 'z' {
        (c as int - 32) as u8 as char
    } else {
        c
    }
}

/// The characters of `s` without white space, in ASCII upper case.
pub open spec fn iban_clean(s: Seq<char>) -> Seq<char>
    decreases s.len(),
{
    if s.len() == 0 {
        Seq::empty()
    } else if is_ws(s.last()) {
        iban_clean(s.drop_last())
    } else {
        iban_clean(s.drop_last()).push(ascii_upper(s.last()))
    }
}

/// Whether `c` is an ASCII upper-case letter or digit.
pub open spec fn is_upper_alnum(c: char) -> bool {
    ('A' <= c <= 'Z') || is_digit(c)
}

/// Remainder modulo 97 after appending the decimal form of `c` (a letter
/// stands for 10 to 35, two digits) to a number with remainder `rem`.
pub open spec fn mod97_step(rem: int, c: char) -> int {
    if 'A' <= c <= 'Z' {
        let v = c as int - 65 + 10;
        (((rem * 10 + v / 10) % 97) * 10 + v % 10) % 97
    } else {
        (rem * 10 + digit_value(c)) % 97
    }
}

/// Remainder modulo 97 of the number that `s` spells.
pub open spec fn mod97(s: Seq<char>) -> int
    decreases s.len(),
{
    if s.len() == 0 {
        0
    } else {
        mod97_step(mod97(s.drop_last()), s.last())
    }
}

/// Whether `s` is a valid IBAN: without white space and in upper case, 15
/// to 34 letters and digits whose number, with the first four moved to
/// the end, is 1 modulo 97.
pub open spec fn iban_ok(s: Seq<char>) -> bool {
    let t = iban_clean(s);
    &&& 15 <= t.len() <= 34
    &&& forall|i: int| 0 <= i < t.len() ==> is_upper_alnum(#[trigger] t[i])
    &&& mod97(t.subrange(4, t.len() as int) + t.subrange(0, 4)) == 1
}

/// Whether `iban` is a valid IBAN (white space ignored, either case).
pub fn validate_iban(iban: &str) -> (r: bool)
    ensures
        r == iban_ok(iban@),
{
    let cs = chars_of(iban);
    let mut t: Vec<char> = Vec::new();
    let mut i: usize = 0;
    while i < cs.len()
        invariant
            cs@ == iban@,
            i <= cs@.len(),
            t@ == iban_clean(cs@.subrange(0, i as int)),
        decreases cs@.len() - i,
    {
        proof {
            assert(cs@.subrange(0, i as int + 1).drop_last() == cs@.subrange(0, i as int));
        }
        let c = cs[i];
        if !is_ws_char(c) {
            let u = if 'a' <= c && c <= 'z' {
                ((c as u8) - 32) as char
            } else {
                c
            };
            t.push(u);
        }
        i = i + 1;
    }
    proof {
        assert(cs@.subrange(0, cs@.len() as int) == cs@);
    }
    let n = t.len();
    assert(t@ == iban_clean(iban@));
    if n < 15 || n > 34 {
        return false;
    }
    let mut j: usize = 0;
    while j < n
        invariant
            n == t@.len(),
            t@ == iban_clean(iban@),
            j <= n,
            forall|k: int| 0 <= k < j ==> is_upper_alnum(#[trigger] t@[k]),
        decreases n - j,
    {
        let c = t[j];
        if !(('A' <= c && c <= 'Z') || ('0' <= c && c <= '9')) {
            proof {
                assert(t@ == iban_clean(iban@));
                assert(!is_upper_alnum(iban_clean(iban@)[j as int]));
            }
            return false;
        }
        j = j + 1;
    }
    let mut rearranged = crate::collections::copy_range(t.as_slice(), 4, n);
    let mut front = crate::collections::copy_range(t.as_slice(), 0, 4);
    rearranged.append(&mut front);
    let ghost q = rearranged@;
    proof {
        assert forall|k: int| 0 <= k < q.len() implies is_upper_alnum(#[trigger] q[k]) by {
            if k < n - 4 {
                assert(q[k] == t@[k + 4]);
            } else {
                assert(q[k] == t@[k - (n - 4)]);
            }
        }
    }
    let mut rem: u32 = 0;
    let mut k: usize = 0;
    while k < rearranged.len()
        invariant
            q == rearranged@,
            k <= q.len(),
            forall|x: int| 0 <= x < q.len() ==> is_upper_alnum(#[trigger] q[x]),
            rem as int == mod97(q.subrange(0, k as int)),
            rem < 97,
        decreases q.len() - k,
    {
        proof {
            assert(q.subrange(0, k as int + 1).drop_last() == q.subrange(0, k as int));
        }
        let c = rearranged[k];
        if 'A' <= c && c <= 'Z' {
            let v = (c as u32) - 65 + 10;
            rem = (rem * 10 + v / 10) % 97;
            rem = (rem * 10 + v % 10) % 97;
        } else {
            rem = (rem * 10 + ((c as u32) - 48)) % 97;
        }
        k = k + 1;
    }
    proof {
        assert(q.subrange(0, q.len() as int) == q);
    }
    rem == 1
}

} // verus!
