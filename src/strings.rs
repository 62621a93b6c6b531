//! String helpers, stated over the characters of their arguments.
use vstd::prelude::*;

use crate::chars::{chars_of, string_of};
use crate::validation::{is_digit, is_ws};
use vstd::string::StringSliceAdditionalSpecFns;

verus! {

fn push_all(out: &mut Vec<char>, cs: &Vec<char>)
    ensures
        final(out)@ == old(out)@ + cs@,
{
    let mut i: usize = 0;
    let ghost start = out@;
    while i < cs.len()
        invariant
            i <= cs@.len(),
            out@ == start + cs@.subrange(0, i as int),
        decreases cs@.len() - i,
    {
        out.push(cs[i]);
        proof {
            assert(cs@.subrange(0, i as int + 1) == cs@.subrange(0, i as int).push(cs@[i as int]));
        }
        i = i + 1;
    }
    proof {
        assert(cs@.subrange(0, cs@.len() as int) == cs@);
    }
}

fn seq_starts_with(s: &Vec<char>, p: &Vec<char>) -> (r: bool)
    ensures
        r == (p@.len() <= s@.len() && s@.subrange(0, p@.len() as int) == p@),
{
    if p.len() > s.len() {
        return false;
    }
    let mut i: usize = 0;
    while i < p.len()
        invariant
            p@.len() <= s@.len(),
            i <= p@.len(),
            forall|j: int| 0 <= j < i ==> s@[j] == p@[j],
        decreases p@.len() - i,
    {
        if s[i] != p[i] {
            proof {
                assert(s@.subrange(0, p@.len() as int)[i as int] != p@[i as int]);
            }
            return false;
        }
        i = i + 1;
    }
    proof {
        assert(s@.subrange(0, p@.len() as int) =~= p@);
    }
    true
}

fn seq_ends_with(s: &Vec<char>, p: &Vec<char>) -> (r: bool)
    ensures
        r == (p@.len() <= s@.len() && s@.subrange(s@.len() - p@.len(), s@.len() as int) == p@),
{
    if p.len() > s.len() {
        return false;
    }
    let sl = s.len();
    let off = sl - p.len();
    let mut i: usize = 0;
    while i < p.len()
        invariant
            sl == s@.len(),
            off == s@.len() - p@.len(),
            p@.len() <= s@.len(),
            i <= p@.len(),
            forall|j: int| 0 <= j < i ==> s@[off + j] == p@[j],
        decreases p@.len() - i,
    {
        if s[off + i] != p[i] {
            proof {
                assert(s@.subrange(off as int, s@.len() as int)[i as int] != p@[i as int]);
            }
            return false;
        }
        i = i + 1;
    }
    proof {
        assert(s@.subrange(off as int, s@.len() as int) =~= p@);
    }
    true
}

/// The characters of `s` in reverse order.
pub fn reverse(s: &str) -> (r: String)
    ensures
        r@ == s@.reverse(),
{
    let cs = chars_of(s);
    let mut out: Vec<char> = Vec::new();
    let mut i: usize = cs.len();
    while i > 0
        invariant
            i <= cs@.len(),
            out@ == cs@.subrange(i as int, cs@.len() as int).reverse(),
        decreases i,
    {
        proof {
            assert(cs@.subrange(i - 1, cs@.len() as int).reverse() =~= cs@.subrange(
                i as int,
                cs@.len() as int,
            ).reverse().push(cs@[i - 1]));
        }
        out.push(cs[i - 1]);
        i = i - 1;
    }
    proof {
        assert(cs@.subrange(0, cs@.len() as int) == cs@);
    }
    string_of(&out)
}

/// Whether `s` is non-empty and all ASCII digits.
pub fn is_numeric(s: &str) -> (r: bool)
    ensures
        r == (s@.len() > 0 && forall|i: int| 0 <= i < s@.len() ==> is_digit(#[trigger] s@[i])),
{
    let cs = chars_of(s);
    if cs.len() == 0 {
        return false;
    }
    let mut i: usize = 0;
    while i < cs.len()
        invariant
            cs@ == s@,
            i <= cs@.len(),
            forall|j: int| 0 <= j < i ==> is_digit(#[trigger] cs@[j]),
        decreases cs@.len() - i,
    {
        if !('0' <= cs[i] && cs[i] <= '9') {
            return false;
        }
        i = i + 1;
    }
    true
}

/// Whether `s` starts with `http://` or `https://`.
pub fn is_url(s: &str) -> (r: bool)
    ensures
        r == (s@.len() >= 7 && s@.subrange(0, 7) == "http://"@) || (s@.len() >= 8 && s@.subrange(
            0,
            8,
        ) == "https://"@),
{
    let cs = chars_of(s);
    let a = chars_of("http://");
    let b = chars_of("https://");
    proof {
        reveal_strlit("http://");
        reveal_strlit("https://");
    }
    seq_starts_with(&cs, &a) || seq_starts_with(&cs, &b)
}

/// `s`, with `prefix` put in front unless it already starts with it.
pub fn ensure_prefix(s: &str, prefix: &str) -> (r: String)
    ensures
        r@ == (if prefix@.len() <= s@.len() && s@.subrange(0, prefix@.len() as int) == prefix@ {
            s@
        } else {
            prefix@ + s@
        }),
{
    let cs = chars_of(s);
    let p = chars_of(prefix);
    if seq_starts_with(&cs, &p) {
        string_of(&cs)
    } else {
        let mut out = p;
        push_all(&mut out, &cs);
        string_of(&out)
    }
}

/// `s`, with `suffix` put at the end unless it already ends with it.
pub fn ensure_suffix(s: &str, suffix: &str) -> (r: String)
    ensures
        r@ == (if suffix@.len() <= s@.len() && s@.subrange(
            s@.len() - suffix@.len(),
            s@.len() as int,
        ) == suffix@ {
            s@
        } else {
            s@ + suffix@
        }),
{
    let cs = chars_of(s);
    let p = chars_of(suffix);
    if seq_ends_with(&cs, &p) {
        string_of(&cs)
    } else {
        let mut out = cs;
        push_all(&mut out, &p);
        string_of(&out)
    }
}

/// Whether `s` ends with `t`.
pub open spec fn ends(s: Seq<char>, t: Seq<char>) -> bool {
    t.len() <= s.len() && s.subrange(s.len() - t.len(), s.len() as int) == t
}

/// Whether `c` is a lower-case ASCII vowel.
pub open spec fn is_vowel(c: char) -> bool {
    c == 'a' || c == 'e' || c == 'i' || c == 'o' || c == 'u'
}

/// English plural of `w` by the usual suffix rules.
pub open spec fn plural_spec(w: Seq<char>) -> Seq<char> {
    if ends(w, seq!['y']) && !(w.len() >= 2 && is_vowel(w[w.len() - 2])) {
        w.drop_last() + seq!['i', 'e', 's']
    } else if ends(w, seq!['s']) || ends(w, seq!['x']) || ends(w, seq!['c', 'h']) || ends(
        w,
        seq!['s', 'h'],
    ) {
        w + seq!['e', 's']
    } else {
        w.push('s')
    }
}

/// English plural of `word`: `-y` after a consonant becomes `-ies`; `-s`,
/// `-x`, `-ch` and `-sh` take `-es`; others take `-s`.
pub fn pluralize(word: &str) -> (r: String)
    ensures
        r@ == plural_spec(word@),
{
    let w = chars_of(word);
    let n = w.len();
    let y = vec!['y'];
    let s1 = vec!['s'];
    let x1 = vec!['x'];
    let ch = vec!['c', 'h'];
    let sh = vec!['s', 'h'];
    let vowel_before = n >= 2 && {
        let c = w[n - 2];
        c == 'a' || c == 'e' || c == 'i' || c == 'o' || c == 'u'
    };
    let mut out = w.clone();
    proof {
        assert(y@ == seq!['y']);
        assert(s1@ == seq!['s']);
        assert(x1@ == seq!['x']);
        assert(ch@ == seq!['c', 'h']);
        assert(sh@ == seq!['s', 'h']);
    }
    if seq_ends_with(&w, &y) && !vowel_before {
        out.pop();
        let ies = vec!['i', 'e', 's'];
        push_all(&mut out, &ies);
        proof {
            assert(ies@ == seq!['i', 'e', 's']);
        }
    } else if seq_ends_with(&w, &s1) || seq_ends_with(&w, &x1) || seq_ends_with(&w, &ch) || seq_ends_with(&w, &sh) {
        let es = vec!['e', 's'];
        push_all(&mut out, &es);
        proof {
            assert(es@ == seq!['e', 's']);
        }
    } else {
        out.push('s');
    }
    string_of(&out)
}

/// English singular of `w`: drops `-ies` for `-y`, else `-es`, else `-s`.
pub open spec fn singular_spec(w: Seq<char>) -> Seq<char> {
    if ends(w, seq!['i', 'e', 's']) {
        w.subrange(0, w.len() - 3).push('y')
    } else if ends(w, seq!['e', 's']) {
        w.subrange(0, w.len() - 2)
    } else if ends(w, seq!['s']) {
        w.drop_last()
    } else {
        w
    }
}

/// English singular of `word`: `-ies` becomes `-y`, else `-es` or `-s` is
/// dropped.
pub fn singularize(word: &str) -> (r: String)
    ensures
        r@ == singular_spec(word@),
{
    let w = chars_of(word);
    let ies = vec!['i', 'e', 's'];
    let es = vec!['e', 's'];
    let s1 = vec!['s'];
    proof {
        assert(ies@ == seq!['i', 'e', 's']);
        assert(es@ == seq!['e', 's']);
        assert(s1@ == seq!['s']);
    }
    let n = w.len();
    if seq_ends_with(&w, &ies) {
        let mut out = crate::collections::copy_range(w.as_slice(), 0, n - 3);
        out.push('y');
        string_of(&out)
    } else if seq_ends_with(&w, &es) {
        let out = crate::collections::copy_range(w.as_slice(), 0, n - 2);
        string_of(&out)
    } else if seq_ends_with(&w, &s1) {
        let out = crate::collections::copy_range(w.as_slice(), 0, n - 1);
        string_of(&out)
    } else {
        string_of(&w)
    }
}

/// Length of the longest common prefix of `a` and `b`.
pub open spec fn is_common_prefix_len(a: Seq<char>, b: Seq<char>, k: int) -> bool {
    &&& 0 <= k <= a.len()
    &&& k <= b.len()
    &&& forall|j: int| 0 <= j < k ==> a[j] == b[j]
    &&& (k == a.len() || k == b.len() || a[k] != b[k])
}

/// The longest common prefix of `a` and `b`.
pub fn longest_common_prefix(a: &str, b: &str) -> (r: String)
    ensures
        is_common_prefix_len(a@, b@, r@.len() as int),
        r@ == a@.subrange(0, r@.len() as int),
{
    let x = chars_of(a);
    let y = chars_of(b);
    let mut k: usize = 0;
    while k < x.len() && k < y.len() && x[k] == y[k]
        invariant
            k <= x@.len(),
            k <= y@.len(),
            forall|j: int| 0 <= j < k ==> x@[j] == y@[j],
        decreases x@.len() - k,
    {
        k = k + 1;
    }
    let out = crate::collections::copy_range(x.as_slice(), 0, k);
    string_of(&out)
}

/// The longest common suffix of `a` and `b`.
pub fn longest_common_suffix(a: &str, b: &str) -> (r: String)
    ensures
        is_common_prefix_len(a@.reverse(), b@.reverse(), r@.len() as int),
        r@ == a@.subrange(a@.len() - r@.len(), a@.len() as int),
{
    let x = chars_of(a);
    let y = chars_of(b);
    let n = x.len();
    let m = y.len();
    let mut k: usize = 0;
    while k < n && k < m && x[n - 1 - k] == y[m - 1 - k]
        invariant
            n == x@.len(),
            m == y@.len(),
            k <= n,
            k <= m,
            forall|j: int| 0 <= j < k ==> x@.reverse()[j] == y@.reverse()[j],
        decreases n - k,
    {
        proof {
            assert(x@.reverse()[k as int] == x@[n - 1 - k]);
            assert(y@.reverse()[k as int] == y@[m - 1 - k]);
        }
        k = k + 1;
    }
    proof {
        if k < n && k < m {
            assert(x@.reverse()[k as int] == x@[n - 1 - k]);
            assert(y@.reverse()[k as int] == y@[m - 1 - k]);
        }
    }
    let out = crate::collections::copy_range(x.as_slice(), n - k, n);
    string_of(&out)
}

/// `n` copies of `c`.
fn fill(c: char, n: usize) -> (r: Vec<char>)
    ensures
        r@ == Seq::new(n as nat, |_i: int| c),
{
    let mut out: Vec<char> = Vec::new();
    let mut i: usize = 0;
    while i < n
        invariant
            i <= n,
            out@ == Seq::new(i as nat, |_i: int| c),
        decreases n - i,
    {
        out.push(c);
        proof {
            assert(out@ =~= Seq::new((i + 1) as nat, |_i: int| c));
        }
        i = i + 1;
    }
    out
}

/// `s` padded on the left with `pad_char` to `target_len` characters.
pub fn pad_start(s: &str, target_len: usize, pad_char: char) -> (r: String)
    ensures
        s@.len() >= target_len ==> r@ == s@,
        s@.len() < target_len ==> r@ == Seq::new((target_len - s@.len()) as nat, |_i: int| pad_char)
            + s@,
{
    let cs = chars_of(s);
    if cs.len() >= target_len {
        string_of(&cs)
    } else {
        let mut out = fill(pad_char, target_len - cs.len());
        push_all(&mut out, &cs);
        string_of(&out)
    }
}

/// `s` padded on the right with `pad_char` to `target_len` characters.
pub fn pad_end(s: &str, target_len: usize, pad_char: char) -> (r: String)
    ensures
        s@.len() >= target_len ==> r@ == s@,
        s@.len() < target_len ==> r@ == s@ + Seq::new(
            (target_len - s@.len()) as nat,
            |_i: int| pad_char,
        ),
{
    let cs = chars_of(s);
    if cs.len() >= target_len {
        string_of(&cs)
    } else {
        let pad = fill(pad_char, target_len - cs.len());
        let mut out = cs;
        push_all(&mut out, &pad);
        string_of(&out)
    }
}

/// `s` written `n` times.
pub open spec fn repeat_spec(s: Seq<char>, n: nat) -> Seq<char>
    decreases n,
{
    if n == 0 {
        Seq::empty()
    } else {
        repeat_spec(s, (n - 1) as nat) + s
    }
}

/// `s` written `n` times.
pub fn repeat(s: &str, n: usize) -> (r: String)
    ensures
        r@ == repeat_spec(s@, n as nat),
{
    let cs = chars_of(s);
    let mut out: Vec<char> = Vec::new();
    let mut i: usize = 0;
    while i < n
        invariant
            i <= n,
            out@ == repeat_spec(cs@, i as nat),
        decreases n - i,
    {
        push_all(&mut out, &cs);
        i = i + 1;
    }
    string_of(&out)
}

/// Index of the first character of `s` that is not white space, from `lo`.
pub open spec fn trim_start_at(s: Seq<char>, lo: int) -> bool {
    &&& 0 <= lo <= s.len()
    &&& forall|j: int| 0 <= j < lo ==> is_ws(#[trigger] s[j])
    &&& lo < s.len() ==> !is_ws(s[lo])
}

/// `s` without leading and trailing white space.
pub fn trim(s: &str) -> (r: String)
    ensures
        exists|lo: int, hi: int|
            {
                &&& trim_start_at(s@, lo)
                &&& lo <= hi <= s@.len()
                &&& forall|j: int| hi <= j < s@.len() ==> is_ws(#[trigger] s@[j])
                &&& hi > lo ==> !is_ws(s@[hi - 1])
                &&& r@ == s@.subrange(lo, hi)
            },
{
    let cs = chars_of(s);
    let n = cs.len();
    let mut lo: usize = 0;
    while lo < n && crate::validation::is_ws_char(cs[lo])
        invariant
            cs@ == s@,
            n == cs@.len(),
            lo <= n,
            forall|j: int| 0 <= j < lo ==> is_ws(#[trigger] cs@[j]),
        decreases n - lo,
    {
        lo = lo + 1;
    }
    let mut hi: usize = n;
    while hi > lo && crate::validation::is_ws_char(cs[hi - 1])
        invariant
            cs@ == s@,
            n == cs@.len(),
            lo <= hi <= n,
            forall|j: int| hi <= j < n ==> is_ws(#[trigger] cs@[j]),
        decreases hi,
    {
        hi = hi - 1;
    }
    let out = crate::collections::copy_range(cs.as_slice(), lo, hi);
    proof {
        assert(trim_start_at(s@, lo as int));
    }
    string_of(&out)
}

/// `s` with each character replaced by what `f` gives for it.
pub open spec fn expand(s: Seq<char>, f: spec_fn(char) -> Seq<char>) -> Seq<char>
    decreases s.len(),
{
    if s.len() == 0 {
        Seq::empty()
    } else {
        expand(s.drop_last(), f) + f(s.last())
    }
}

/// HTML escape of one character.
pub open spec fn html_escape(c: char) -> Seq<char> {
    if c == '&' {
        seq!['&', 'a', 'm', 'p', ';']
    } else if c == '<' {
        seq!['&', 'l', 't', ';']
    } else if c == '>' {
        seq!['&', 'g', 't', ';']
    } else if c == '"' {
        seq!['&', 'q', 'u', 'o', 't', ';']
    } else if c == '\'' {
        seq!['&', '#', '3', '9', ';']
    } else {
        seq![c]
    }
}

fn html_escape_exec(c: char) -> (r: Vec<char>)
    ensures
        r@ == html_escape(c),
{
    let r = if c == '&' {
        vec!['&', 'a', 'm', 'p', ';']
    } else if c == '<' {
        vec!['&', 'l', 't', ';']
    } else if c == '>' {
        vec!['&', 'g', 't', ';']
    } else if c == '"' {
        vec!['&', 'q', 'u', 'o', 't', ';']
    } else if c == '\'' {
        vec!['&', '#', '3', '9', ';']
    } else {
        vec![c]
    };
    proof {
        assert(r@ =~= html_escape(c));
    }
    r
}

/// `&`, `<`, `>`, `"` and `'` replaced by HTML entities.
pub fn escape_html(input: &str) -> (r: String)
    ensures
        r@ == expand(input@, |c: char| html_escape(c)),
{
    let cs = chars_of(input);
    let mut out: Vec<char> = Vec::new();
    let mut i: usize = 0;
    while i < cs.len()
        invariant
            cs@ == input@,
            i <= cs@.len(),
            out@ == expand(cs@.subrange(0, i as int), |c: char| html_escape(c)),
        decreases cs@.len() - i,
    {
        proof {
            assert(cs@.subrange(0, i as int + 1).drop_last() == cs@.subrange(0, i as int));
        }
        let e = html_escape_exec(cs[i]);
        push_all(&mut out, &e);
        i = i + 1;
    }
    proof {
        assert(cs@.subrange(0, cs@.len() as int) == cs@);
    }
    string_of(&out)
}

/// Whether `c` has a meaning in regular expressions.
pub open spec fn regex_special(c: char) -> bool {
    c == '.' || c == '+' || c == '*' || c == '?' || c == '^' || c == '$' || c == '(' || c == ')'
        || c == '[' || c == ']' || c == '{' || c == '}' || c == '|' || c == '\\'
}

/// Regex escape of one character.
pub open spec fn regex_escape(c: char) -> Seq<char> {
    if regex_special(c) {
        seq!['\\', c]
    } else {
        seq![c]
    }
}

/// Regular-expression metacharacters preceded by a backslash.
pub fn escape_regex(input: &str) -> (r: String)
    ensures
        r@ == expand(input@, |c: char| regex_escape(c)),
{
    let cs = chars_of(input);
    let mut out: Vec<char> = Vec::new();
    let mut i: usize = 0;
    while i < cs.len()
        invariant
            cs@ == input@,
            i <= cs@.len(),
            out@ == expand(cs@.subrange(0, i as int), |c: char| regex_escape(c)),
        decreases cs@.len() - i,
    {
        proof {
            assert(cs@.subrange(0, i as int + 1).drop_last() == cs@.subrange(0, i as int));
        }
        let c = cs[i];
        if c == '.' || c == '+' || c == '*' || c == '?' || c == '^' || c == '$' || c == '(' || c
            == ')' || c == '[' || c == ']' || c == '{' || c == '}' || c == '|' || c == '\\' {
            out.push('\\');
            out.push(c);
            proof {
                assert(seq!['\\', c] =~= seq!['\\'].push(c));
            }
        } else {
            out.push(c);
        }
        proof {
            assert(out@ =~= expand(cs@.subrange(0, i as int + 1), |c: char| regex_escape(c)));
        }
        i = i + 1;
    }
    proof {
        assert(cs@.subrange(0, cs@.len() as int) == cs@);
    }
    string_of(&out)
}

/// Shell quoting of one character inside single quotes.
pub open spec fn shell_escape(c: char) -> Seq<char> {
    if c == '\'' {
        seq!['\'', '\\', '\'', '\'']
    } else {
        seq![c]
    }
}

/// `s` in single quotes for a POSIX shell, each `'` written `'\''`.
pub fn escape_shell(s: &str) -> (r: String)
    ensures
        r@ == seq!['\''] + expand(s@, |c: char| shell_escape(c)) + seq!['\''],
{
    let cs = chars_of(s);
    let mut out: Vec<char> = Vec::new();
    out.push('\'');
    let mut i: usize = 0;
    while i < cs.len()
        invariant
            cs@ == s@,
            i <= cs@.len(),
            out@ == seq!['\''] + expand(cs@.subrange(0, i as int), |c: char| shell_escape(c)),
        decreases cs@.len() - i,
    {
        proof {
            assert(cs@.subrange(0, i as int + 1).drop_last() == cs@.subrange(0, i as int));
        }
        let c = cs[i];
        if c == '\'' {
            out.push('\'');
            out.push('\\');
            out.push('\'');
            out.push('\'');
        } else {
            out.push(c);
        }
        proof {
            assert(out@ =~= seq!['\''] + expand(cs@.subrange(0, i as int + 1), |c: char| shell_escape(c)));
        }
        i = i + 1;
    }
    out.push('\'');
    proof {
        assert(cs@.subrange(0, cs@.len() as int) == cs@);
    }
    string_of(&out)
}

/// Whether `s` has exactly one `@` and a `.` after it.
pub open spec fn email_ok(s: Seq<char>) -> bool {
    exists|at: int|
        0 <= at < s.len() && s[at] == '@' && (forall|j: int| 0 <= j < s.len() && j != at ==> s[j] != '@')
            && (exists|d: int| at < d < s.len() && s[d] == '.')
}

/// Whether `s` looks like an e-mail address: one `@`, and a `.` after it.
pub fn is_email(s: &str) -> (r: bool)
    ensures
        r == email_ok(s@),
{
    let cs = chars_of(s);
    let n = cs.len();
    let mut at: usize = n;
    let mut i: usize = 0;
    while i < n
        invariant
            cs@ == s@,
            n == cs@.len(),
            i <= n,
            at <= n,
            at == n ==> forall|j: int| 0 <= j < i ==> cs@[j] != '@',
            at < n ==> at < i && cs@[at as int] == '@' && forall|j: int| 0 <= j < i && j != at ==> cs@[j] != '@',
        decreases n - i,
    {
        if cs[i] == '@' {
            if at < n {
                proof {
                    assert forall|x: int| 0 <= x < s@.len() && s@[x] == '@' && (forall|j: int| 0 <= j < s@.len() && j != x ==> s@[j] != '@') implies false by {
                        if x != at as int {
                            assert(s@[at as int] == '@');
                        } else {
                            assert(s@[i as int] == '@');
                        }
                    }
                }
                return false;
            }
            at = i;
        }
        i = i + 1;
    }
    if at == n {
        return false;
    }
    let mut k: usize = at + 1;
    while k < n
        invariant
            cs@ == s@,
            n == cs@.len(),
            at < n,
            at < k <= n,
            cs@[at as int] == '@',
            forall|j: int| 0 <= j < n && j != at ==> cs@[j] != '@',
            forall|j: int| at < j < k ==> cs@[j] != '.',
        decreases n - k,
    {
        if cs[k] == '.' {
            return true;
        }
        k = k + 1;
    }
    proof {
        assert forall|x: int| 0 <= x < s@.len() && s@[x] == '@' && (forall|j: int| 0 <= j < s@.len() && j != x ==> s@[j] != '@') implies !(exists|d: int| x < d < s@.len() && s@[d] == '.') by {
            assert(x == at as int);
        }
    }
    false
}

/// Whether `c` is an ASCII hexadecimal digit.
pub open spec fn is_hex(c: char) -> bool {
    ('0' <= c <= '9') || ('a' <= c <= 'f') || ('A' <= c <= 'F')
}

/// Whether `s` is a version-4 UUID: five dash-separated groups of 8, 4, 4,
/// 4 and 12 hex digits, the third starting with `4`.
pub open spec fn uuid_ok(s: Seq<char>) -> bool {
    &&& s.len() == 36
    &&& forall|i: int|
        0 <= i < 36 ==> if i == 8 || i == 13 || i == 18 || i == 23 {
            s[i] == '-'
        } else {
            is_hex(#[trigger] s[i])
        }
    &&& s[14] == '4'
}

/// Whether `s` is a version-4 UUID in text form (either case).
pub fn is_uuid(s: &str) -> (r: bool)
    ensures
        r == uuid_ok(s@),
{
    let cs = chars_of(s);
    if cs.len() != 36 {
        return false;
    }
    let mut i: usize = 0;
    while i < 36
        invariant
            cs@ == s@,
            cs@.len() == 36,
            i <= 36,
            forall|j: int|
                0 <= j < i ==> if j == 8 || j == 13 || j == 18 || j == 23 {
                    cs@[j] == '-'
                } else {
                    is_hex(#[trigger] cs@[j])
                },
        decreases 36 - i,
    {
        let c = cs[i];
        let ok = if i == 8 || i == 13 || i == 18 || i == 23 {
            c == '-'
        } else {
            ('0' <= c && c <= '9') || ('a' <= c && c <= 'f') || ('A' <= c && c <= 'F')
        };
        if !ok {
            proof {
                assert(!(if i == 8 || i == 13 || i == 18 || i == 23 {
                    cs@[i as int] == '-'
                } else {
                    is_hex(cs@[i as int])
                }));
            }
            return false;
        }
        i = i + 1;
    }
    cs[14] == '4'
}

/// Upper-case hexadecimal digit of `v < 16`.
pub open spec fn hex_upper(v: int) -> char {
    if v < 10 {
        (v + 48) as u8 as char
    } else {
        (v - 10 + 65) as u8 as char
    }
}

/// Whether byte `b` stands for itself in a URL.
pub open spec fn url_safe(b: u8) -> bool {
    b == 45 || b == 95 || b == 46 || b == 126 || (48 <= b <= 57) || (65 <= b <= 90) || (97 <= b
        <= 122)
}

/// URL encoding of one byte.
pub open spec fn url_byte(b: u8) -> Seq<char> {
    if url_safe(b) {
        seq![b as char]
    } else if b == 32 {
        seq!['%', '2', '0']
    } else {
        seq!['%', hex_upper(b as int / 16), hex_upper(b as int % 16)]
    }
}

/// `b` with each byte replaced by what `f` gives for it.
pub open spec fn expand_bytes(b: Seq<u8>, f: spec_fn(u8) -> Seq<char>) -> Seq<char>
    decreases b.len(),
{
    if b.len() == 0 {
        Seq::empty()
    } else {
        expand_bytes(b.drop_last(), f) + f(b.last())
    }
}

fn hex_upper_exec(v: u8) -> (r: char)
    requires
        v < 16,
    ensures
        r == hex_upper(v as int),
{
    if v < 10 {
        (v + 48) as char
    } else {
        (v - 10 + 65) as char
    }
}

/// Percent-encoding of the UTF-8 bytes of `input`: letters, digits and
/// `-_.~` kept, space as `%20`, other bytes as `%XX`.
pub fn url_encode(input: &str) -> (r: String)
    ensures
        r@ == expand_bytes(input.spec_bytes(), |b: u8| url_byte(b)),
{
    let bytes = input.as_bytes();
    let mut out: Vec<char> = Vec::new();
    let mut i: usize = 0;
    while i < bytes.len()
        invariant
            bytes@ == input.spec_bytes(),
            i <= bytes@.len(),
            out@ == expand_bytes(bytes@.subrange(0, i as int), |b: u8| url_byte(b)),
        decreases bytes@.len() - i,
    {
        proof {
            assert(bytes@.subrange(0, i as int + 1).drop_last() == bytes@.subrange(0, i as int));
        }
        let b = bytes[i];
        if b == 45 || b == 95 || b == 46 || b == 126 || (48 <= b && b <= 57) || (65 <= b && b <= 90)
            || (97 <= b && b <= 122) {
            out.push(b as char);
        } else if b == 32 {
            out.push('%');
            out.push('2');
            out.push('0');
        } else {
            out.push('%');
            out.push(hex_upper_exec(b / 16));
            out.push(hex_upper_exec(b % 16));
        }
        proof {
            assert(out@ =~= expand_bytes(bytes@.subrange(0, i as int + 1), |b: u8| url_byte(b)));
        }
        i = i + 1;
    }
    proof {
        assert(bytes@.subrange(0, bytes@.len() as int) == bytes@);
    }
    string_of(&out)
}

/// Value of an ASCII hexadecimal digit byte.
pub open spec fn hex_byte_value(b: u8) -> Option<u8> {
    if 48 <= b <= 57 {
        Some((b - 48) as u8)
    } else if 97 <= b <= 102 {
        Some((b - 97 + 10) as u8)
    } else if 65 <= b <= 70 {
        Some((b - 65 + 10) as u8)
    } else {
        None
    }
}

fn hex_byte_value_exec(b: u8) -> (r: Option<u8>)
    ensures
        r == hex_byte_value(b),
{
    if 48 <= b && b <= 57 {
        Some(b - 48)
    } else if 97 <= b && b <= 102 {
        Some(b - 97 + 10)
    } else if 65 <= b && b <= 70 {
        Some(b - 65 + 10)
    } else {
        None
    }
}

/// Percent-decoding: `%XX` with two hex digits becomes the byte `XX`,
/// every byte read as the character of that code (Latin-1).
pub open spec fn url_decode_spec(b: Seq<u8>) -> Seq<char>
    decreases b.len(),
{
    if b.len() == 0 {
        Seq::empty()
    } else if b[0] == 37 && b.len() > 2 && hex_byte_value(b[1]) is Some && hex_byte_value(b[2]) is Some {
        seq![(hex_byte_value(b[1])->Some_0 * 16 + hex_byte_value(b[2])->Some_0) as u8 as char]
            + url_decode_spec(b.subrange(3, b.len() as int))
    } else {
        seq![b[0] as char] + url_decode_spec(b.subrange(1, b.len() as int))
    }
}

/// Percent-decoding of `input`; bytes other than valid `%XX` escapes are
/// kept, each read as the character of its code.
pub fn url_decode(input: &str) -> (r: String)
    ensures
        r@ == url_decode_spec(input.spec_bytes()),
{
    let bytes = input.as_bytes();
    let n = bytes.len();
    let mut out: Vec<char> = Vec::new();
    let mut i: usize = 0;
    proof {
        assert(bytes@.subrange(0, n as int) == bytes@);
        assert(out@ + url_decode_spec(bytes@) =~= url_decode_spec(bytes@));
    }
    while i < n
        invariant
            bytes@ == input.spec_bytes(),
            n == bytes@.len(),
            i <= n,
            out@ + url_decode_spec(bytes@.subrange(i as int, n as int)) == url_decode_spec(bytes@),
        decreases n - i,
    {
        let ghost rest = bytes@.subrange(i as int, n as int);
        if bytes[i] == 37 && n - i > 2 {
            let h = hex_byte_value_exec(bytes[i + 1]);
            let l = hex_byte_value_exec(bytes[i + 2]);
            if let (Some(h), Some(l)) = (h, l) {
                proof {
                    assert(rest.subrange(3, rest.len() as int) == bytes@.subrange(i + 3, n as int));
                    assert(rest[1] == bytes@[i + 1] && rest[2] == bytes@[i + 2]);
                }
                out.push((h * 16 + l) as char);
                proof {
                    assert(out@ + url_decode_spec(bytes@.subrange(i + 3, n as int)) =~= url_decode_spec(bytes@)) by {
                        assert(seq![(h * 16 + l) as char] + url_decode_spec(bytes@.subrange(i + 3, n as int)) == url_decode_spec(rest));
                    }
                }
                i = i + 3;
                continue;
            }
        }
        proof {
            assert(rest.subrange(1, rest.len() as int) == bytes@.subrange(i + 1, n as int));
            assert(rest[0] == bytes@[i as int]);
            assert(seq![bytes@[i as int] as char] + url_decode_spec(bytes@.subrange(i + 1, n as int)) == url_decode_spec(rest));
        }
        out.push(bytes[i] as char);
        proof {
            assert(out@ + url_decode_spec(bytes@.subrange(i + 1, n as int)) =~= url_decode_spec(bytes@));
        }
        i = i + 1;
    }
    proof {
        assert(bytes@.subrange(n as int, n as int) == Seq::<u8>::empty());
        assert(out@ + Seq::<char>::empty() == out@);
    }
    string_of(&out)
}

/// Whether `c` is an ASCII upper-case letter.
pub open spec fn is_upper(c: char) -> bool {
    'A' <= c <= 'Z'
}

/// ASCII lower case of `c`.
pub open spec fn lower(c: char) -> char {
    if is_upper(c) {
        (c as int + 32) as u8 as char
    } else {
        c
    }
}

fn lower_exec(c: char) -> (r: char)
    ensures
        r == lower(c),
{
    if 'A' <= c && c <= 'Z' {
        ((c as u8) + 32) as char
    } else {
        c
    }
}

/// Whether `c` separates words in identifiers: `-`, space or `_`.
pub open spec fn is_sep(c: char) -> bool {
    c == '-' || c == ' ' || c == '_'
}

/// Snake-case conversion of `s`, with whether the last character read was
/// upper case and whether it was a separator.
pub open spec fn snake_state(s: Seq<char>) -> (Seq<char>, bool, bool)
    decreases s.len(),
{
    if s.len() == 0 {
        (Seq::empty(), false, false)
    } else {
        let (out, prev_upper, last_sep) = snake_state(s.drop_last());
        let c = s.last();
        let first = s.len() == 1;
        if is_upper(c) {
            let o = if !first && !prev_upper && !last_sep {
                out.push('_')
            } else {
                out
            };
            (o.push(lower(c)), true, false)
        } else if is_sep(c) {
            let o = if out.len() > 0 && out.last() != '_' {
                out.push('_')
            } else {
                out
            };
            (o, false, true)
        } else {
            (out.push(c), false, false)
        }
    }
}

fn snake_chars(cs: &Vec<char>) -> (r: Vec<char>)
    ensures
        r@ == snake_state(cs@).0,
{
    let mut out: Vec<char> = Vec::new();
    let mut prev_upper = false;
    let mut last_sep = false;
    let mut i: usize = 0;
    while i < cs.len()
        invariant
            i <= cs@.len(),
            snake_state(cs@.subrange(0, i as int)) == (out@, prev_upper, last_sep),
        decreases cs@.len() - i,
    {
        proof {
            assert(cs@.subrange(0, i as int + 1).drop_last() == cs@.subrange(0, i as int));
        }
        let c = cs[i];
        if 'A' <= c && c <= 'Z' {
            if i > 0 && !prev_upper && !last_sep {
                out.push('_');
            }
            out.push(lower_exec(c));
            prev_upper = true;
            last_sep = false;
        } else if c == '-' || c == ' ' || c == '_' {
            let n = out.len();
            if n > 0 && out[n - 1] != '_' {
                out.push('_');
            }
            prev_upper = false;
            last_sep = true;
        } else {
            out.push(c);
            prev_upper = false;
            last_sep = false;
        }
        i = i + 1;
    }
    proof {
        assert(cs@.subrange(0, cs@.len() as int) == cs@);
    }
    out
}

/// `snake_case` form: an upper-case ASCII letter starts a new word (unless
/// it follows another one or a separator) and is lowered; `-`, space and
/// `_` become one `_`.
pub fn to_snake_case(s: &str) -> (r: String)
    ensures
        r@ == snake_state(s@).0,
{
    let cs = chars_of(s);
    let out = snake_chars(&cs);
    string_of(&out)
}

/// `kebab-case` form: the snake-case form with `-` for `_`.
pub fn to_kebab_case(s: &str) -> (r: String)
    ensures
        r@ == snake_state(s@).0.map_values(|c: char| if c == '_' {
            '-'
        } else {
            c
        }),
{
    let cs = chars_of(s);
    let snake = snake_chars(&cs);
    let mut out: Vec<char> = Vec::new();
    let mut i: usize = 0;
    while i < snake.len()
        invariant
            i <= snake@.len(),
            out@ == snake@.subrange(0, i as int).map_values(|c: char| if c == '_' {
                '-'
            } else {
                c
            }),
        decreases snake@.len() - i,
    {
        let c = snake[i];
        out.push(if c == '_' {
            '-'
        } else {
            c
        });
        proof {
            assert(snake@.subrange(0, i as int + 1) == snake@.subrange(0, i as int).push(c));
        }
        i = i + 1;
    }
    proof {
        assert(snake@.subrange(0, snake@.len() as int) == snake@);
    }
    string_of(&out)
}

/// Whether `c` is an ASCII letter or digit.
pub open spec fn is_alnum(c: char) -> bool {
    ('a' <= c <= 'z') || ('A' <= c <= 'Z') || is_digit(c)
}

/// Slug of `s` before the trailing dash is dropped, with whether the last
/// character written was a dash.
pub open spec fn slug_state(s: Seq<char>) -> (Seq<char>, bool)
    decreases s.len(),
{
    if s.len() == 0 {
        (Seq::empty(), false)
    } else {
        let (out, last_dash) = slug_state(s.drop_last());
        let c = s.last();
        if is_alnum(c) {
            (out.push(lower(c)), false)
        } else if (is_ws(c) || c == '-' || c == '_') && !last_dash && out.len() > 0 {
            (out.push('-'), true)
        } else {
            (out, last_dash)
        }
    }
}

/// URL slug: ASCII letters and digits in lower case, runs of white space,
/// `-` and `_` as one `-` (none at the ends), everything else dropped.
pub fn slugify(input: &str) -> (r: String)
    ensures
        r@ == (if slug_state(input@).0.len() > 0 && slug_state(input@).0.last() == '-' {
            slug_state(input@).0.drop_last()
        } else {
            slug_state(input@).0
        }),
{
    let cs = chars_of(input);
    let mut out: Vec<char> = Vec::new();
    let mut last_dash = false;
    let mut i: usize = 0;
    while i < cs.len()
        invariant
            cs@ == input@,
            i <= cs@.len(),
            slug_state(cs@.subrange(0, i as int)) == (out@, last_dash),
        decreases cs@.len() - i,
    {
        proof {
            assert(cs@.subrange(0, i as int + 1).drop_last() == cs@.subrange(0, i as int));
        }
        let c = cs[i];
        if ('a' <= c && c <= 'z') || ('A' <= c && c <= 'Z') || ('0' <= c && c <= '9') {
            out.push(lower_exec(c));
            last_dash = false;
        } else if (crate::validation::is_ws_char(c) || c == '-' || c == '_') && !last_dash
            && out.len() > 0 {
            out.push('-');
            last_dash = true;
        }
        i = i + 1;
    }
    proof {
        assert(cs@.subrange(0, cs@.len() as int) == cs@);
    }
    let n = out.len();
    if n > 0 && out[n - 1] == '-' {
        out.pop();
    }
    string_of(&out)
}

/// Characters that `random_string` draws from.
pub open spec fn alnum_charset() -> Seq<char> {
    seq![
        'a', 'b', 'c', 'd', 'e', 'f', 'g', 'h', 'i', 'j', 'k', 'l', 'm', 'n', 'o', 'p', 'q', 'r',
        's', 't', 'u', 'v', 'w', 'x', 'y', 'z', 'A', 'B', 'C', 'D', 'E', 'F', 'G', 'H', 'I', 'J',
        'K', 'L', 'M', 'N', 'O', 'P', 'Q', 'R', 'S', 'T', 'U', 'V', 'W', 'X', 'Y', 'Z', '0', '1',
        '2', '3', '4', '5', '6', '7', '8', '9',
    ]
}

/// `len` pseudo-random ASCII letters and digits.
pub fn random_string(len: usize) -> (r: String)
    ensures
        r@.len() == len,
        forall|i: int| 0 <= i < len ==> alnum_charset().contains(#[trigger] r@[i]),
{
    let charset = vec![
        'a', 'b', 'c', 'd', 'e', 'f', 'g', 'h', 'i', 'j', 'k', 'l', 'm', 'n', 'o', 'p', 'q', 'r',
        's', 't', 'u', 'v', 'w', 'x', 'y', 'z', 'A', 'B', 'C', 'D', 'E', 'F', 'G', 'H', 'I', 'J',
        'K', 'L', 'M', 'N', 'O', 'P', 'Q', 'R', 'S', 'T', 'U', 'V', 'W', 'X', 'Y', 'Z', '0', '1',
        '2', '3', '4', '5', '6', '7', '8', '9',
    ];
    proof {
        assert(charset@ == alnum_charset());
    }
    let mut g = crate::random::Lcg::new(crate::random::clock_seed());
    let mut out: Vec<char> = Vec::new();
    let mut k: usize = 0;
    while k < len
        invariant
            charset@ == alnum_charset(),
            k <= len,
            out@.len() == k,
            forall|i: int| 0 <= i < k ==> alnum_charset().contains(#[trigger] out@[i]),
        decreases len - k,
    {
        let idx = (g.next_u64() as usize) % charset.len();
        let c = charset[idx];
        proof {
            assert(alnum_charset()[idx as int] == c);
        }
        out.push(c);
        proof {
            assert(out@[k as int] == c);
        }
        k = k + 1;
    }
    string_of(&out)
}

/// Unicode lower case of a whole string, as `str::to_lowercase` gives it.
pub uninterp spec fn lower_of(s: Seq<char>) -> Seq<char>;

/// Relies on `str::to_lowercase`: the result depends on the characters of
/// `s` alone, and empty text stays empty.
#[verifier::external_body]
fn lowercase(s: &str) -> (r: String)
    ensures
        r@ == lower_of(s@),
        s@.len() == 0 ==> r@.len() == 0,
{
    s.to_lowercase()
}

/// Whether `n` occurs in `h` as a contiguous run.
pub open spec fn contains_seq(h: Seq<char>, n: Seq<char>) -> bool {
    exists|i: int| 0 <= i && i + n.len() <= h.len() && #[trigger] h.subrange(i, i + n.len()) == n
}

fn contains_chars(h: &Vec<char>, n: &Vec<char>) -> (r: bool)
    ensures
        r == contains_seq(h@, n@),
{
    if n.len() > h.len() {
        return false;
    }
    if n.len() == 0 {
        proof {
            assert(h@.subrange(0, 0 + n@.len() as int) =~= n@);
        }
        return true;
    }
    let hl = h.len();
    let last = hl - n.len();
    let mut i: usize = 0;
    while i <= last
        invariant
            hl == h@.len(),
            n@.len() > 0,
            last == h@.len() - n@.len(),
            n@.len() <= h@.len(),
            i <= last + 1,
            forall|j: int| 0 <= j < i ==> #[trigger] h@.subrange(j, j + n@.len()) != n@,
        decreases last + 1 - i,
    {
        let mut k: usize = 0;
        while k < n.len() && h[i + k] == n[k]
            invariant
                hl == h@.len(),
                i <= last,
                last == h@.len() - n@.len(),
                k <= n@.len(),
                forall|j: int| 0 <= j < k ==> h@[i + j] == n@[j],
            decreases n@.len() - k,
        {
            k = k + 1;
        }
        if k == n.len() {
            proof {
                assert(h@.subrange(i as int, i + n@.len()) =~= n@);
            }
            return true;
        }
        proof {
            assert(h@.subrange(i as int, i + n@.len())[k as int] != n@[k as int]);
        }
        i = i + 1;
    }
    proof {
        assert forall|j: int| 0 <= j && j + n@.len() <= h@.len() implies #[trigger] h@.subrange(j, j + n@.len()) != n@ by {
            assert(j < i);
        }
    }
    false
}

/// Whether `needle` occurs in `haystack`.
pub fn contains_str(haystack: &str, needle: &str) -> (r: bool)
    ensures
        r == contains_seq(haystack@, needle@),
{
    let h = chars_of(haystack);
    let n = chars_of(needle);
    contains_chars(&h, &n)
}

/// Whether `s` starts with `prefix`.
pub fn starts_with_str(s: &str, prefix: &str) -> (r: bool)
    ensures
        r == (prefix@.len() <= s@.len() && s@.subrange(0, prefix@.len() as int) == prefix@),
{
    let cs = chars_of(s);
    let p = chars_of(prefix);
    seq_starts_with(&cs, &p)
}

/// Whether `s` ends with `suffix`.
pub fn ends_with_str(s: &str, suffix: &str) -> (r: bool)
    ensures
        r == ends(s@, suffix@),
{
    let cs = chars_of(s);
    let p = chars_of(suffix);
    seq_ends_with(&cs, &p)
}

/// Whether `needle` occurs in `haystack`, ignoring case.
pub fn contains_ci(haystack: &str, needle: &str) -> (r: bool)
    ensures
        r == contains_seq(lower_of(haystack@), lower_of(needle@)),
{
    let h = lowercase(haystack);
    let n = lowercase(needle);
    contains_str(h.as_str(), n.as_str())
}

/// Whether `haystack` starts with `prefix`, ignoring case.
pub fn starts_with_ci(haystack: &str, prefix: &str) -> (r: bool)
    ensures
        r == (lower_of(prefix@).len() <= lower_of(haystack@).len() && lower_of(haystack@).subrange(
            0,
            lower_of(prefix@).len() as int,
        ) == lower_of(prefix@)),
{
    let h = lowercase(haystack);
    let p = lowercase(prefix);
    starts_with_str(h.as_str(), p.as_str())
}

/// Whether `haystack` ends with `suffix`, ignoring case.
pub fn ends_with_ci(haystack: &str, suffix: &str) -> (r: bool)
    ensures
        r == ends(lower_of(haystack@), lower_of(suffix@)),
{
    let h = lowercase(haystack);
    let p = lowercase(suffix);
    ends_with_str(h.as_str(), p.as_str())
}

/// `min(x, y, z)`.
pub open spec fn min3(x: int, y: int, z: int) -> int {
    if x <= y && x <= z {
        x
    } else if y <= z {
        y
    } else {
        z
    }
}

/// Levenshtein distance: the fewest insertions, deletions and
/// substitutions of single characters that turn `a` into `b`.
pub open spec fn lev(a: Seq<char>, b: Seq<char>) -> int
    decreases a.len() + b.len(),
{
    if a.len() == 0 {
        b.len() as int
    } else if b.len() == 0 {
        a.len() as int
    } else {
        min3(
            lev(a.drop_last(), b) + 1,
            lev(a, b.drop_last()) + 1,
            lev(a.drop_last(), b.drop_last()) + (if a.last() == b.last() {
                0int
            } else {
                1int
            }),
        )
    }
}

proof fn lemma_lev_bounds(a: Seq<char>, b: Seq<char>)
    ensures
        0 <= lev(a, b) <= a.len() + b.len(),
    decreases a.len() + b.len(),
{
    if a.len() > 0 && b.len() > 0 {
        lemma_lev_bounds(a.drop_last(), b);
        lemma_lev_bounds(a, b.drop_last());
        lemma_lev_bounds(a.drop_last(), b.drop_last());
    }
}

/// Levenshtein distance between `a` and `b`, counted in characters.
pub fn levenshtein_distance(a: &str, b: &str) -> (r: usize)
    requires
        a@.len() + b@.len() < usize::MAX,
    ensures
        r == lev(a@, b@),
{
    let x = chars_of(a);
    let y = chars_of(b);
    let n = x.len();
    let m = y.len();
    let mut prev: Vec<usize> = Vec::new();
    let mut k: usize = 0;
    while k <= m
        invariant
            m == y@.len(),
            n == x@.len(),
            n + m < usize::MAX,
            k <= m + 1,
            prev@.len() == k,
            forall|j: int| 0 <= j < k ==> prev@[j] == lev(x@.subrange(0, 0), y@.subrange(0, j)),
        decreases m + 1 - k,
    {
        proof {
            assert(x@.subrange(0, 0).len() == 0);
        }
        prev.push(k);
        k = k + 1;
    }
    let mut i: usize = 0;
    while i < n
        invariant
            m == y@.len(),
            n == x@.len(),
            n + m < usize::MAX,
            i <= n,
            prev@.len() == m + 1,
            forall|j: int| 0 <= j <= m ==> prev@[j] == lev(x@.subrange(0, i as int), y@.subrange(0, j)),
        decreases n - i,
    {
        let ghost xa = x@.subrange(0, i as int + 1);
        proof {
            assert(xa.drop_last() == x@.subrange(0, i as int));
            assert(xa.last() == x@[i as int]);
            assert(y@.subrange(0, 0).len() == 0);
        }
        let mut cur: Vec<usize> = Vec::new();
        cur.push(i + 1);
        let mut j: usize = 0;
        while j < m
            invariant
                m == y@.len(),
                n == x@.len(),
                n + m < usize::MAX,
                i < n,
                j <= m,
                xa == x@.subrange(0, i as int + 1),
                xa.drop_last() == x@.subrange(0, i as int),
                xa.last() == x@[i as int],
                prev@.len() == m + 1,
                forall|q: int| 0 <= q <= m ==> prev@[q] == lev(x@.subrange(0, i as int), y@.subrange(0, q)),
                cur@.len() == j + 1,
                forall|q: int| 0 <= q <= j ==> cur@[q] == lev(xa, y@.subrange(0, q)),
            decreases m - j,
        {
            let ghost yb = y@.subrange(0, j as int + 1);
            proof {
                assert(yb.drop_last() == y@.subrange(0, j as int));
                assert(yb.last() == y@[j as int]);
                lemma_lev_bounds(x@.subrange(0, i as int), yb);
                lemma_lev_bounds(xa, y@.subrange(0, j as int));
                lemma_lev_bounds(x@.subrange(0, i as int), y@.subrange(0, j as int));
            }
            let cost: usize = if x[i] == y[j] {
                0
            } else {
                1
            };
            let del = prev[j + 1] + 1;
            let ins = cur[j] + 1;
            let sub = prev[j] + cost;
            let v = if del <= ins && del <= sub {
                del
            } else if ins <= sub {
                ins
            } else {
                sub
            };
            cur.push(v);
            j = j + 1;
        }
        prev = cur;
        i = i + 1;
    }
    proof {
        assert(x@.subrange(0, n as int) == x@);
        assert(y@.subrange(0, m as int) == y@);
    }
    prev[m]
}

/// Optimal-string-alignment distance: Levenshtein with swaps of two
/// adjacent characters counted as one edit.
pub open spec fn osa(a: Seq<char>, b: Seq<char>) -> int
    decreases a.len() + b.len(),
{
    if a.len() == 0 {
        b.len() as int
    } else if b.len() == 0 {
        a.len() as int
    } else {
        let base = min3(
            osa(a.drop_last(), b) + 1,
            osa(a, b.drop_last()) + 1,
            osa(a.drop_last(), b.drop_last()) + (if a.last() == b.last() {
                0int
            } else {
                1int
            }),
        );
        if a.len() > 1 && b.len() > 1 && a.last() == b[b.len() - 2] && a[a.len() - 2] == b.last() {
            let t = osa(a.subrange(0, a.len() - 2), b.subrange(0, b.len() - 2)) + 1;
            if t < base {
                t
            } else {
                base
            }
        } else {
            base
        }
    }
}

proof fn lemma_osa_bounds(a: Seq<char>, b: Seq<char>)
    ensures
        0 <= osa(a, b) <= a.len() + b.len(),
    decreases a.len() + b.len(),
{
    if a.len() > 0 && b.len() > 0 {
        lemma_osa_bounds(a.drop_last(), b);
        lemma_osa_bounds(a, b.drop_last());
        lemma_osa_bounds(a.drop_last(), b.drop_last());
        if a.len() > 1 && b.len() > 1 {
            lemma_osa_bounds(a.subrange(0, a.len() - 2), b.subrange(0, b.len() - 2));
        }
    }
}

/// Damerau-Levenshtein distance (optimal string alignment) between `a`
/// and `b`, counted in characters.
pub fn damerau_levenshtein(a: &str, b: &str) -> (r: usize)
    requires
        a@.len() + b@.len() < usize::MAX,
    ensures
        r == osa(a@, b@),
{
    let x = chars_of(a);
    let y = chars_of(b);
    let n = x.len();
    let m = y.len();
    let mut prev2: Vec<usize> = Vec::new();
    let mut prev: Vec<usize> = Vec::new();
    let mut k: usize = 0;
    while k <= m
        invariant
            m == y@.len(),
            n + m < usize::MAX,
            k <= m + 1,
            prev@.len() == k,
            prev2@.len() == k,
            forall|j: int| 0 <= j < k ==> prev@[j] == osa(x@.subrange(0, 0), y@.subrange(0, j)),
        decreases m + 1 - k,
    {
        prev.push(k);
        prev2.push(k);
        k = k + 1;
    }
    let mut i: usize = 0;
    while i < n
        invariant
            m == y@.len(),
            n == x@.len(),
            n + m < usize::MAX,
            i <= n,
            prev@.len() == m + 1,
            prev2@.len() == m + 1,
            forall|j: int| 0 <= j <= m ==> prev@[j] == osa(x@.subrange(0, i as int), y@.subrange(0, j)),
            i >= 1 ==> forall|j: int| 0 <= j <= m ==> prev2@[j] == osa(x@.subrange(0, i - 1), y@.subrange(0, j)),
        decreases n - i,
    {
        let ghost xa = x@.subrange(0, i as int + 1);
        proof {
            assert(xa.drop_last() == x@.subrange(0, i as int));
            assert(xa.last() == x@[i as int]);
            if i >= 1 {
                assert(xa.subrange(0, xa.len() - 2) == x@.subrange(0, i - 1));
                assert(xa[xa.len() - 2] == x@[i - 1]);
            }
        }
        let mut cur: Vec<usize> = Vec::new();
        cur.push(i + 1);
        let mut j: usize = 0;
        while j < m
            invariant
                m == y@.len(),
                n == x@.len(),
                n + m < usize::MAX,
                i < n,
                j <= m,
                xa == x@.subrange(0, i as int + 1),
                xa.drop_last() == x@.subrange(0, i as int),
                xa.last() == x@[i as int],
                i >= 1 ==> xa.subrange(0, xa.len() - 2) == x@.subrange(0, i - 1),
                i >= 1 ==> xa[xa.len() - 2] == x@[i - 1],
                prev@.len() == m + 1,
                prev2@.len() == m + 1,
                forall|q: int| 0 <= q <= m ==> prev@[q] == osa(x@.subrange(0, i as int), y@.subrange(0, q)),
                i >= 1 ==> forall|q: int| 0 <= q <= m ==> prev2@[q] == osa(x@.subrange(0, i - 1), y@.subrange(0, q)),
                cur@.len() == j + 1,
                forall|q: int| 0 <= q <= j ==> cur@[q] == osa(xa, y@.subrange(0, q)),
            decreases m - j,
        {
            let ghost yb = y@.subrange(0, j as int + 1);
            proof {
                assert(yb.drop_last() == y@.subrange(0, j as int));
                assert(yb.last() == y@[j as int]);
                if j >= 1 {
                    assert(yb.subrange(0, yb.len() - 2) == y@.subrange(0, j - 1));
                    assert(yb[yb.len() - 2] == y@[j - 1]);
                }
                lemma_osa_bounds(x@.subrange(0, i as int), yb);
                lemma_osa_bounds(xa, y@.subrange(0, j as int));
                lemma_osa_bounds(x@.subrange(0, i as int), y@.subrange(0, j as int));
                if i >= 1 && j >= 1 {
                    lemma_osa_bounds(x@.subrange(0, i - 1), y@.subrange(0, j - 1));
                }
            }
            let cost: usize = if x[i] == y[j] {
                0
            } else {
                1
            };
            let del = prev[j + 1] + 1;
            let ins = cur[j] + 1;
            let sub = prev[j] + cost;
            let mut v = if del <= ins && del <= sub {
                del
            } else if ins <= sub {
                ins
            } else {
                sub
            };
            if i >= 1 && j >= 1 && x[i] == y[j - 1] && x[i - 1] == y[j] {
                let t = prev2[j - 1] + 1;
                if t < v {
                    v = t;
                }
            }
            cur.push(v);
            j = j + 1;
        }
        prev2 = prev;
        prev = cur;
        i = i + 1;
    }
    proof {
        assert(x@.subrange(0, n as int) == x@);
        assert(y@.subrange(0, m as int) == y@);
    }
    prev[m]
}

/// Upper-case mapping of one character, as `char::to_uppercase` gives it.
pub uninterp spec fn upper_chars(c: char) -> Seq<char>;

/// Lower-case mapping of one character, as `char::to_lowercase` gives it.
pub uninterp spec fn lower_chars(c: char) -> Seq<char>;

/// Relies on `char::to_uppercase`: the mapping depends on `c` alone, and
/// takes an ASCII lower-case letter to its upper-case form and leaves
/// other ASCII characters as they are.
#[verifier::external_body]
fn char_upper(c: char) -> (r: Vec<char>)
    ensures
        r@ == upper_chars(c),
        (c as u32) < 128 ==> r@ == seq![upper(c)],
{
    c.to_uppercase().collect()
}

/// Relies on `char::to_lowercase`: the mapping depends on `c` alone, and
/// takes an ASCII upper-case letter to its lower-case form and leaves
/// other ASCII characters as they are.
#[verifier::external_body]
fn char_lower(c: char) -> (r: Vec<char>)
    ensures
        r@ == lower_chars(c),
        (c as u32) < 128 ==> r@ == seq![lower(c)],
{
    c.to_lowercase().collect()
}

/// `s` with its first character mapped by `f`.
pub open spec fn map_first(s: Seq<char>, f: spec_fn(char) -> Seq<char>) -> Seq<char> {
    if s.len() == 0 {
        s
    } else {
        f(s[0]) + s.drop_first()
    }
}

fn first_mapped(cs: &Vec<char>, to_upper: bool) -> (r: Vec<char>)
    ensures
        to_upper ==> r@ == map_first(cs@, |c: char| upper_chars(c)),
        !to_upper ==> r@ == map_first(cs@, |c: char| lower_chars(c)),
        cs@.len() > 0 && (cs@[0] as u32) < 128 ==> r@ == seq![
            if to_upper {
                upper(cs@[0])
            } else {
                lower(cs@[0])
            },
        ] + cs@.drop_first(),
        cs@.len() == 0 ==> r@.len() == 0,
{
    if cs.len() == 0 {
        return Vec::new();
    }
    let mut out = if to_upper {
        char_upper(cs[0])
    } else {
        char_lower(cs[0])
    };
    let rest = crate::collections::copy_range(cs.as_slice(), 1, cs.len());
    push_all(&mut out, &rest);
    proof {
        assert(cs@.drop_first() == cs@.subrange(1, cs@.len() as int));
    }
    out
}

/// `s` with its first character in upper case.
pub fn capitalize(s: &str) -> (r: String)
    ensures
        r@ == map_first(s@, |c: char| upper_chars(c)),
        s@.len() > 0 && (s@[0] as u32) < 128 ==> r@ == seq![upper(s@[0])] + s@.drop_first(),
{
    let cs = chars_of(s);
    let out = first_mapped(&cs, true);
    string_of(&out)
}

/// `s` with its first character in lower case.
pub fn uncapitalize(s: &str) -> (r: String)
    ensures
        r@ == map_first(s@, |c: char| lower_chars(c)),
        s@.len() > 0 && (s@[0] as u32) < 128 ==> r@ == seq![lower(s@[0])] + s@.drop_first(),
{
    let cs = chars_of(s);
    let out = first_mapped(&cs, false);
    string_of(&out)
}

/// ASCII upper case of `c`.
pub open spec fn upper(c: char) -> char {
    if 'a' <= c <= 'z' {
        (c as int - 32) as u8 as char
    } else {
        c
    }
}

/// Camel humps of a snake-case text: `_` dropped, the character after it
/// and the first character in ASCII upper case; with whether the next
/// character starts a hump.
pub open spec fn humps(s: Seq<char>) -> (Seq<char>, bool)
    decreases s.len(),
{
    if s.len() == 0 {
        (Seq::empty(), false)
    } else {
        let (out, cap) = humps(s.drop_last());
        let c = s.last();
        if c == '_' {
            (out, true)
        } else if cap || s.len() == 1 {
            (out.push(upper(c)), false)
        } else {
            (out.push(c), false)
        }
    }
}

fn humps_exec(cs: &Vec<char>) -> (r: Vec<char>)
    ensures
        r@ == humps(cs@).0,
{
    let mut out: Vec<char> = Vec::new();
    let mut cap = false;
    let mut i: usize = 0;
    while i < cs.len()
        invariant
            i <= cs@.len(),
            humps(cs@.subrange(0, i as int)) == (out@, cap),
        decreases cs@.len() - i,
    {
        proof {
            assert(cs@.subrange(0, i as int + 1).drop_last() == cs@.subrange(0, i as int));
        }
        let c = cs[i];
        if c == '_' {
            cap = true;
        } else if cap || i == 0 {
            out.push(if 'a' <= c && c <= 'z' {
                ((c as u8) - 32) as char
            } else {
                c
            });
            cap = false;
        } else {
            out.push(c);
        }
        i = i + 1;
    }
    proof {
        assert(cs@.subrange(0, cs@.len() as int) == cs@);
    }
    out
}

/// `camelCase` form: the snake-case words joined, each after the first
/// capitalized, the first character in lower case.
pub fn to_camel_case(s: &str) -> (r: String)
    ensures
        r@ == map_first(humps(snake_state(s@).0).0, |c: char| lower_chars(c)),
        ({
            let h = humps(snake_state(s@).0).0;
            h.len() > 0 && (h[0] as u32) < 128 ==> r@ == seq![lower(h[0])] + h.drop_first()
        }),
{
    let cs = chars_of(s);
    let snake = snake_chars(&cs);
    let h = humps_exec(&snake);
    let out = first_mapped(&h, false);
    string_of(&out)
}

/// `PascalCase` form: the camel-case form with its first character in
/// upper case.
pub fn to_pascal_case(s: &str) -> (r: String)
    ensures
        r@ == map_first(
            map_first(humps(snake_state(s@).0).0, |c: char| lower_chars(c)),
            |c: char| upper_chars(c),
        ),
{
    let cs = chars_of(s);
    let snake = snake_chars(&cs);
    let h = humps_exec(&snake);
    let camel = first_mapped(&h, false);
    let out = first_mapped(&camel, true);
    string_of(&out)
}

/// Words of `s` (runs without white space) joined by single spaces, with
/// whether a space is due before the next word.
pub open spec fn squeeze(s: Seq<char>) -> (Seq<char>, bool)
    decreases s.len(),
{
    if s.len() == 0 {
        (Seq::empty(), false)
    } else {
        let (out, gap) = squeeze(s.drop_last());
        let c = s.last();
        if is_ws(c) {
            (out, out.len() > 0)
        } else if gap {
            (out.push(' ').push(c), false)
        } else {
            (out.push(c), false)
        }
    }
}

/// The words of `s` joined by single spaces.
pub fn normalize_whitespace(s: &str) -> (r: String)
    ensures
        r@ == squeeze(s@).0,
{
    let cs = chars_of(s);
    let mut out: Vec<char> = Vec::new();
    let mut gap = false;
    let mut i: usize = 0;
    while i < cs.len()
        invariant
            cs@ == s@,
            i <= cs@.len(),
            squeeze(cs@.subrange(0, i as int)) == (out@, gap),
        decreases cs@.len() - i,
    {
        proof {
            assert(cs@.subrange(0, i as int + 1).drop_last() == cs@.subrange(0, i as int));
        }
        let c = cs[i];
        if crate::validation::is_ws_char(c) {
            gap = out.len() > 0;
        } else {
            if gap {
                out.push(' ');
            }
            out.push(c);
            gap = false;
        }
        i = i + 1;
    }
    proof {
        assert(cs@.subrange(0, cs@.len() as int) == cs@);
    }
    string_of(&out)
}

/// Start offsets of the non-overlapping occurrences of `n` in `h` at or
/// after `i`, leftmost first.
pub open spec fn matches_from(h: Seq<u8>, n: Seq<u8>, i: int) -> Seq<usize>
    decreases h.len() - i,
{
    if n.len() == 0 || i < 0 || i + n.len() > h.len() {
        Seq::empty()
    } else if h.subrange(i, i + n.len()) == n {
        seq![i as usize] + matches_from(h, n, i + n.len())
    } else {
        matches_from(h, n, i + 1)
    }
}

fn bytes_match_at(h: &[u8], n: &[u8], i: usize) -> (r: bool)
    requires
        i + n@.len() <= h@.len(),
    ensures
        r == (h@.subrange(i as int, i + n@.len()) == n@),
{
    let hl = h.len();
    let mut k: usize = 0;
    while k < n.len()
        invariant
            hl == h@.len(),
            i + n@.len() <= h@.len(),
            k <= n@.len(),
            forall|j: int| 0 <= j < k ==> h@[i + j] == n@[j],
        decreases n@.len() - k,
    {
        if h[i + k] != n[k] {
            proof {
                assert(h@.subrange(i as int, i + n@.len())[k as int] != n@[k as int]);
            }
            return false;
        }
        k = k + 1;
    }
    proof {
        assert(h@.subrange(i as int, i + n@.len()) =~= n@);
    }
    true
}

/// Byte offsets of the non-overlapping occurrences of `needle` in
/// `haystack`, leftmost first; none for an empty needle.
pub fn find_all_indices(haystack: &str, needle: &str) -> (r: Vec<usize>)
    ensures
        r@ == matches_from(haystack.spec_bytes(), needle.spec_bytes(), 0),
{
    let h = haystack.as_bytes();
    let n = needle.as_bytes();
    let mut out: Vec<usize> = Vec::new();
    if n.len() == 0 {
        return out;
    }
    let hl = h.len();
    let nl = n.len();
    let mut i: usize = 0;
    proof {
        assert(out@ + matches_from(h@, n@, 0) =~= matches_from(h@, n@, 0));
    }
    while i <= hl && nl <= hl - i
        invariant
            hl == h@.len(),
            nl == n@.len(),
            nl > 0,
            i <= hl + 1,
            out@ + matches_from(h@, n@, i as int) == matches_from(h@, n@, 0),
        decreases hl + 1 - i,
    {
        if bytes_match_at(h, n, i) {
            out.push(i);
            proof {
                assert(out@ + matches_from(h@, n@, i + nl) =~= matches_from(h@, n@, 0));
            }
            i = i + nl;
        } else {
            i = i + 1;
        }
    }
    proof {
        assert(matches_from(h@, n@, i as int) == Seq::<usize>::empty());
        assert(out@ + Seq::<usize>::empty() =~= out@);
    }
    out
}

/// Number of non-overlapping occurrences of `needle` in `haystack`; zero
/// for an empty needle.
pub fn count_occurrences(haystack: &str, needle: &str) -> (r: usize)
    ensures
        r == matches_from(haystack.spec_bytes(), needle.spec_bytes(), 0).len(),
{
    find_all_indices(haystack, needle).len()
}

/// Whether `c` separates path segments.
pub open spec fn is_path_sep(c: char) -> bool {
    c == '/' || c == '\\'
}

/// The segment stack after one more segment: empty and `.` segments are
/// skipped, `..` drops the last segment (if any).
pub open spec fn push_segment(stack: Seq<Seq<char>>, seg: Seq<char>) -> Seq<Seq<char>> {
    if seg.len() == 0 || seg == seq!['.'] {
        stack
    } else if seg == seq!['.', '.'] {
        if stack.len() > 0 {
            stack.drop_last()
        } else {
            stack
        }
    } else {
        stack.push(seg)
    }
}

/// Segment stack and pending segment after reading `s`.
pub open spec fn path_state(s: Seq<char>) -> (Seq<Seq<char>>, Seq<char>)
    decreases s.len(),
{
    if s.len() == 0 {
        (Seq::empty(), Seq::empty())
    } else {
        let (stack, cur) = path_state(s.drop_last());
        let c = s.last();
        if is_path_sep(c) {
            (push_segment(stack, cur), Seq::empty())
        } else {
            (stack, cur.push(c))
        }
    }
}

/// Segments joined by `/`.
pub open spec fn join_slash(parts: Seq<Seq<char>>) -> Seq<char>
    decreases parts.len(),
{
    if parts.len() == 0 {
        Seq::empty()
    } else if parts.len() == 1 {
        parts[0]
    } else {
        join_slash(parts.drop_last()) + seq!['/'] + parts.last()
    }
}

/// The normalized form of path text `s`.
pub open spec fn normalize_spec(s: Seq<char>) -> Seq<char> {
    let (stack, cur) = path_state(s);
    join_slash(push_segment(stack, cur))
}

fn push_segment_exec(stack: &mut Vec<Vec<char>>, seg: Vec<char>)
    ensures
        final(stack)@.map_values(|v: Vec<char>| v@) == push_segment(
            old(stack)@.map_values(|v: Vec<char>| v@),
            seg@,
        ),
{
    let ghost before = stack@.map_values(|v: Vec<char>| v@);
    let n = seg.len();
    if n == 0 || (n == 1 && seg[0] == '.') {
        proof {
            if n == 1 {
                assert(seg@ =~= seq!['.']);
            }
        }
        return;
    }
    if n == 2 && seg[0] == '.' && seg[1] == '.' {
        proof {
            assert(seg@ =~= seq!['.', '.']);
        }
        if stack.len() > 0 {
            stack.pop();
            proof {
                assert(stack@.map_values(|v: Vec<char>| v@) =~= before.drop_last());
            }
        }
        return;
    }
    proof {
        if seg@ == seq!['.'] {
            assert(seg@.len() == 1);
        }
        if seg@ == seq!['.', '.'] {
            assert(seg@.len() == 2);
        }
    }
    stack.push(seg);
    proof {
        assert(stack@.map_values(|v: Vec<char>| v@) =~= before.push(seg@));
    }
}

fn normalize_chars(cs: &Vec<char>) -> (r: Vec<char>)
    ensures
        r@ == normalize_spec(cs@),
{
    let mut stack: Vec<Vec<char>> = Vec::new();
    let mut cur: Vec<char> = Vec::new();
    let mut i: usize = 0;
    proof {
        assert(stack@.map_values(|v: Vec<char>| v@) =~= Seq::<Seq<char>>::empty());
    }
    while i < cs.len()
        invariant
            i <= cs@.len(),
            path_state(cs@.subrange(0, i as int)) == (stack@.map_values(|v: Vec<char>| v@), cur@),
        decreases cs@.len() - i,
    {
        proof {
            assert(cs@.subrange(0, i as int + 1).drop_last() == cs@.subrange(0, i as int));
        }
        let c = cs[i];
        if c == '/' || c == '\\' {
            let seg = cur;
            cur = Vec::new();
            push_segment_exec(&mut stack, seg);
        } else {
            cur.push(c);
        }
        i = i + 1;
    }
    proof {
        assert(cs@.subrange(0, cs@.len() as int) == cs@);
    }
    push_segment_exec(&mut stack, cur);
    let ghost parts = stack@.map_values(|v: Vec<char>| v@);
    let mut out: Vec<char> = Vec::new();
    let mut k: usize = 0;
    while k < stack.len()
        invariant
            parts == stack@.map_values(|v: Vec<char>| v@),
            k <= stack@.len(),
            out@ == join_slash(parts.subrange(0, k as int)),
        decreases stack@.len() - k,
    {
        proof {
            let p = parts.subrange(0, k as int + 1);
            assert(p.drop_last() == parts.subrange(0, k as int));
            assert(p.last() == stack@[k as int]@);
            if k == 0 {
                assert(p.len() == 1);
                assert(p[0] == stack@[0]@);
            }
        }
        if k > 0 {
            out.push('/');
        }
        let ghost before = out@;
        push_all(&mut out, &stack[k]);
        proof {
            if k == 0 {
                assert(out@ =~= stack@[0]@);
            } else {
                assert(out@ =~= before + stack@[k as int]@);
            }
        }
        k = k + 1;
    }
    proof {
        assert(parts.subrange(0, stack@.len() as int) == parts);
    }
    out
}

/// Path with `/` and `\\` as separators, empty and `.` segments dropped
/// and `..` removing the segment before it, joined by `/`.
pub fn normalize_path(p: &str) -> (r: String)
    ensures
        r@ == normalize_spec(p@),
{
    let cs = chars_of(p);
    let out = normalize_chars(&cs);
    string_of(&out)
}

/// `a` and `b` joined by a separator and normalized (an empty side is
/// left out).
pub fn join_paths(a: &str, b: &str) -> (r: String)
    ensures
        a@.len() == 0 ==> r@ == normalize_spec(b@),
        a@.len() > 0 && b@.len() == 0 ==> r@ == normalize_spec(a@),
        a@.len() > 0 && b@.len() > 0 ==> r@ == normalize_spec(a@ + seq!['/'] + b@),
{
    let x = chars_of(a);
    let y = chars_of(b);
    if x.len() == 0 {
        return string_of(&normalize_chars(&y));
    }
    if y.len() == 0 {
        return string_of(&normalize_chars(&x));
    }
    let mut all = x;
    all.push('/');
    push_all(&mut all, &y);
    proof {
        assert(all@ =~= a@ + seq!['/'] + b@);
    }
    string_of(&normalize_chars(&all))
}

/// Unicode alphanumeric property, as `char::is_alphanumeric` tests it.
pub uninterp spec fn alnum_char(c: char) -> bool;

/// Relies on `char::is_alphanumeric`: the answer depends on `c` alone, and
/// ASCII letters and digits have the property.
#[verifier::external_body]
fn is_alphanumeric(c: char) -> (r: bool)
    ensures
        r == alnum_char(c),
        is_alnum(c) ==> r,
{
    c.is_alphanumeric()
}

/// The alphanumeric characters of `s`, in ASCII lower case.
pub open spec fn folded_alnum(s: Seq<char>) -> Seq<char>
    decreases s.len(),
{
    if s.len() == 0 {
        Seq::empty()
    } else if alnum_char(s.last()) {
        folded_alnum(s.drop_last()).push(lower(s.last()))
    } else {
        folded_alnum(s.drop_last())
    }
}

/// Whether `s` reads the same both ways, looking only at its alphanumeric
/// characters and ignoring ASCII case.
pub fn is_palindrome(s: &str) -> (r: bool)
    ensures
        r == (folded_alnum(s@) == folded_alnum(s@).reverse()),
{
    let cs = chars_of(s);
    let mut f: Vec<char> = Vec::new();
    let mut i: usize = 0;
    while i < cs.len()
        invariant
            cs@ == s@,
            i <= cs@.len(),
            f@ == folded_alnum(cs@.subrange(0, i as int)),
        decreases cs@.len() - i,
    {
        proof {
            assert(cs@.subrange(0, i as int + 1).drop_last() == cs@.subrange(0, i as int));
        }
        let c = cs[i];
        if is_alphanumeric(c) {
            f.push(lower_exec(c));
        }
        i = i + 1;
    }
    proof {
        assert(cs@.subrange(0, cs@.len() as int) == cs@);
    }
    let n = f.len();
    let mut k: usize = 0;
    while k < n / 2
        invariant
            n == f@.len(),
            f@ == folded_alnum(s@),
            k <= n / 2,
            forall|j: int| 0 <= j < k ==> #[trigger] f@[j] == f@[n - 1 - j],
        decreases n / 2 - k,
    {
        if f[k] != f[n - 1 - k] {
            proof {
                assert(f@.reverse()[k as int] == f@[n - 1 - k]);
                assert(f@[k as int] != f@.reverse()[k as int]);
            }
            return false;
        }
        k = k + 1;
    }
    proof {
        assert forall|j: int| 0 <= j < n implies f@[j] == #[trigger] f@.reverse()[j] by {
            assert(f@.reverse()[j] == f@[n - 1 - j]);
            if j < n / 2 {
                assert(f@[j] == f@[n - 1 - j]);
            } else if j != n - 1 - j {
                let q = n - 1 - j;
                assert(0 <= q < n / 2);
                assert(f@[q] == f@[n - 1 - q]);
            }
        }
        assert(f@ =~= f@.reverse());
    }
    true
}

/// Number of maximal runs of alphanumeric characters in `s`, with whether
/// the last character read was alphanumeric.
pub open spec fn word_runs(s: Seq<char>) -> (nat, bool)
    decreases s.len(),
{
    if s.len() == 0 {
        (0, false)
    } else {
        let (n, inside) = word_runs(s.drop_last());
        if alnum_char(s.last()) {
            (if inside {
                n
            } else {
                n + 1
            }, true)
        } else {
            (n, false)
        }
    }
}

proof fn lemma_word_runs_bound(s: Seq<char>)
    ensures
        word_runs(s).0 <= s.len(),
    decreases s.len(),
{
    if s.len() > 0 {
        lemma_word_runs_bound(s.drop_last());
    }
}

/// Number of words of `input`, a word being a maximal run of alphanumeric
/// characters.
pub fn word_count(input: &str) -> (r: usize)
    ensures
        r == word_runs(input@).0,
{
    let cs = chars_of(input);
    let mut count: usize = 0;
    let mut inside = false;
    let mut i: usize = 0;
    while i < cs.len()
        invariant
            cs@ == input@,
            i <= cs@.len(),
            word_runs(cs@.subrange(0, i as int)) == (count as nat, inside),
        decreases cs@.len() - i,
    {
        proof {
            assert(cs@.subrange(0, i as int + 1).drop_last() == cs@.subrange(0, i as int));
            lemma_word_runs_bound(cs@.subrange(0, i as int));
        }
        if is_alphanumeric(cs[i]) {
            if !inside {
                count = count + 1;
            }
            inside = true;
        } else {
            inside = false;
        }
        i = i + 1;
    }
    proof {
        assert(cs@.subrange(0, cs@.len() as int) == cs@);
    }
    count
}

/// Title case of one word: its first character in upper case, the rest
/// in lower case.
pub open spec fn title_word(w: Seq<char>) -> Seq<char> {
    if w.len() == 0 {
        w
    } else {
        upper_chars(w[0]) + lower_of(w.drop_first())
    }
}

/// Words of `s` (runs without white space), in order, with the word being
/// read.
pub open spec fn split_ws(s: Seq<char>) -> (Seq<Seq<char>>, Seq<char>)
    decreases s.len(),
{
    if s.len() == 0 {
        (Seq::empty(), Seq::empty())
    } else {
        let (done, cur) = split_ws(s.drop_last());
        let c = s.last();
        if is_ws(c) {
            if cur.len() > 0 {
                (done.push(cur), Seq::empty())
            } else {
                (done, cur)
            }
        } else {
            (done, cur.push(c))
        }
    }
}

/// The words of `s`.
pub open spec fn words_of(s: Seq<char>) -> Seq<Seq<char>> {
    let (done, cur) = split_ws(s);
    if cur.len() > 0 {
        done.push(cur)
    } else {
        done
    }
}

/// Words joined by single spaces.
pub open spec fn join_space(ws: Seq<Seq<char>>) -> Seq<char>
    decreases ws.len(),
{
    if ws.len() == 0 {
        Seq::empty()
    } else if ws.len() == 1 {
        ws[0]
    } else {
        join_space(ws.drop_last()) + seq![' '] + ws.last()
    }
}

fn title_word_exec(w: &Vec<char>) -> (r: Vec<char>)
    ensures
        r@ == title_word(w@),
{
    if w.len() == 0 {
        return Vec::new();
    }
    let mut out = char_upper(w[0]);
    let rest = crate::collections::copy_range(w.as_slice(), 1, w.len());
    let rest_s = string_of(&rest);
    let low = lowercase(rest_s.as_str());
    let low_cs = chars_of(low.as_str());
    push_all(&mut out, &low_cs);
    proof {
        assert(w@.drop_first() == w@.subrange(1, w@.len() as int));
    }
    out
}

/// Each word (run without white space) with its first character in upper
/// case and the rest in lower case, joined by single spaces.
pub fn to_title_case(s: &str) -> (r: String)
    ensures
        r@ == join_space(words_of(s@).map_values(|w: Seq<char>| title_word(w))),
{
    let cs = chars_of(s);
    let mut done: Vec<Vec<char>> = Vec::new();
    let mut cur: Vec<char> = Vec::new();
    let mut i: usize = 0;
    proof {
        assert(done@.map_values(|v: Vec<char>| v@) =~= Seq::<Seq<char>>::empty());
    }
    while i < cs.len()
        invariant
            cs@ == s@,
            i <= cs@.len(),
            split_ws(cs@.subrange(0, i as int)) == (done@.map_values(|v: Vec<char>| v@), cur@),
        decreases cs@.len() - i,
    {
        proof {
            assert(cs@.subrange(0, i as int + 1).drop_last() == cs@.subrange(0, i as int));
        }
        let c = cs[i];
        if crate::validation::is_ws_char(c) {
            if cur.len() > 0 {
                let ghost before = done@.map_values(|v: Vec<char>| v@);
                let w = cur;
                cur = Vec::new();
                done.push(w);
                proof {
                    assert(done@.map_values(|v: Vec<char>| v@) =~= before.push(w@));
                }
            }
        } else {
            cur.push(c);
        }
        i = i + 1;
    }
    proof {
        assert(cs@.subrange(0, cs@.len() as int) == cs@);
    }
    if cur.len() > 0 {
        let ghost before = done@.map_values(|v: Vec<char>| v@);
        let w = cur;
        done.push(w);
        proof {
            assert(done@.map_values(|v: Vec<char>| v@) =~= before.push(w@));
        }
    }
    let ghost ws = done@.map_values(|v: Vec<char>| v@);
    proof {
        assert(ws == words_of(s@));
    }
    let mut out: Vec<char> = Vec::new();
    let mut k: usize = 0;
    while k < done.len()
        invariant
            ws == done@.map_values(|v: Vec<char>| v@),
            k <= done@.len(),
            out@ == join_space(ws.map_values(|w: Seq<char>| title_word(w)).subrange(0, k as int)),
        decreases done@.len() - k,
    {
        let ghost tw = ws.map_values(|w: Seq<char>| title_word(w));
        proof {
            let p = tw.subrange(0, k as int + 1);
            assert(p.drop_last() == tw.subrange(0, k as int));
            assert(p.last() == title_word(done@[k as int]@));
            if k == 0 {
                assert(p.len() == 1);
                assert(p[0] == title_word(done@[0]@));
            }
        }
        if k > 0 {
            out.push(' ');
        }
        let ghost before = out@;
        let t = title_word_exec(&done[k]);
        push_all(&mut out, &t);
        proof {
            if k == 0 {
                assert(out@ =~= t@);
            } else {
                assert(out@ =~= before + t@);
            }
        }
        k = k + 1;
    }
    proof {
        let tw = ws.map_values(|w: Seq<char>| title_word(w));
        assert(tw.subrange(0, done@.len() as int) == tw);
    }
    string_of(&out)
}

/// Words of an identifier-like text, with the word being read: white
/// space, `_` and `-` separate words, and an upper-case ASCII letter after
/// a lower-case one starts a new word.
pub open spec fn split_words_state(s: Seq<char>) -> (Seq<Seq<char>>, Seq<char>)
    decreases s.len(),
{
    if s.len() == 0 {
        (Seq::empty(), Seq::empty())
    } else {
        let (done, cur) = split_words_state(s.drop_last());
        let c = s.last();
        if is_ws(c) || c == '_' || c == '-' {
            if cur.len() > 0 {
                (done.push(cur), Seq::empty())
            } else {
                (done, cur)
            }
        } else if is_upper(c) && cur.len() > 0 && 'a' <= cur.last() <= 'z' {
            (done.push(cur), seq![c])
        } else {
            (done, cur.push(c))
        }
    }
}

/// The words of `s`, split at white space, `_`, `-` and lower-to-upper
/// case changes.
pub fn split_words(s: &str) -> (r: Vec<String>)
    ensures
        r@.len() == ({
            let (done, cur) = split_words_state(s@);
            if cur.len() > 0 {
                done.push(cur)
            } else {
                done
            }
        }).len(),
        forall|i: int|
            0 <= i < r@.len() ==> (#[trigger] r@[i])@ == ({
                let (done, cur) = split_words_state(s@);
                if cur.len() > 0 {
                    done.push(cur)
                } else {
                    done
                }
            })[i],
{
    let cs = chars_of(s);
    let mut done: Vec<String> = Vec::new();
    let mut cur: Vec<char> = Vec::new();
    let mut i: usize = 0;
    while i < cs.len()
        invariant
            cs@ == s@,
            i <= cs@.len(),
            split_words_state(cs@.subrange(0, i as int)).1 == cur@,
            split_words_state(cs@.subrange(0, i as int)).0.len() == done@.len(),
            forall|k: int|
                0 <= k < done@.len() ==> (#[trigger] done@[k])@ == split_words_state(
                    cs@.subrange(0, i as int),
                ).0[k],
        decreases cs@.len() - i,
    {
        proof {
            assert(cs@.subrange(0, i as int + 1).drop_last() == cs@.subrange(0, i as int));
        }
        let c = cs[i];
        let n = cur.len();
        if crate::validation::is_ws_char(c) || c == '_' || c == '-' {
            if n > 0 {
                let w = string_of(&cur);
                done.push(w);
                cur = Vec::new();
            }
        } else if 'A' <= c && c <= 'Z' && n > 0 && 'a' <= cur[n - 1] && cur[n - 1] <= 'z' {
            let w = string_of(&cur);
            done.push(w);
            cur = Vec::new();
            cur.push(c);
            proof {
                assert(cur@ =~= seq![c]);
            }
        } else {
            cur.push(c);
        }
        i = i + 1;
    }
    proof {
        assert(cs@.subrange(0, cs@.len() as int) == cs@);
    }
    if cur.len() > 0 {
        let w = string_of(&cur);
        done.push(w);
    }
    done
}

/// A line without the `\r` of a `\r\n` ending.
pub open spec fn strip_cr(l: Seq<char>) -> Seq<char> {
    if l.len() > 0 && l.last() == '\r' {
        l.drop_last()
    } else {
        l
    }
}

/// Complete lines of `s` and the line being read.
pub open spec fn lines_state(s: Seq<char>) -> (Seq<Seq<char>>, Seq<char>)
    decreases s.len(),
{
    if s.len() == 0 {
        (Seq::empty(), Seq::empty())
    } else {
        let (done, cur) = lines_state(s.drop_last());
        if s.last() == '\n' {
            (done.push(strip_cr(cur)), Seq::empty())
        } else {
            (done, cur.push(s.last()))
        }
    }
}

/// The lines of `s` as `str::lines` gives them: split at `\n` (a `\r`
/// before it dropped), no empty line after a final `\n`.
pub open spec fn lines_of(s: Seq<char>) -> Seq<Seq<char>> {
    let (done, cur) = lines_state(s);
    if cur.len() > 0 {
        done.push(cur)
    } else {
        done
    }
}

/// Lines joined by `\n`.
pub open spec fn join_lines(ls: Seq<Seq<char>>) -> Seq<char>
    decreases ls.len(),
{
    if ls.len() == 0 {
        Seq::empty()
    } else if ls.len() == 1 {
        ls[0]
    } else {
        join_lines(ls.drop_last()) + seq!['\n'] + ls.last()
    }
}

fn lines_exec(cs: &Vec<char>) -> (r: Vec<Vec<char>>)
    ensures
        r@.map_values(|v: Vec<char>| v@) == lines_of(cs@),
{
    let mut done: Vec<Vec<char>> = Vec::new();
    let mut cur: Vec<char> = Vec::new();
    let mut i: usize = 0;
    proof {
        assert(done@.map_values(|v: Vec<char>| v@) =~= Seq::<Seq<char>>::empty());
    }
    while i < cs.len()
        invariant
            i <= cs@.len(),
            lines_state(cs@.subrange(0, i as int)) == (done@.map_values(|v: Vec<char>| v@), cur@),
        decreases cs@.len() - i,
    {
        proof {
            assert(cs@.subrange(0, i as int + 1).drop_last() == cs@.subrange(0, i as int));
        }
        let c = cs[i];
        if c == '\n' {
            let n = cur.len();
            if n > 0 && cur[n - 1] == '\r' {
                cur.pop();
            }
            let ghost before = done@.map_values(|v: Vec<char>| v@);
            let w = cur;
            cur = Vec::new();
            done.push(w);
            proof {
                assert(done@.map_values(|v: Vec<char>| v@) =~= before.push(w@));
            }
        } else {
            cur.push(c);
        }
        i = i + 1;
    }
    proof {
        assert(cs@.subrange(0, cs@.len() as int) == cs@);
    }
    if cur.len() > 0 {
        let ghost before = done@.map_values(|v: Vec<char>| v@);
        let w = cur;
        done.push(w);
        proof {
            assert(done@.map_values(|v: Vec<char>| v@) =~= before.push(w@));
        }
    }
    done
}

/// One line indented: empty lines stay empty.
pub open spec fn indent_line(l: Seq<char>, prefix: Seq<char>) -> Seq<char> {
    if l.len() == 0 {
        l
    } else {
        prefix + l
    }
}

/// Number of leading spaces of `l`, at most `n`.
pub open spec fn lead_spaces(l: Seq<char>, n: nat) -> nat
    decreases l.len(),
{
    if n == 0 || l.len() == 0 || l[0] != ' ' {
        0
    } else {
        1 + lead_spaces(l.drop_first(), (n - 1) as nat)
    }
}

/// One line with up to `n` leading spaces removed.
pub open spec fn dedent_line(l: Seq<char>, n: nat) -> Seq<char> {
    l.subrange(lead_spaces(l, n) as int, l.len() as int)
}

fn map_lines(text: &str, prefix: &Vec<char>, n: usize, indenting: bool) -> (r: String)
    ensures
        indenting ==> r@ == join_lines(
            lines_of(text@).map_values(|l: Seq<char>| indent_line(l, prefix@)),
        ),
        !indenting ==> r@ == join_lines(
            lines_of(text@).map_values(|l: Seq<char>| dedent_line(l, n as nat)),
        ),
{
    let cs = chars_of(text);
    let ls = lines_exec(&cs);
    let ghost src = ls@.map_values(|v: Vec<char>| v@);
    let ghost mapped = if indenting {
        src.map_values(|l: Seq<char>| indent_line(l, prefix@))
    } else {
        src.map_values(|l: Seq<char>| dedent_line(l, n as nat))
    };
    let mut out: Vec<char> = Vec::new();
    let mut k: usize = 0;
    while k < ls.len()
        invariant
            src == ls@.map_values(|v: Vec<char>| v@),
            mapped == (if indenting {
                src.map_values(|l: Seq<char>| indent_line(l, prefix@))
            } else {
                src.map_values(|l: Seq<char>| dedent_line(l, n as nat))
            }),
            k <= ls@.len(),
            out@ == join_lines(mapped.subrange(0, k as int)),
        decreases ls@.len() - k,
    {
        let line = &ls[k];
        let mut piece: Vec<char> = Vec::new();
        if indenting {
            if line.len() > 0 {
                push_all(&mut piece, prefix);
                push_all(&mut piece, line);
            }
        } else {
            let mut j: usize = 0;
            proof {
                assert(line@.subrange(0, line@.len() as int) == line@);
            }
            while j < line.len() && j < n && line[j] == ' '
                invariant
                    j <= line@.len(),
                    j <= n,
                    lead_spaces(line@, n as nat) == j + lead_spaces(
                        line@.subrange(j as int, line@.len() as int),
                        (n - j) as nat,
                    ),
                decreases n - j,
            {
                proof {
                    let t = line@.subrange(j as int, line@.len() as int);
                    assert(t.drop_first() == line@.subrange(j + 1, line@.len() as int));
                }
                j = j + 1;
            }
            proof {
                let t = line@.subrange(j as int, line@.len() as int);
                if j < line@.len() && j < n {
                    assert(t[0] == line@[j as int]);
                }
                assert(lead_spaces(t, (n - j) as nat) == 0);
            }
            piece = crate::collections::copy_range(line.as_slice(), j, line.len());
        }
        proof {
            let p = mapped.subrange(0, k as int + 1);
            assert(p.drop_last() == mapped.subrange(0, k as int));
            if indenting {
                if line@.len() > 0 {
                    assert(piece@ =~= prefix@ + line@);
                } else {
                    assert(piece@ =~= line@);
                }
            }
            assert(p.last() == piece@);
            if k == 0 {
                assert(p.len() == 1);
            }
        }
        if k > 0 {
            out.push('\n');
        }
        let ghost before = out@;
        push_all(&mut out, &piece);
        proof {
            if k == 0 {
                assert(out@ =~= piece@);
            } else {
                assert(out@ =~= before + piece@);
            }
        }
        k = k + 1;
    }
    proof {
        assert(mapped.subrange(0, ls@.len() as int) == mapped);
    }
    string_of(&out)
}

/// Each non-empty line of `text` with `prefix` in front, lines joined by
/// `\n`.
pub fn indent(text: &str, prefix: &str) -> (r: String)
    ensures
        r@ == join_lines(lines_of(text@).map_values(|l: Seq<char>| indent_line(l, prefix@))),
{
    let p = chars_of(prefix);
    map_lines(text, &p, 0, true)
}

/// Each line of `text` with up to `n` leading spaces removed, lines joined
/// by `\n`.
pub fn dedent(text: &str, n: usize) -> (r: String)
    ensures
        r@ == join_lines(lines_of(text@).map_values(|l: Seq<char>| dedent_line(l, n as nat))),
{
    let p: Vec<char> = Vec::new();
    map_lines(text, &p, n, false)
}

/// Bytes in the UTF-8 encoding of `c`.
pub open spec fn utf8_len(c: char) -> nat {
    let u = c as u32;
    if u < 0x80 {
        1
    } else if u < 0x800 {
        2
    } else if u < 0x10000 {
        3
    } else {
        4
    }
}

/// Bytes in the UTF-8 encoding of `s`.
pub open spec fn byte_len(s: Seq<char>) -> nat
    decreases s.len(),
{
    if s.len() == 0 {
        0
    } else {
        byte_len(s.drop_last()) + utf8_len(s.last())
    }
}

fn utf8_len_exec(c: char) -> (r: usize)
    ensures
        r == utf8_len(c),
{
    let u = c as u32;
    if u < 0x80 {
        1
    } else if u < 0x800 {
        2
    } else if u < 0x10000 {
        3
    } else {
        4
    }
}

/// Number of leading characters of `s` whose encoding fits in `max` bytes.
pub open spec fn fits_prefix(s: Seq<char>, max: nat, k: int) -> bool {
    &&& 0 <= k <= s.len()
    &&& byte_len(s.subrange(0, k)) <= max
    &&& (k == s.len() || byte_len(s.subrange(0, k + 1)) > max)
}

proof fn lemma_byte_len_bound(s: Seq<char>)
    ensures
        byte_len(s) <= 4 * s.len(),
    decreases s.len(),
{
    if s.len() > 0 {
        lemma_byte_len_bound(s.drop_last());
    }
}

/// The longest prefix of `cs` whose encoding fits in `max` bytes, and the
/// byte length of the whole text.
fn prefix_within(cs: &Vec<char>, max: usize) -> (r: (usize, u128))
    ensures
        fits_prefix(cs@, max as nat, r.0 as int),
        r.1 == byte_len(cs@),
{
    let n = cs.len();
    let mut total: u128 = 0;
    let mut i: usize = 0;
    let mut cut: usize = 0;
    let mut open = true;
    proof {
        assert(cs@.subrange(0, 0) =~= Seq::<char>::empty());
    }
    while i < n
        invariant
            n == cs@.len(),
            i <= n,
            total == byte_len(cs@.subrange(0, i as int)),
            open ==> cut == i && byte_len(cs@.subrange(0, i as int)) <= max,
            !open ==> fits_prefix(cs@, max as nat, cut as int) && cut < i,
        decreases n - i,
    {
        let w = utf8_len_exec(cs[i]);
        proof {
            assert(cs@.subrange(0, i as int + 1).drop_last() == cs@.subrange(0, i as int));
            lemma_byte_len_bound(cs@.subrange(0, i as int + 1));
        }
        total = total + w as u128;
        if open && total > max as u128 {
            open = false;
        }
        if open {
            cut = i + 1;
        }
        i = i + 1;
    }
    proof {
        assert(cs@.subrange(0, n as int) == cs@);
    }
    (cut, total)
}

/// `s` when its encoding fits in `max_len` bytes; otherwise the longest
/// prefix that fits in `max_len - 3` bytes followed by `...` (or, when
/// `max_len < 3`, the longest prefix that fits in `max_len` bytes).
pub fn truncate(s: &str, max_len: usize) -> (r: String)
    ensures
        byte_len(s@) <= max_len ==> r@ == s@,
        byte_len(s@) > max_len && max_len < 3 ==> exists|k: int|
            fits_prefix(s@, max_len as nat, k) && r@ == s@.subrange(0, k),
        byte_len(s@) > max_len && max_len >= 3 ==> exists|k: int|
            fits_prefix(s@, (max_len - 3) as nat, k) && r@ == s@.subrange(0, k) + seq!['.', '.', '.'],
{
    let cs = chars_of(s);
    let (_, total) = prefix_within(&cs, max_len);
    if total <= max_len as u128 {
        return string_of(&cs);
    }
    if max_len < 3 {
        let (k, _) = prefix_within(&cs, max_len);
        let out = crate::collections::copy_range(cs.as_slice(), 0, k);
        return string_of(&out);
    }
    let (k, _) = prefix_within(&cs, max_len - 3);
    let mut out = crate::collections::copy_range(cs.as_slice(), 0, k);
    out.push('.');
    out.push('.');
    out.push('.');
    proof {
        assert(out@ =~= s@.subrange(0, k as int) + seq!['.', '.', '.']);
    }
    string_of(&out)
}

/// `s` when its encoding fits in `max_len` bytes; otherwise the longest
/// prefix that fits in `max_len` minus the length of `suffix` (saturating
/// at zero), followed by `suffix`.
pub fn truncate_with(s: &str, max_len: usize, suffix: &str) -> (r: String)
    ensures
        byte_len(s@) <= max_len ==> r@ == s@,
        byte_len(s@) > max_len ==> exists|k: int|
            fits_prefix(
                s@,
                (if byte_len(suffix@) <= max_len {
                    max_len - byte_len(suffix@)
                } else {
                    0
                }) as nat,
                k,
            ) && r@ == s@.subrange(0, k) + suffix@,
{
    let cs = chars_of(s);
    let (_, total) = prefix_within(&cs, max_len);
    if total <= max_len as u128 {
        return string_of(&cs);
    }
    let sx = chars_of(suffix);
    let (_, slen) = prefix_within(&sx, 0);
    let avail: usize = if slen <= max_len as u128 {
        max_len - slen as usize
    } else {
        0
    };
    let (k, _) = prefix_within(&cs, avail);
    let mut out = crate::collections::copy_range(cs.as_slice(), 0, k);
    push_all(&mut out, &sx);
    string_of(&out)
}

fn words_exec(cs: &Vec<char>) -> (r: Vec<Vec<char>>)
    ensures
        r@.map_values(|v: Vec<char>| v@) == words_of(cs@),
{
    let mut done: Vec<Vec<char>> = Vec::new();
    let mut cur: Vec<char> = Vec::new();
    let mut i: usize = 0;
    proof {
        assert(done@.map_values(|v: Vec<char>| v@) =~= Seq::<Seq<char>>::empty());
    }
    while i < cs.len()
        invariant
            i <= cs@.len(),
            split_ws(cs@.subrange(0, i as int)) == (done@.map_values(|v: Vec<char>| v@), cur@),
        decreases cs@.len() - i,
    {
        proof {
            assert(cs@.subrange(0, i as int + 1).drop_last() == cs@.subrange(0, i as int));
        }
        let c = cs[i];
        if crate::validation::is_ws_char(c) {
            if cur.len() > 0 {
                let ghost before = done@.map_values(|v: Vec<char>| v@);
                let w = cur;
                cur = Vec::new();
                done.push(w);
                proof {
                    assert(done@.map_values(|v: Vec<char>| v@) =~= before.push(w@));
                }
            }
        } else {
            cur.push(c);
        }
        i = i + 1;
    }
    proof {
        assert(cs@.subrange(0, cs@.len() as int) == cs@);
    }
    if cur.len() > 0 {
        let ghost before = done@.map_values(|v: Vec<char>| v@);
        let w = cur;
        done.push(w);
        proof {
            assert(done@.map_values(|v: Vec<char>| v@) =~= before.push(w@));
        }
    }
    done
}

/// Greedy line filling of `ws` within `width` bytes per line: the text so
/// far and the byte length of its last line.
pub open spec fn wrap_state(ws: Seq<Seq<char>>, width: nat) -> (Seq<char>, nat)
    decreases ws.len(),
{
    if ws.len() == 0 {
        (Seq::empty(), 0)
    } else {
        let (out, line) = wrap_state(ws.drop_last(), width);
        let w = ws.last();
        if line == 0 {
            (out + w, byte_len(w))
        } else if line + 1 + byte_len(w) <= width {
            (out + seq![' '] + w, line + 1 + byte_len(w))
        } else {
            (out + seq!['\n'] + w, byte_len(w))
        }
    }
}

/// The words of `text` filled greedily into lines of at most `width` bytes
/// (a longer word stands alone); `text` unchanged when `width` is zero.
pub fn wrap(text: &str, width: usize) -> (r: String)
    ensures
        width == 0 ==> r@ == text@,
        width > 0 ==> r@ == wrap_state(words_of(text@), width as nat).0,
{
    let cs = chars_of(text);
    if width == 0 {
        return string_of(&cs);
    }
    let ws = words_exec(&cs);
    let ghost wsv = ws@.map_values(|v: Vec<char>| v@);
    let mut out: Vec<char> = Vec::new();
    let mut line: u128 = 0;
    let mut k: usize = 0;
    while k < ws.len()
        invariant
            wsv == ws@.map_values(|v: Vec<char>| v@),
            k <= ws@.len(),
            line <= 4 * (usize::MAX as int),
            wrap_state(wsv.subrange(0, k as int), width as nat) == (out@, line as nat),
        decreases ws@.len() - k,
    {
        let w = &ws[k];
        let wl = w.len();
        let (_, wlen) = prefix_within(w, 0);
        proof {
            let p = wsv.subrange(0, k as int + 1);
            assert(p.drop_last() == wsv.subrange(0, k as int));
            assert(p.last() == w@);
            lemma_byte_len_bound(w@);
        }
        let ghost before = out@;
        if line == 0 {
            push_all(&mut out, w);
            line = wlen;
        } else if line + 1 + wlen <= width as u128 {
            out.push(' ');
            push_all(&mut out, w);
            line = line + 1 + wlen;
            proof {
                assert(out@ =~= before + seq![' '] + w@);
            }
        } else {
            out.push('\n');
            push_all(&mut out, w);
            line = wlen;
            proof {
                assert(out@ =~= before + seq!['\n'] + w@);
            }
        }
        k = k + 1;
    }
    proof {
        assert(wsv.subrange(0, ws@.len() as int) == wsv);
    }
    string_of(&out)
}

fn bytes_start_with(s: &[u8], p: &[u8]) -> (r: bool)
    ensures
        r == (p@.len() <= s@.len() && s@.subrange(0, p@.len() as int) == p@),
{
    if p.len() > s.len() {
        return false;
    }
    bytes_match_at(s, p, 0)
}

/// `s` without `prefix` in front, when it starts with it (at a character
/// boundary, as it always does for text); otherwise `s`.
pub fn strip_prefix<'a>(s: &'a str, prefix: &str) -> (r: &'a str)
    ensures
        ({
            let b = s.spec_bytes();
            let p = prefix.spec_bytes();
            if p.len() <= b.len() && b.subrange(0, p.len() as int) == p
                && vstd::utf8::is_char_boundary(b, p.len() as int) {
                r.spec_bytes() == b.subrange(p.len() as int, b.len() as int)
            } else {
                r == s
            }
        }),
{
    let b = s.as_bytes();
    let p = prefix.as_bytes();
    if bytes_start_with(b, p) && s.is_char_boundary(p.len()) {
        let (_, rest) = s.split_at(p.len());
        rest
    } else {
        s
    }
}

/// `s` without `suffix` at the end, when it ends with it (at a character
/// boundary, as it always does for text); otherwise `s`.
pub fn strip_suffix<'a>(s: &'a str, suffix: &str) -> (r: &'a str)
    ensures
        ({
            let b = s.spec_bytes();
            let p = suffix.spec_bytes();
            if p.len() <= b.len() && b.subrange(b.len() - p.len(), b.len() as int) == p
                && vstd::utf8::is_char_boundary(b, b.len() - p.len()) {
                r.spec_bytes() == b.subrange(0, b.len() - p.len())
            } else {
                r == s
            }
        }),
{
    let b = s.as_bytes();
    let p = suffix.as_bytes();
    if p.len() <= b.len() {
        let cut = b.len() - p.len();
        if bytes_match_at(b, p, cut) && s.is_char_boundary(cut) {
            let (head, _) = s.split_at(cut);
            return head;
        }
    }
    s
}

/// Number of non-overlapping occurrences of `n` in `h` from `i`, leftmost
/// first.
pub open spec fn count_from(h: Seq<char>, n: Seq<char>, i: int) -> nat
    decreases h.len() - i,
{
    if n.len() == 0 || i < 0 || i + n.len() > h.len() {
        0
    } else if h.subrange(i, i + n.len()) == n {
        1 + count_from(h, n, i + n.len())
    } else {
        count_from(h, n, i + 1)
    }
}

/// `h` from `i` with its non-overlapping occurrences of `n` (leftmost
/// first) replaced by `outs`, in order.
pub open spec fn rebuild(h: Seq<char>, n: Seq<char>, i: int, outs: Seq<Seq<char>>) -> Seq<char>
    decreases h.len() - i,
{
    if n.len() == 0 || i < 0 || i + n.len() > h.len() {
        if 0 <= i <= h.len() {
            h.subrange(i, h.len() as int)
        } else {
            Seq::empty()
        }
    } else if h.subrange(i, i + n.len()) == n {
        outs[0] + rebuild(h, n, i + n.len(), outs.drop_first())
    } else {
        seq![h[i]] + rebuild(h, n, i + 1, outs)
    }
}

fn chars_match_at(h: &Vec<char>, n: &Vec<char>, i: usize) -> (r: bool)
    requires
        i + n@.len() <= h@.len(),
    ensures
        r == (h@.subrange(i as int, i + n@.len()) == n@),
{
    let hl = h.len();
    let mut k: usize = 0;
    while k < n.len()
        invariant
            hl == h@.len(),
            i + n@.len() <= h@.len(),
            k <= n@.len(),
            forall|j: int| 0 <= j < k ==> h@[i + j] == n@[j],
        decreases n@.len() - k,
    {
        if h[i + k] != n[k] {
            proof {
                assert(h@.subrange(i as int, i + n@.len())[k as int] != n@[k as int]);
            }
            return false;
        }
        k = k + 1;
    }
    proof {
        assert(h@.subrange(i as int, i + n@.len()) =~= n@);
    }
    true
}

/// Whether `f`, given `needle`, can return a string made of `out`.
pub open spec fn produced_by<F: Fn(&str) -> String>(f: F, needle: &str, out: Seq<char>) -> bool {
    exists|o: String| o@ == out && f.ensures((needle,), o)
}

/// `s` with each non-overlapping occurrence of `needle` (leftmost first)
/// replaced by what `f` returns for it; `s` unchanged for an empty needle.
pub fn replace_all<F: Fn(&str) -> String>(s: &str, needle: &str, f: F) -> (r: String)
    requires
        forall|x: &str| f.requires((x,)),
    ensures
        needle@.len() == 0 ==> r@ == s@,
        needle@.len() > 0 ==> exists|outs: Seq<Seq<char>>|
            {
                &&& outs.len() == count_from(s@, needle@, 0)
                &&& forall|k: int| 0 <= k < outs.len() ==> #[trigger] produced_by(f, needle, outs[k])
                &&& r@ == rebuild(s@, needle@, 0, outs)
            },
{
    let h = chars_of(s);
    let n = chars_of(needle);
    if n.len() == 0 {
        return string_of(&h);
    }
    let hl = h.len();
    let nl = n.len();
    let mut out: Vec<char> = Vec::new();
    let ghost mut outs: Seq<Seq<char>> = Seq::empty();
    let mut i: usize = 0;
    proof {
        assert(h@ == s@);
    }
    while i <= hl && nl <= hl - i
        invariant
            hl == h@.len(),
            nl == n@.len(),
            h@ == s@,
            n@ == needle@,
            nl > 0,
            i <= hl,
            forall|x: &str| f.requires((x,)),
            forall|k: int| 0 <= k < outs.len() ==> #[trigger] produced_by(f, needle, outs[k]),
            forall|rest: Seq<Seq<char>>|
                #![trigger rebuild(h@, n@, i as int, rest)]
                out@ + rebuild(h@, n@, i as int, rest) == rebuild(h@, n@, 0, outs + rest),
            outs.len() + count_from(h@, n@, i as int) == count_from(h@, n@, 0),
        decreases hl + 1 - i,
    {
        if chars_match_at(&h, &n, i) {
            let o = f(needle);
            let oc = chars_of(o.as_str());
            let ghost before = out@;
            push_all(&mut out, &oc);
            proof {
                let old_outs = outs;
                outs = outs.push(oc@);
                assert(outs[outs.len() - 1] == o@);
                assert forall|k: int| 0 <= k < outs.len() implies #[trigger] produced_by(
                    f,
                    needle,
                    outs[k],
                ) by {
                    if k < old_outs.len() {
                        assert(outs[k] == old_outs[k]);
                        assert(produced_by(f, needle, old_outs[k]));
                    } else {
                        assert(outs[k] == o@ && f.ensures((needle,), o));
                    }
                }
                assert forall|rest: Seq<Seq<char>>|
                    #![trigger rebuild(h@, n@, i + nl, rest)]
                    out@ + rebuild(h@, n@, i + nl, rest) == rebuild(h@, n@, 0, outs + rest) by {
                    let r2 = seq![oc@] + rest;
                    assert(r2.drop_first() == rest);
                    assert(r2[0] == oc@);
                    assert(old_outs + r2 == outs + rest);
                    assert(before + rebuild(h@, n@, i as int, r2) == rebuild(h@, n@, 0, old_outs + r2));
                }
            }
            i = i + nl;
        } else {
            let c = h[i];
            let ghost before = out@;
            out.push(c);
            proof {
                assert forall|rest: Seq<Seq<char>>|
                    #![trigger rebuild(h@, n@, i + 1, rest)]
                    out@ + rebuild(h@, n@, i + 1, rest) == rebuild(h@, n@, 0, outs + rest) by {
                    assert(before + rebuild(h@, n@, i as int, rest) == rebuild(h@, n@, 0, outs + rest));
                    assert(out@ + rebuild(h@, n@, i + 1, rest) =~= before + rebuild(h@, n@, i as int, rest));
                }
            }
            i = i + 1;
        }
    }
    let tail = crate::collections::copy_range(h.as_slice(), i, hl);
    let ghost before = out@;
    push_all(&mut out, &tail);
    proof {
        let e = Seq::<Seq<char>>::empty();
        assert(before + rebuild(h@, n@, i as int, e) == rebuild(h@, n@, 0, outs + e));
        assert(outs + e == outs);
        assert(rebuild(h@, n@, i as int, e) == h@.subrange(i as int, hl as int));
    }
    string_of(&out)
}

/// Maximal runs of alphanumeric characters of `s`, with the run being read.
pub open spec fn alnum_runs(s: Seq<char>) -> (Seq<Seq<char>>, Seq<char>)
    decreases s.len(),
{
    if s.len() == 0 {
        (Seq::empty(), Seq::empty())
    } else {
        let (done, cur) = alnum_runs(s.drop_last());
        if alnum_char(s.last()) {
            (done, cur.push(s.last()))
        } else if cur.len() > 0 {
            (done.push(cur), Seq::empty())
        } else {
            (done, cur)
        }
    }
}

/// The words of `s`: its maximal runs of alphanumeric characters.
pub open spec fn words_spec(s: Seq<char>) -> Seq<Seq<char>> {
    let (done, cur) = alnum_runs(s);
    if cur.len() > 0 {
        done.push(cur)
    } else {
        done
    }
}

/// The maximal runs of alphanumeric characters of `input`, in order.
pub fn words(input: &str) -> (r: Vec<String>)
    ensures
        r@.len() == words_spec(input@).len(),
        forall|i: int| 0 <= i < r@.len() ==> (#[trigger] r@[i])@ == words_spec(input@)[i],
{
    let cs = chars_of(input);
    let mut done: Vec<String> = Vec::new();
    let mut cur: Vec<char> = Vec::new();
    let mut i: usize = 0;
    while i < cs.len()
        invariant
            cs@ == input@,
            i <= cs@.len(),
            alnum_runs(cs@.subrange(0, i as int)).1 == cur@,
            alnum_runs(cs@.subrange(0, i as int)).0.len() == done@.len(),
            forall|k: int|
                0 <= k < done@.len() ==> (#[trigger] done@[k])@ == alnum_runs(
                    cs@.subrange(0, i as int),
                ).0[k],
        decreases cs@.len() - i,
    {
        proof {
            assert(cs@.subrange(0, i as int + 1).drop_last() == cs@.subrange(0, i as int));
        }
        let c = cs[i];
        if is_alphanumeric(c) {
            cur.push(c);
        } else if cur.len() > 0 {
            let w = string_of(&cur);
            done.push(w);
            cur = Vec::new();
        }
        i = i + 1;
    }
    proof {
        assert(cs@.subrange(0, cs@.len() as int) == cs@);
    }
    if cur.len() > 0 {
        let w = string_of(&cur);
        done.push(w);
    }
    done
}

/// Number of leading white-space characters of `s`.
pub open spec fn lead_ws(s: Seq<char>) -> nat
    decreases s.len(),
{
    if s.len() > 0 && is_ws(s[0]) {
        1 + lead_ws(s.drop_first())
    } else {
        0
    }
}

/// Number of trailing white-space characters of `s`.
pub open spec fn trail_ws(s: Seq<char>) -> nat
    decreases s.len(),
{
    if s.len() > 0 && is_ws(s.last()) {
        1 + trail_ws(s.drop_last())
    } else {
        0
    }
}

/// `s` without leading, then trailing, white space.
pub open spec fn trim_seq(s: Seq<char>) -> Seq<char> {
    let t = s.subrange(lead_ws(s) as int, s.len() as int);
    t.subrange(0, t.len() - trail_ws(t))
}

proof fn lemma_lead_ws_le(s: Seq<char>)
    ensures
        lead_ws(s) <= s.len(),
    decreases s.len(),
{
    if s.len() > 0 {
        lemma_lead_ws_le(s.drop_first());
    }
}

proof fn lemma_trail_ws_le(s: Seq<char>)
    ensures
        trail_ws(s) <= s.len(),
    decreases s.len(),
{
    if s.len() > 0 {
        lemma_trail_ws_le(s.drop_last());
    }
}

fn trim_chars(s: &Vec<char>) -> (r: Vec<char>)
    ensures
        r@ == trim_seq(s@),
{
    let n = s.len();
    let mut lo: usize = 0;
    proof {
        assert(s@.subrange(0, n as int) == s@);
    }
    while lo < n && crate::validation::is_ws_char(s[lo])
        invariant
            n == s@.len(),
            lo <= n,
            lead_ws(s@) == lo + lead_ws(s@.subrange(lo as int, n as int)),
        decreases n - lo,
    {
        proof {
            assert(s@.subrange(lo as int, n as int).drop_first() == s@.subrange(lo + 1, n as int));
        }
        lo = lo + 1;
    }
    proof {
        let t = s@.subrange(lo as int, n as int);
        if lo < n {
            assert(t[0] == s@[lo as int]);
        }
        assert(lead_ws(t) == 0);
    }
    let t = crate::collections::copy_range(s.as_slice(), lo, n);
    let m = t.len();
    let mut hi: usize = m;
    proof {
        assert(t@.subrange(0, m as int) == t@);
    }
    while hi > 0 && crate::validation::is_ws_char(t[hi - 1])
        invariant
            m == t@.len(),
            hi <= m,
            trail_ws(t@) == (m - hi) + trail_ws(t@.subrange(0, hi as int)),
        decreases hi,
    {
        proof {
            assert(t@.subrange(0, hi as int).drop_last() == t@.subrange(0, hi - 1));
        }
        hi = hi - 1;
    }
    proof {
        let u = t@.subrange(0, hi as int);
        if hi > 0 {
            assert(u.last() == t@[hi - 1]);
        }
        assert(trail_ws(u) == 0);
    }
    crate::collections::copy_range(t.as_slice(), 0, hi)
}

/// Offset from `j` of the first `}}` in `h` at or after `j`.
pub open spec fn close_off(h: Seq<char>, j: int) -> Option<nat>
    decreases h.len() - j,
{
    if j < 0 || j + 1 >= h.len() {
        None
    } else if h[j] == '}' && h[j + 1] == '}' {
        Some(0)
    } else {
        match close_off(h, j + 1) {
            Some(k) => Some(k + 1),
            None => None,
        }
    }
}

/// Whether a placeholder `{{ ... }}` opens at `i`, as the template reads
/// them: `{{` with at least two characters after it, and a later `}}`.
pub open spec fn opens_at(h: Seq<char>, i: int) -> bool {
    &&& 0 <= i
    &&& i + 3 < h.len()
    &&& h[i] == '{'
    &&& h[i + 1] == '{'
    &&& close_off(h, i + 2) is Some
    &&& i + 2 + close_off(h, i + 2)->Some_0 + 2 <= h.len()
}

proof fn lemma_close_off_bound(h: Seq<char>, j: int)
    ensures
        close_off(h, j) is Some ==> 0 <= j && j + close_off(h, j)->Some_0 + 2 <= h.len()
            && h[j + close_off(h, j)->Some_0] == '}',
    decreases h.len() - j,
{
    if 0 <= j && j + 1 < h.len() && !(h[j] == '}' && h[j + 1] == '}') {
        lemma_close_off_bound(h, j + 1);
    }
}

/// Keys of the placeholders of `h` from `i`, trimmed, in order.
pub open spec fn tmpl_keys(h: Seq<char>, i: int) -> Seq<Seq<char>>
    decreases h.len() - i,
{
    if i < 0 || i >= h.len() {
        Seq::empty()
    } else if opens_at(h, i) {
        let e = i + 2 + close_off(h, i + 2)->Some_0;
        seq![trim_seq(h.subrange(i + 2, e))] + tmpl_keys(h, e + 2)
    } else {
        tmpl_keys(h, i + 1)
    }
}

/// `h` from `i` with its placeholders filled from `outs` in order: a value
/// replaces the placeholder, `None` keeps it as written.
pub open spec fn tmpl(h: Seq<char>, i: int, outs: Seq<Option<Seq<char>>>) -> Seq<char>
    decreases h.len() - i,
{
    if i < 0 || i >= h.len() {
        Seq::empty()
    } else if opens_at(h, i) {
        let e = i + 2 + close_off(h, i + 2)->Some_0;
        (match outs[0] {
            Some(v) => v,
            None => h.subrange(i, e + 2),
        }) + tmpl(h, e + 2, outs.drop_first())
    } else {
        seq![h[i]] + tmpl(h, i + 1, outs)
    }
}

/// Whether `f`, given a string of `key`, can return `out` (as characters).
pub open spec fn provides<F: Fn(&str) -> Option<String>>(
    f: F,
    key: Seq<char>,
    out: Option<Seq<char>>,
) -> bool {
    exists|k: &str, o: Option<String>|
        #![trigger f.ensures((k,), o)]
        k@ == key && f.ensures((k,), o) && out == (match o {
            Some(x) => Some(x@),
            None => None::<Seq<char>>,
        })
}

fn find_close(h: &Vec<char>, j0: usize) -> (r: Option<usize>)
    ensures
        match close_off(h@, j0 as int) {
            Some(k) => r == Some((j0 + k) as usize),
            None => r is None,
        },
        r is Some ==> r->Some_0 + 2 <= h@.len() && j0 <= r->Some_0,
{
    proof {
        lemma_close_off_bound(h@, j0 as int);
    }
    let n = h.len();
    let mut j = j0;
    while j < n && n - j >= 2
        invariant
            n == h@.len(),
            j0 <= j,
            close_off(h@, j0 as int) == (match close_off(h@, j as int) {
                Some(k) => Some((k + (j - j0)) as nat),
                None => None::<nat>,
            }),
        decreases n - j,
    {
        if h[j] == '}' && h[j + 1] == '}' {
            return Some(j);
        }
        j = j + 1;
    }
    None
}

/// `input` with each `{{ key }}` placeholder replaced by what `provider`
/// gives for the trimmed key; a placeholder it gives nothing for, or one
/// without a closing `}}`, is kept as written.
pub fn template<F: Fn(&str) -> Option<String>>(input: &str, provider: F) -> (r: String)
    requires
        forall|x: &str| provider.requires((x,)),
    ensures
        exists|outs: Seq<Option<Seq<char>>>|
            {
                &&& outs.len() == tmpl_keys(input@, 0).len()
                &&& forall|k: int|
                    0 <= k < outs.len() ==> #[trigger] provides(
                        provider,
                        tmpl_keys(input@, 0)[k],
                        outs[k],
                    )
                &&& r@ == tmpl(input@, 0, outs)
            },
{
    let h = chars_of(input);
    let n = h.len();
    let mut out: Vec<char> = Vec::new();
    let ghost mut outs: Seq<Option<Seq<char>>> = Seq::empty();
    let ghost mut keys: Seq<Seq<char>> = Seq::empty();
    let mut i: usize = 0;
    proof {
        assert forall|rest: Seq<Option<Seq<char>>>| #![trigger tmpl(h@, 0, rest)]
            out@ + tmpl(h@, 0, rest) == tmpl(h@, 0, outs + rest) by {
            assert(outs + rest == rest);
            assert(out@ + tmpl(h@, 0, rest) =~= tmpl(h@, 0, rest));
        }
        assert(keys + tmpl_keys(h@, 0) == tmpl_keys(h@, 0));
    }
    while i < n
        invariant
            n == h@.len(),
            h@ == input@,
            i <= n,
            forall|x: &str| provider.requires((x,)),
            outs.len() == keys.len(),
            keys + tmpl_keys(h@, i as int) == tmpl_keys(h@, 0),
            forall|k: int| 0 <= k < outs.len() ==> #[trigger] provides(provider, keys[k], outs[k]),
            forall|rest: Seq<Option<Seq<char>>>|
                #![trigger tmpl(h@, i as int, rest)]
                out@ + tmpl(h@, i as int, rest) == tmpl(h@, 0, outs + rest),
        decreases n - i,
    {
        let mut close: Option<usize> = None;
        if n - i > 3 && h[i] == '{' && h[i + 1] == '{' {
            close = find_close(&h, i + 2);
        }
        proof {
            lemma_close_off_bound(h@, i + 2);
            if close is None {
                assert(!opens_at(h@, i as int));
            } else {
                assert(opens_at(h@, i as int));
            }
        }
        match close {
            Some(e) => {
                let inner = crate::collections::copy_range(h.as_slice(), i + 2, e);
                let key_cs = trim_chars(&inner);
                let key = string_of(&key_cs);
                let ks = key.as_str();
                let got = provider(ks);
                let ghost got_g = got;
                let ghost before = out@;
                let ghost piece: Option<Seq<char>> = match got {
                    Some(ref v) => Some(v@),
                    None => None,
                };
                match got {
                    Some(v) => {
                        let vc = chars_of(v.as_str());
                        push_all(&mut out, &vc);
                    },
                    None => {
                        let lit = crate::collections::copy_range(h.as_slice(), i, e + 2);
                        push_all(&mut out, &lit);
                    },
                }
                proof {
                    let old_outs = outs;
                    let old_keys = keys;
                    let kseq = trim_seq(h@.subrange(i + 2, e as int));
                    assert(provides(provider, kseq, piece)) by {
                        assert(ks@ == kseq);
                        assert(provider.ensures((ks,), got_g));
                    }
                    outs = outs.push(piece);
                    keys = keys.push(kseq);
                    assert forall|k: int| 0 <= k < outs.len() implies #[trigger] provides(
                        provider,
                        keys[k],
                        outs[k],
                    ) by {
                        if k < old_outs.len() {
                            assert(outs[k] == old_outs[k] && keys[k] == old_keys[k]);
                        }
                    }
                    assert(old_keys + tmpl_keys(h@, i as int) == tmpl_keys(h@, 0));
                    assert(tmpl_keys(h@, i as int) == seq![kseq] + tmpl_keys(h@, e + 2));
                    assert(keys + tmpl_keys(h@, e + 2) =~= old_keys + tmpl_keys(h@, i as int));
                    assert forall|rest: Seq<Option<Seq<char>>>| #![trigger tmpl(h@, e + 2, rest)]
                        out@ + tmpl(h@, e + 2, rest) == tmpl(h@, 0, outs + rest) by {
                        let r2 = seq![piece] + rest;
                        assert(r2.drop_first() == rest);
                        assert(r2[0] == piece);
                        assert(old_outs + r2 == outs + rest);
                        assert(before + tmpl(h@, i as int, r2) == tmpl(h@, 0, old_outs + r2));
                        assert(out@ + tmpl(h@, e + 2, rest) =~= before + tmpl(h@, i as int, r2));
                    }
                }
                i = e + 2;
            },
            None => {
                let c = h[i];
                let ghost before = out@;
                out.push(c);
                proof {
                    assert(tmpl_keys(h@, i as int) == tmpl_keys(h@, i + 1));
                    assert forall|rest: Seq<Option<Seq<char>>>| #![trigger tmpl(h@, i + 1, rest)]
                        out@ + tmpl(h@, i + 1, rest) == tmpl(h@, 0, outs + rest) by {
                        assert(before + tmpl(h@, i as int, rest) == tmpl(h@, 0, outs + rest));
                        assert(out@ + tmpl(h@, i + 1, rest) =~= before + tmpl(h@, i as int, rest));
                    }
                }
                i = i + 1;
            },
        }
    }
    proof {
        let e = Seq::<Option<Seq<char>>>::empty();
        assert(out@ + tmpl(h@, n as int, e) == tmpl(h@, 0, outs + e));
        assert(outs + e == outs);
        assert(out@ + tmpl(h@, n as int, e) =~= out@);
        assert(keys + Seq::<Seq<char>>::empty() == tmpl_keys(h@, 0));
        assert(keys =~= tmpl_keys(h@, 0));
    }
    string_of(&out)
}

/// `s` with the bytes between its first `prefix` and last `suffix` bytes
/// replaced by as many `mask_char`s; `s` itself when those overlap. The
/// two cut points must fall on character boundaries.
pub fn mask(s: &str, prefix: usize, suffix: usize, mask_char: char) -> (r: String)
    requires
        s.spec_bytes().len() > prefix + suffix ==> vstd::utf8::is_char_boundary(
            s.spec_bytes(),
            prefix as int,
        ) && vstd::utf8::is_char_boundary(s.spec_bytes(), s.spec_bytes().len() - suffix),
    ensures
        s.spec_bytes().len() <= prefix + suffix ==> r@ == s@,
        s.spec_bytes().len() > prefix + suffix ==> exists|h: &str, t: &str|
            #![trigger h.spec_bytes(), t.spec_bytes()]
            {
                let b = s.spec_bytes();
                &&& h.spec_bytes() == b.subrange(0, prefix as int)
                &&& t.spec_bytes() == b.subrange(b.len() - suffix, b.len() as int)
                &&& r@ == h@ + Seq::new((b.len() - prefix - suffix) as nat, |_i: int| mask_char)
                    + t@
            },
{
    let n = s.as_bytes().len();
    if prefix >= n || suffix >= n - prefix {
        return s.to_owned();
    }
    let (h, _) = s.split_at(prefix);
    let (_, t) = s.split_at(n - suffix);
    let mut out = chars_of(h);
    let fillers = fill(mask_char, n - prefix - suffix);
    push_all(&mut out, &fillers);
    let tail = chars_of(t);
    push_all(&mut out, &tail);
    string_of(&out)
}

/// `s` when it fits in `max_len` bytes (or `max_len < 3`); otherwise its
/// first and last `(max_len - 3) / 2` bytes around `...`. The two cut
/// points must fall on character boundaries.
pub fn ellipsis_middle(s: &str, max_len: usize) -> (r: String)
    requires
        s.spec_bytes().len() > max_len && max_len >= 3 ==> vstd::utf8::is_char_boundary(
            s.spec_bytes(),
            ((max_len - 3) / 2) as int,
        ) && vstd::utf8::is_char_boundary(
            s.spec_bytes(),
            s.spec_bytes().len() - (max_len - 3) / 2,
        ),
    ensures
        s.spec_bytes().len() <= max_len || max_len < 3 ==> r@ == s@,
        s.spec_bytes().len() > max_len && max_len >= 3 ==> exists|h: &str, t: &str|
            #![trigger h.spec_bytes(), t.spec_bytes()]
            {
                let b = s.spec_bytes();
                let side = (max_len - 3) / 2;
                &&& h.spec_bytes() == b.subrange(0, side as int)
                &&& t.spec_bytes() == b.subrange(b.len() - side, b.len() as int)
                &&& r@ == h@ + seq!['.', '.', '.'] + t@
            },
{
    let n = s.as_bytes().len();
    if n <= max_len || max_len < 3 {
        return s.to_owned();
    }
    let side = (max_len - 3) / 2;
    let (h, _) = s.split_at(side);
    let (_, t) = s.split_at(n - side);
    let mut out = chars_of(h);
    out.push('.');
    out.push('.');
    out.push('.');
    let ghost mid = out@;
    let tail = chars_of(t);
    push_all(&mut out, &tail);
    proof {
        assert(mid =~= h@ + seq!['.', '.', '.']);
    }
    string_of(&out)
}

} // verus!
