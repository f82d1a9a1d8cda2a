//! Decimal text as fixed-point integers: every numeric quantity of the
//! library is held as a count of millionths in an `i64`.
use vstd::prelude::*;

verus! {

broadcast use vstd::string::is_ascii_spec_bytes;

/// Millionths per unit.
pub const SCALE: i64 = 1000000;

/// Digits kept after the decimal point.
pub const FRAC_DIGITS: usize = 6;

/// Largest integer part that may still fit once scaled.
pub const INT_PART_BOUND: u64 = 9223372036855;

pub open spec fn is_digit(c: char) -> bool {
    '0' <= c && c <= '9'
}

pub open spec fn digit_val(c: char) -> int {
    (c as int) - ('0' as int)
}

pub open spec fn all_digits(s: Seq<char>) -> bool {
    forall|i: int| 0 <= i < s.len() ==> is_digit(#[trigger] s[i])
}

/// The number written by a run of decimal digits.
pub open spec fn digits_value(s: Seq<char>) -> int
    decreases s.len(),
{
    if s.len() == 0 {
        0
    } else {
        digits_value(s.drop_last()) * 10 + digit_val(s.last())
    }
}

pub open spec fn pow10(n: nat) -> int
    decreases n,
{
    if n == 0 {
        1
    } else {
        10 * pow10((n - 1) as nat)
    }
}

/// `d` ends the run of digits that `s` starts with.
pub open spec fn digit_run_end(s: Seq<char>, d: int) -> bool {
    0 <= d <= s.len() && all_digits(s.take(d)) && (d == s.len() || !is_digit(s[d]))
}

/// The first six digits of a fraction, padded with zeros, in millionths.
pub open spec fn frac_value(f: Seq<char>) -> int {
    let k = if f.len() < 6 { f.len() } else { 6 };
    digits_value(f.take(k as int)) * pow10((6 - k) as nat)
}

/// An unsigned decimal `ddd`, `ddd.fff`, `.fff` or `ddd.` in millionths.
pub open spec fn unsigned_value(b: Seq<char>) -> Option<int> {
    let d = choose|d: int| digit_run_end(b, d);
    if d == b.len() {
        if d > 0 {
            Some(digits_value(b) * SCALE)
        } else {
            None
        }
    } else if b[d] == '.' && all_digits(b.skip(d + 1)) && (d > 0 || d + 1 < b.len()) {
        Some(digits_value(b.take(d)) * SCALE + frac_value(b.skip(d + 1)))
    } else {
        None
    }
}

/// The value of decimal text with an optional sign, in millionths, when it
/// fits an `i64`.
pub open spec fn decimal_value(s: Seq<char>) -> Option<int> {
    let neg = s.len() > 0 && s[0] == '-';
    let body = if s.len() > 0 && (s[0] == '-' || s[0] == '+') {
        s.drop_first()
    } else {
        s
    };
    match unsigned_value(body) {
        Some(m) => {
            let v = if neg {
                -m
            } else {
                m
            };
            if i64::MIN <= v <= i64::MAX {
                Some(v)
            } else {
                None
            }
        },
        None => None,
    }
}

proof fn lemma_digit_run_unique(s: Seq<char>, d1: int, d2: int)
    requires
        digit_run_end(s, d1),
        digit_run_end(s, d2),
    ensures
        d1 == d2,
{
    if d1 < d2 {
        assert(s.take(d2)[d1] == s[d1]);
    } else if d2 < d1 {
        assert(s.take(d1)[d2] == s[d2]);
    }
}

proof fn lemma_digits_step(s: Seq<char>, i: int)
    requires
        0 <= i < s.len(),
    ensures
        digits_value(s.take(i + 1)) == digits_value(s.take(i)) * 10 + digit_val(s[i]),
{
    assert(s.take(i + 1).drop_last() =~= s.take(i));
}

proof fn lemma_digits_nonneg(s: Seq<char>)
    requires
        all_digits(s),
    ensures
        digits_value(s) >= 0,
    decreases s.len(),
{
    if s.len() > 0 {
        lemma_digits_nonneg(s.drop_last());
    }
}

proof fn lemma_digits_prefix_le(s: Seq<char>, i: int)
    requires
        all_digits(s),
        0 <= i <= s.len(),
    ensures
        digits_value(s.take(i)) <= digits_value(s),
    decreases s.len() - i,
{
    if i < s.len() {
        lemma_digits_prefix_le(s, i + 1);
        lemma_digits_step(s, i);
        lemma_digits_nonneg(s.take(i));
    } else {
        assert(s.take(i) =~= s);
    }
}

/// The run of digits of `s` from byte `from` on, as a number while it stays
/// within `INT_PART_BOUND`. Returns where the scan stopped.
fn scan_int_part(s: &str, from: usize) -> (r: (usize, Option<u64>))
    requires
        s.is_ascii(),
        from <= s@.len(),
    ensures
        from <= r.0 <= s@.len(),
        all_digits(s@.subrange(from as int, r.0 as int)),
        r.1 matches Some(v) ==> digit_run_end(s@.skip(from as int), r.0 - from) && v
            == digits_value(s@.subrange(from as int, r.0 as int)) && v <= INT_PART_BOUND,
        r.1 is None ==> digits_value(s@.subrange(from as int, r.0 as int)) > INT_PART_BOUND,
{
    let b = s.as_bytes();
    let n = b.len();
    let ghost chars = s@;
    assert(b@.len() == chars.len());
    assert forall|j: int| 0 <= j < n implies b@[j] as int == #[trigger] chars[j] as int by {
        assert('\0' <= chars[j] <= '\u{7f}');
        assert(b@[j] == chars[j] as u8);
    }
    let mut i: usize = from;
    let mut ip: u64 = 0;
    while i < n && 48u8 <= b[i] && b[i] <= 57u8
        invariant
            from <= i <= n,
            n == b@.len(),
            n == chars.len(),
            chars == s@,
            forall|j: int| 0 <= j < n ==> b@[j] as int == #[trigger] chars[j] as int,
            all_digits(chars.subrange(from as int, i as int)),
            ip as int == digits_value(chars.subrange(from as int, i as int)),
            ip <= INT_PART_BOUND,
        decreases n - i,
    {
        let ghost t = chars.subrange(from as int, i + 1);
        proof {
            lemma_digits_step(t, i - from);
            assert(t.take(i - from) =~= chars.subrange(from as int, i as int));
            assert(t.take(i - from + 1) =~= t);
            assert(is_digit(t[i - from]));
            assert(all_digits(t));
        }
        ip = ip * 10 + (b[i] - 48u8) as u64;
        i = i + 1;
        if ip > INT_PART_BOUND {
            return (i, None);
        }
    }
    proof {
        let body = chars.skip(from as int);
        assert(body.take(i - from) =~= chars.subrange(from as int, i as int));
        if i < n {
            assert(body[i - from] == chars[i as int]);
        }
    }
    (i, Some(ip))
}

/// The fraction digits of `s` from byte `from` on, as millionths.
fn scan_fraction(s: &str, from: usize) -> (r: Option<u64>)
    requires
        s.is_ascii(),
        from <= s@.len(),
    ensures
        r matches Some(f) ==> all_digits(s@.skip(from as int)) && f == frac_value(
            s@.skip(from as int),
        ) && f < 1000000,
        r is None ==> !all_digits(s@.skip(from as int)),
{
    let b = s.as_bytes();
    let n = b.len();
    let ghost chars = s@;
    let ghost f = chars.skip(from as int);
    assert forall|j: int| 0 <= j < n implies b@[j] as int == #[trigger] chars[j] as int by {
        assert('\0' <= chars[j] <= '\u{7f}');
        assert(b@[j] == chars[j] as u8);
    }
    let mut i: usize = from;
    let mut kept: usize = 0;
    let mut frac: u64 = 0;
    while i < n
        invariant
            from <= i <= n,
            n == b@.len(),
            n == chars.len(),
            f == chars.skip(from as int),
            chars == s@,
            forall|j: int| 0 <= j < n ==> b@[j] as int == #[trigger] chars[j] as int,
            kept == if i - from < 6 { i - from } else { 6 },
            all_digits(f.take(i - from)),
            frac as int == digits_value(f.take(kept as int)),
            frac < pow10(kept as nat),
        decreases n - i,
    {
        if !(48u8 <= b[i] && b[i] <= 57u8) {
            assert(f[i - from] == chars[i as int]);
            assert(!is_digit(f[i - from]));
            return None;
        }
        proof {
            assert(f[i - from] == chars[i as int]);
            assert(f.take(i - from + 1) =~= f.take(i - from).push(f[i - from]));
        }
        if kept < FRAC_DIGITS {
            proof {
                lemma_pow10_le6(kept as nat);
                lemma_digits_step(f, kept as int);
            }
            frac = frac * 10 + (b[i] - 48u8) as u64;
            kept = kept + 1;
        }
        i = i + 1;
    }
    assert(f.take(i - from) =~= f);
    let mut pad: usize = kept;
    let ghost dv = digits_value(f.take(kept as int));
    assert(pow10(0) == 1);
    assert(dv * pow10(0) == dv);
    while pad < FRAC_DIGITS
        invariant
            kept <= pad <= 6,
            kept == if f.len() < 6 { f.len() } else { 6 },
            dv == digits_value(f.take(kept as int)),
            frac as int == dv * pow10((pad - kept) as nat),
            frac < pow10(pad as nat),
        decreases 6 - pad,
    {
        proof {
            lemma_pow10_le6(pad as nat);
            lemma_pow10_le6((pad - kept) as nat);
            let p = pow10((pad - kept) as nat);
            assert(pow10((pad + 1 - kept) as nat) == 10 * p);
            assert((dv * p) * 10 == dv * (10 * p)) by (nonlinear_arith);
        }
        frac = frac * 10;
        pad = pad + 1;
    }
    proof {
        lemma_pow10_le6(6);
        reveal_with_fuel(pow10, 7);
    }
    Some(frac)
}

/// Reads decimal text (`-12.5`, `+3`, `.25`, `7.`) as millionths; digits past
/// the sixth decimal place are dropped. `None` for anything else, or for a
/// value outside the range of `i64`.
pub fn parse_decimal(s: &str) -> (r: Option<i64>)
    ensures
        r matches Some(v) ==> decimal_value(s@) == Some(v as int),
        r is None ==> decimal_value(s@) is None,
{
    if !s.is_ascii() {
        proof {
            lemma_non_ascii_rejected(s@);
        }
        return None;
    }
    let b = s.as_bytes();
    let n = b.len();
    let ghost chars = s@;
    assert(b@.len() == chars.len());
    let mut start: usize = 0;
    let mut neg = false;
    if n > 0 && (b[0] == 45u8 || b[0] == 43u8) {
        assert(b@[0] == chars[0] as u8);
        neg = b[0] == 45u8;
        start = 1;
    } else if n > 0 {
        assert(b@[0] == chars[0] as u8);
    }
    let ghost body = chars.skip(start as int);
    assert(neg == (chars.len() > 0 && chars[0] == '-'));
    assert(body =~= (if chars.len() > 0 && (chars[0] == '-' || chars[0] == '+') {
        chars.drop_first()
    } else {
        chars
    }));
    let (d, ipo) = scan_int_part(s, start);
    let ghost k = d - start;
    assert(body.take(k) =~= chars.subrange(start as int, d as int));
    let ip = match ipo {
        None => {
            proof {
                lemma_int_part_too_large(body, k);
            }
            return None;
        },
        Some(v) => v,
    };
    proof {
        lemma_digit_run_unique(body, k, choose|x: int| digit_run_end(body, x));
    }
    let mut frac: u64 = 0;
    if d < n {
        assert(b@[d as int] == chars[d as int] as u8);
        assert(body[k] == chars[d as int]);
        if b[d] != 46u8 {
            return None;
        }
        assert(body.skip(k + 1) =~= chars.skip(d + 1));
        match scan_fraction(s, d + 1) {
            None => {
                return None;
            },
            Some(f) => {
                frac = f;
            },
        }
        if d == start && d + 1 == n {
            return None;
        }
    } else {
        if d == start {
            return None;
        }
        assert(body.take(k) =~= body);
    }
    let m: u64 = ip * 1000000 + frac;
    if neg {
        if m > 9223372036854775808u64 {
            return None;
        }
        if m == 9223372036854775808u64 {
            return Some(i64::MIN);
        }
        Some(-(m as i64))
    } else {
        if m > 9223372036854775807u64 {
            return None;
        }
        Some(m as i64)
    }
}

proof fn lemma_int_part_too_large(body: Seq<char>, k: int)
    requires
        0 <= k <= body.len(),
        all_digits(body.take(k)),
        digits_value(body.take(k)) > INT_PART_BOUND,
    ensures
        unsigned_value(body) matches Some(m) ==> m > i64::MAX + 1,
{
    lemma_digit_run_exists(body);
    let d = choose|d: int| digit_run_end(body, d);
    if unsigned_value(body) is Some {
        assert(digit_run_end(body, d));
        if d < k {
            assert(body.take(k)[d] == body[d]);
        }
        let ip = body.take(d);
        assert(ip.take(k) =~= body.take(k));
        lemma_digits_prefix_le(ip, k);
        if d < body.len() {
            let f = body.skip(d + 1);
            let k: int = if f.len() < 6 { f.len() as int } else { 6 };
            lemma_digits_nonneg(f.take(k));
            lemma_pow10_pos((6 - k) as nat);
        } else {
            assert(body.take(d) =~= body);
        }
    }
}

proof fn lemma_pow10_le6(n: nat)
    requires
        n <= 6,
    ensures
        n < 6 ==> 10 * pow10(n) <= 1000000,
        pow10(n) <= 1000000,
        pow10(n + 1) == 10 * pow10(n),
{
    reveal_with_fuel(pow10, 8);
}

proof fn lemma_pow10_pos(n: nat)
    ensures
        pow10(n) > 0,
    decreases n,
{
    if n > 0 {
        lemma_pow10_pos((n - 1) as nat);
    }
}

proof fn lemma_digit_run_exists(s: Seq<char>)
    ensures
        exists|d: int| digit_run_end(s, d),
    decreases s.len(),
{
    if s.len() == 0 || !is_digit(s[0]) {
        assert(digit_run_end(s, 0));
    } else {
        let t = s.drop_first();
        lemma_digit_run_exists(t);
        let d = choose|d: int| digit_run_end(t, d);
        assert forall|i: int| 0 <= i < d + 1 implies is_digit(#[trigger] s.take(d + 1)[i]) by {
            if i > 0 {
                assert(s.take(d + 1)[i] == t.take(d)[i - 1]);
            }
        }
        if d < t.len() {
            assert(s[d + 1] == t[d]);
        }
        assert(digit_run_end(s, d + 1));
    }
}

proof fn lemma_non_ascii_rejected(s: Seq<char>)
    requires
        !vstd::utf8::is_ascii_chars(s),
    ensures
        decimal_value(s) is None,
{
    let j = choose|j: int| 0 <= j < s.len() && !('\0' <= #[trigger] s[j] <= '\u{7f}');
    let o: int = if s.len() > 0 && (s[0] == '-' || s[0] == '+') { 1 } else { 0 };
    let body = if o == 1 { s.drop_first() } else { s };
    assert(body =~= s.skip(o));
    let k = j - o;
    assert(body[k] == s[j]);
    lemma_digit_run_exists(body);
    let d = choose|d: int| digit_run_end(body, d);
    if k < d {
        assert(body.take(d)[k] == body[k]);
    } else if k > d && d < body.len() {
        assert(body.skip(d + 1)[k - d - 1] == body[k]);
    }
}

} // verus!
