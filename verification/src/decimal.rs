//! Decimal numbers as `str::parse::<f64>` reads them ("72", "-1", "0.5",
//! "+96.25", "1e2", "2.5E-1", "inf", "NaN"), kept at a fixed precision: the
//! library holds alterations in hundredths of a semitone, tempos in
//! thousandths of a beat per minute and metronome marks in whole beats,
//! truncating toward zero and saturating at the bounds of the integer type
//! where a float-to-integer conversion saturates.
use vstd::prelude::*;
use crate::text::{
    is_digit, digit_val, all_digits, digits_val, lemma_digits_val_nonneg, lemma_digits_val_monotone, parse_digits,
    sub_vec,
};

verus! {

// ─── Syntax ───────────────────────────────────────────────────────────────

/// Index of the first '.' in `s`.
pub open spec fn dot_pos(s: Seq<char>) -> Option<int>
    decreases s.len(),
{
    if s.len() == 0 {
        None
    } else if s[0] == '.' {
        Some(0)
    } else {
        match dot_pos(s.drop_first()) {
            Some(k) => Some(k + 1),
            None => None,
        }
    }
}

/// Index of the first exponent mark ('e' or 'E') in `s`.
pub open spec fn exp_pos(s: Seq<char>) -> Option<int>
    decreases s.len(),
{
    if s.len() == 0 {
        None
    } else if s[0] == 'e' || s[0] == 'E' {
        Some(0)
    } else {
        match exp_pos(s.drop_first()) {
            Some(k) => Some(k + 1),
            None => None,
        }
    }
}

/// An optional leading sign: (negative, the rest).
pub open spec fn sign_split(s: Seq<char>) -> (bool, Seq<char>) {
    if s.len() > 0 && (s[0] == '-' || s[0] == '+') {
        (s[0] == '-', s.drop_first())
    } else {
        (false, s)
    }
}

/// A mantissa `digits [. digits]` with at least one digit, as (integer
/// digits, fraction digits).
pub open spec fn mantissa_parts(m: Seq<char>) -> Option<(Seq<char>, Seq<char>)> {
    let ip = match dot_pos(m) {
        Some(k) => m.take(k),
        None => m,
    };
    let fp = match dot_pos(m) {
        Some(k) => m.skip(k + 1),
        None => Seq::empty(),
    };
    if all_digits(ip) && all_digits(fp) && ip.len() + fp.len() > 0 {
        Some((ip, fp))
    } else {
        None
    }
}

pub open spec fn signed(neg: bool, v: int) -> int {
    if neg {
        -v
    } else {
        v
    }
}

/// An exponent `[+|-] digits` with at least one digit.
pub open spec fn exponent_value(x: Seq<char>) -> Option<int> {
    let (neg, b) = sign_split(x);
    if b.len() > 0 && all_digits(b) {
        Some(signed(neg, digits_val(b)))
    } else {
        None
    }
}

/// A finite numeral `[+|-] mantissa [(e|E) exponent]`, as (negative,
/// integer digits, fraction digits, exponent).
pub open spec fn float_parts(s: Seq<char>) -> Option<(bool, Seq<char>, Seq<char>, int)> {
    let (neg, body) = sign_split(s);
    let m = match exp_pos(body) {
        Some(k) => body.take(k),
        None => body,
    };
    let ex = match exp_pos(body) {
        Some(k) => exponent_value(body.skip(k + 1)),
        None => Some(0int),
    };
    match (mantissa_parts(m), ex) {
        (Some((ip, fp)), Some(e)) => Some((neg, ip, fp, e)),
        _ => None,
    }
}

/// `b` spells the word whose lower-case letters are `w` and upper-case
/// letters are `u`, each letter in either case.
pub open spec fn word_ci(b: Seq<char>, w: Seq<char>, u: Seq<char>) -> bool {
    &&& b.len() == w.len()
    &&& forall|i: int| 0 <= i < b.len() ==> (#[trigger] b[i] == w[i] || b[i] == u[i])
}

/// "inf" or "infinity", in any case.
pub open spec fn infinity_word(b: Seq<char>) -> bool {
    ||| word_ci(b, seq!['i', 'n', 'f'], seq!['I', 'N', 'F'])
    ||| word_ci(b, seq!['i', 'n', 'f', 'i', 'n', 'i', 't', 'y'], seq!['I', 'N', 'F', 'I', 'N', 'I', 'T', 'Y'])
}

/// "nan", in any case.
pub open spec fn nan_word(b: Seq<char>) -> bool {
    word_ci(b, seq!['n', 'a', 'n'], seq!['N', 'A', 'N'])
}

// ─── Value ────────────────────────────────────────────────────────────────

pub open spec fn pow10(n: nat) -> int
    decreases n,
{
    if n == 0 {
        1
    } else {
        10 * pow10((n - 1) as nat)
    }
}

/// The digit string `d` read as a whole number and multiplied by `10^e`,
/// truncated: with a negative `e` the last `-e` digits are dropped.
pub open spec fn shifted_magnitude(d: Seq<char>, e: int) -> int {
    if e >= 0 {
        digits_val(d) * pow10(e as nat)
    } else if d.len() + e <= 0 {
        0
    } else {
        digits_val(d.take(d.len() + e))
    }
}

/// The value of a finite numeral times `10^k`, truncated toward zero.
pub open spec fn scaled_value(neg: bool, ip: Seq<char>, fp: Seq<char>, exp: int, k: int) -> int {
    signed(neg, shifted_magnitude(ip + fp, exp - fp.len() + k))
}

pub open spec fn clamp(v: int, lo: int, hi: int) -> int {
    if v < lo {
        lo
    } else if v > hi {
        hi
    } else {
        v
    }
}

/// The number `s` denotes times `10^k`, truncated toward zero and
/// saturated to `[lo, hi]` (infinities to the bound of their sign);
/// `None` for NaN and for text that is no number.
pub open spec fn fixed_value(s: Seq<char>, k: int, lo: int, hi: int) -> Option<int> {
    match float_parts(s) {
        Some((neg, ip, fp, e)) => Some(clamp(scaled_value(neg, ip, fp, e, k), lo, hi)),
        None => if infinity_word(sign_split(s).1) {
            Some(
                if sign_split(s).0 {
                    lo
                } else {
                    hi
                },
            )
        } else {
            None
        },
    }
}

/// The number in hundredths (see `fixed_value`), within `i32`.
pub open spec fn decimal_hundredths(s: Seq<char>) -> Option<int> {
    fixed_value(s, 2, i32::MIN as int, i32::MAX as int)
}

/// The number in thousandths (see `fixed_value`), within `i64`.
pub open spec fn decimal_thousandths(s: Seq<char>) -> Option<int> {
    fixed_value(s, 3, i64::MIN as int, i64::MAX as int)
}

/// The number's integer part as a float-to-`i32` conversion gives it:
/// truncated toward zero, saturated, and 0 for NaN.
pub open spec fn decimal_whole_saturating(s: Seq<char>) -> Option<int> {
    if float_parts(s) is None && nan_word(sign_split(s).1) {
        Some(0)
    } else {
        fixed_value(s, 0, i32::MIN as int, i32::MAX as int)
    }
}

// ─── Lemmas ───────────────────────────────────────────────────────────────

proof fn lemma_pow10_pos(n: nat)
    ensures
        pow10(n) >= 1,
    decreases n,
{
    if n > 0 {
        lemma_pow10_pos((n - 1) as nat);
    }
}

proof fn lemma_pow10_add(a: nat, b: nat)
    ensures
        pow10(a + b) == pow10(a) * pow10(b),
    decreases b,
{
    if b > 0 {
        lemma_pow10_add(a, (b - 1) as nat);
        let x = pow10(a);
        let y = pow10((b - 1) as nat);
        assert(pow10(a + b) == 10 * pow10((a + b - 1) as nat));
        assert((a + b - 1) as nat == a + (b - 1) as nat);
        assert(10 * (x * y) == x * (10 * y)) by (nonlinear_arith);
    }
}

proof fn lemma_pow10_mono(a: nat, b: nat)
    requires
        a <= b,
    ensures
        pow10(a) <= pow10(b),
{
    lemma_pow10_add(a, (b - a) as nat);
    lemma_pow10_pos(a);
    lemma_pow10_pos((b - a) as nat);
    let x = pow10(a);
    let y = pow10((b - a) as nat);
    assert(x <= x * y) by (nonlinear_arith)
        requires
            x >= 1,
            y >= 1,
    ;
}

proof fn lemma_pow10_large(n: nat)
    requires
        n >= 19,
    ensures
        pow10(n) > 9223372036854775808,
{
    assert(pow10(19) == 10000000000000000000) by {
        reveal_with_fuel(pow10, 20);
    }
    lemma_pow10_mono(19, n);
}

// ─── Reading ──────────────────────────────────────────────────────────────

/// 2^100: exponents beyond it are read only for their sign.
pub const EXPONENT_LIMIT: u128 = 1267650600228229401496703205376;

fn find_dot(s: &Vec<char>, from: usize) -> (r: Option<usize>)
    requires
        from <= s@.len(),
    ensures
        match r {
            Some(k) => from <= k < s@.len() && dot_pos(s@.skip(from as int)) == Some(k - from),
            None => dot_pos(s@.skip(from as int)) is None,
        },
    decreases s@.len() - from,
{
    if from == s.len() {
        return None;
    }
    proof {
        assert(s@.skip(from as int)[0] == s@[from as int]);
        assert(s@.skip(from as int).drop_first() == s@.skip(from + 1));
    }
    if s[from] == '.' {
        Some(from)
    } else {
        find_dot(s, from + 1)
    }
}

fn find_exp(s: &Vec<char>, from: usize) -> (r: Option<usize>)
    requires
        from <= s@.len(),
    ensures
        match r {
            Some(k) => from <= k < s@.len() && exp_pos(s@.skip(from as int)) == Some(k - from),
            None => exp_pos(s@.skip(from as int)) is None,
        },
    decreases s@.len() - from,
{
    if from == s.len() {
        return None;
    }
    proof {
        assert(s@.skip(from as int)[0] == s@[from as int]);
        assert(s@.skip(from as int).drop_first() == s@.skip(from + 1));
    }
    if s[from] == 'e' || s[from] == 'E' {
        Some(from)
    } else {
        find_exp(s, from + 1)
    }
}

fn all_digit_chars(s: &Vec<char>) -> (r: bool)
    ensures
        r == all_digits(s@),
{
    let mut k: usize = 0;
    while k < s.len()
        invariant
            k <= s@.len(),
            forall|j: int| 0 <= j < k ==> is_digit(#[trigger] s@[j]),
        decreases s@.len() - k,
    {
        if !('0' <= s[k] && s[k] <= '9') {
            assert(!is_digit(s@[k as int]));
            return false;
        }
        k = k + 1;
    }
    true
}

fn concat_chars(a: &Vec<char>, b: &Vec<char>) -> (r: Vec<char>)
    ensures
        r@ == a@ + b@,
{
    let mut r = sub_vec(a, 0, a.len());
    assert(r@ == a@);
    let mut k: usize = 0;
    while k < b.len()
        invariant
            k <= b@.len(),
            r@ == a@ + b@.take(k as int),
        decreases b@.len() - k,
    {
        r.push(b[k]);
        assert(b@.take(k + 1) == b@.take(k as int).push(b@[k as int]));
        k = k + 1;
    }
    assert(b@.take(b@.len() as int) == b@);
    r
}

/// Whether `s[from..]` spells the word `w` (lower case) / `u` (upper
/// case), each letter in either case.
fn word_ci_at(s: &Vec<char>, from: usize, w: &Vec<char>, u: &Vec<char>) -> (r: bool)
    requires
        from <= s@.len(),
        u@.len() == w@.len(),
    ensures
        r == word_ci(s@.skip(from as int), w@, u@),
{
    let ghost b = s@.skip(from as int);
    if s.len() - from != w.len() {
        return false;
    }
    let mut i: usize = 0;
    while i < w.len()
        invariant
            b == s@.skip(from as int),
            b.len() == w@.len(),
            u@.len() == w@.len(),
            from + w@.len() == s@.len(),
            s@.len() <= usize::MAX,
            i <= w@.len(),
            forall|j: int| 0 <= j < i ==> (#[trigger] b[j] == w@[j] || b[j] == u@[j]),
        decreases w@.len() - i,
    {
        assert(from + i < s@.len());
        let c = s[from + i];
        assert(b[i as int] == c);
        if !(c == w[i] || c == u[i]) {
            return false;
        }
        i = i + 1;
    }
    true
}

/// Value of a digit string that is at most `max` (`None` when above it).
fn bounded_u128(s: &Vec<char>, max: u128) -> (r: Option<u128>)
    requires
        all_digits(s@),
        max >= 9,
    ensures
        match r {
            Some(v) => v == digits_val(s@) && v <= max,
            None => digits_val(s@) > max,
        },
{
    let n = s.len();
    let mut v: u128 = 0;
    let mut i: usize = 0;
    while i < n
        invariant
            i <= n,
            n == s@.len(),
            all_digits(s@),
            v == digits_val(s@.take(i as int)),
            v <= max,
            max >= 9,
        decreases n - i,
    {
        let c = s[i];
        assert(is_digit(s@[i as int]));
        let dv: u128 = (c as u32 - '0' as u32) as u128;
        proof {
            assert(s@.take(i + 1).drop_last() == s@.take(i as int));
            assert(s@.take(i + 1).last() == c);
        }
        if v > (max - dv) / 10 {
            proof {
                assert(v * 10 + dv > max) by (nonlinear_arith)
                    requires
                        v > (max - dv) / 10,
                        dv <= 9,
                        max >= 9,
                ;
                lemma_digits_val_monotone(s@, i + 1);
            }
            return None;
        }
        proof {
            assert(v * 10 + dv <= max) by (nonlinear_arith)
                requires
                    v <= (max - dv) / 10,
                    dv <= 9,
                    max >= 9,
            ;
        }
        v = v * 10 + dv;
        i = i + 1;
    }
    assert(s@.take(n as int) == s@);
    Some(v)
}

/// The integer and fraction digits of a mantissa (see `mantissa_parts`).
fn read_mantissa(m: &Vec<char>) -> (r: Option<(Vec<char>, Vec<char>)>)
    ensures
        match r {
            Some((ip, fp)) => mantissa_parts(m@) == Some((ip@, fp@)),
            None => mantissa_parts(m@) is None,
        },
{
    assert(m@.skip(0) == m@);
    let (ip, fp) = match find_dot(m, 0) {
        Some(k) => (sub_vec(m, 0, k), sub_vec(m, k + 1, m.len())),
        None => (sub_vec(m, 0, m.len()), Vec::new()),
    };
    proof {
        assert(m@.take(m@.len() as int) == m@);
        assert(m@.subrange(0, m@.len() as int) == m@);
    }
    if all_digit_chars(&ip) && all_digit_chars(&fp) && ip.len() + fp.len() > 0 {
        Some((ip, fp))
    } else {
        None
    }
}

/// The sign and magnitude of an exponent (see `exponent_value`), the
/// magnitude `None` beyond `EXPONENT_LIMIT`.
fn read_exponent(x: &Vec<char>) -> (r: Option<(bool, Option<u128>)>)
    ensures
        match r {
            Some((neg, mag)) => exponent_value(x@) matches Some(e) && match mag {
                Some(v) => v <= EXPONENT_LIMIT && e == signed(neg, v as int),
                None => if neg {
                    e < -(EXPONENT_LIMIT as int)
                } else {
                    e > EXPONENT_LIMIT as int
                },
            },
            None => exponent_value(x@) is None,
        },
{
    let xn = x.len();
    let neg = xn > 0 && x[0] == '-';
    let es: usize = if xn > 0 && (x[0] == '-' || x[0] == '+') {
        1
    } else {
        0
    };
    let eb = sub_vec(x, es, xn);
    proof {
        if es == 0 {
            assert(eb@ == x@);
        } else {
            assert(eb@ == x@.drop_first());
        }
        assert(sign_split(x@) == (neg, eb@));
    }
    if eb.len() > 0 && all_digit_chars(&eb) {
        proof {
            lemma_digits_val_nonneg(eb@);
        }
        Some((neg, bounded_u128(&eb, EXPONENT_LIMIT)))
    } else {
        None
    }
}

/// What a text denotes as `str::parse::<f64>` reads it: kind 0 a finite
/// numeral (sign, integer digits, fraction digits, exponent sign and
/// magnitude, the magnitude `None` beyond `EXPONENT_LIMIT`), kind 1 an
/// infinity, kind 2 NaN, kind 3 no number.
#[verifier::rlimit(30)]
fn read_numeral(s: &Vec<char>) -> (r: (u8, bool, Vec<char>, Vec<char>, bool, Option<u128>))
    ensures
        r.0 <= 3,
        r.0 == 0 ==> (float_parts(s@) matches Some((n, i, f, e)) && n == r.1 && i == r.2@ && f == r.3@ && match r.5 {
            Some(v) => v <= EXPONENT_LIMIT && e == signed(r.4, v as int),
            None => if r.4 {
                e < -(EXPONENT_LIMIT as int)
            } else {
                e > EXPONENT_LIMIT as int
            },
        }),
        r.0 != 0 ==> float_parts(s@) is None && r.1 == sign_split(s@).0,
        r.0 == 1 <==> (float_parts(s@) is None && infinity_word(sign_split(s@).1)),
        r.0 == 2 <==> (float_parts(s@) is None && nan_word(sign_split(s@).1)),
{
    let n = s.len();
    let neg = n > 0 && s[0] == '-';
    let start: usize = if n > 0 && (s[0] == '-' || s[0] == '+') {
        1
    } else {
        0
    };
    let ghost body = s@.skip(start as int);
    proof {
        if start == 0 {
            assert(body == s@);
        } else {
            assert(body == s@.drop_first());
        }
        assert(sign_split(s@) == (neg, body));
    }
    let xk = find_exp(s, start);
    let mant_end: usize = match xk {
        Some(k) => k,
        None => n,
    };
    let m = sub_vec(s, start, mant_end);
    let mant = read_mantissa(&m);
    let ex: Option<(bool, Option<u128>)> = match xk {
        Some(k) => {
            let x = sub_vec(s, k + 1, n);
            assert(x@ == body.skip(k - start + 1));
            read_exponent(&x)
        },
        None => Some((false, Some(0))),
    };
    proof {
        assert(m@ == (match exp_pos(body) {
            Some(k) => body.take(k),
            None => body,
        }));
    }
    match (mant, ex) {
        (Some((ip, fp)), Some((eneg, emag))) => {
            return (0, neg, ip, fp, eneg, emag);
        },
        _ => {},
    }
    assert(float_parts(s@) is None);
    let inf3 = vec!['i', 'n', 'f'];
    let inf3u = vec!['I', 'N', 'F'];
    let inf8 = vec!['i', 'n', 'f', 'i', 'n', 'i', 't', 'y'];
    let inf8u = vec!['I', 'N', 'F', 'I', 'N', 'I', 'T', 'Y'];
    let nan3 = vec!['n', 'a', 'n'];
    let nan3u = vec!['N', 'A', 'N'];
    proof {
        assert(inf3@ == seq!['i', 'n', 'f']);
        assert(inf3u@ == seq!['I', 'N', 'F']);
        assert(inf8@ == seq!['i', 'n', 'f', 'i', 'n', 'i', 't', 'y']);
        assert(inf8u@ == seq!['I', 'N', 'F', 'I', 'N', 'I', 'T', 'Y']);
        assert(nan3@ == seq!['n', 'a', 'n']);
        assert(nan3u@ == seq!['N', 'A', 'N']);
    }
    let is_inf = word_ci_at(s, start, &inf3, &inf3u) || word_ci_at(s, start, &inf8, &inf8u);
    if is_inf {
        return (1, neg, Vec::new(), Vec::new(), false, None);
    }
    let is_nan = word_ci_at(s, start, &nan3, &nan3u);
    if is_nan {
        proof {
            assert(!infinity_word(body));
        }
        return (2, neg, Vec::new(), Vec::new(), false, None);
    }
    (3, neg, Vec::new(), Vec::new(), false, None)
}

/// `shifted_magnitude(d, e)` when it is at most `cap`, `None` when above.
fn shifted_capped(d: &Vec<char>, e: i128, cap: u64) -> (r: Option<u64>)
    requires
        all_digits(d@),
        cap >= 9,
    ensures
        match r {
            Some(v) => v as int == shifted_magnitude(d@, e as int) && v <= cap,
            None => shifted_magnitude(d@, e as int) > cap,
        },
{
    proof {
        lemma_digits_val_nonneg(d@);
        assert(d@.skip(0) == d@);
    }
    let ghost dv = digits_val(d@);
    if e >= 0 {
        proof {
            lemma_pow10_pos(e as nat);
        }
        match parse_digits(d, 0, cap) {
            None => {
                proof {
                    let p = pow10(e as nat);
                    assert(dv * p >= dv) by (nonlinear_arith)
                        requires
                            dv >= 0,
                            p >= 1,
                    ;
                }
                None
            },
            Some(m0) => {
                let mut m: u64 = m0;
                let mut i: i128 = 0;
                assert(pow10(0) == 1);
                while i < e
                    invariant
                        0 <= i <= e,
                        m <= cap,
                        cap >= 9,
                        dv >= 0,
                        dv == digits_val(d@),
                        m as int == dv * pow10(i as nat),
                    decreases e - i,
                {
                    proof {
                        lemma_pow10_pos(i as nat);
                        lemma_pow10_add(i as nat, (e - i) as nat);
                        assert((i as nat + (e - i) as nat) as nat == e as nat);
                    }
                    if m == 0 {
                        proof {
                            let p = pow10(i as nat);
                            let q = pow10((e - i) as nat);
                            assert(dv == 0) by (nonlinear_arith)
                                requires
                                    dv * p == 0,
                                    p >= 1,
                                    dv >= 0,
                            ;
                            assert(dv * pow10(e as nat) == 0) by (nonlinear_arith)
                                requires
                                    dv == 0,
                            ;
                        }
                        return Some(0);
                    }
                    if m > cap / 10 {
                        proof {
                            let p = pow10(i as nat);
                            let q = pow10((e - i) as nat);
                            lemma_pow10_mono(1, (e - i) as nat);
                            assert(pow10(1) == 10) by {
                                reveal_with_fuel(pow10, 2);
                            }
                            assert(dv * pow10(e as nat) == (m as int) * q) by (nonlinear_arith)
                                requires
                                    pow10(e as nat) == p * q,
                                    m as int == dv * p,
                            ;
                            assert((m as int) * q > cap) by (nonlinear_arith)
                                requires
                                    m > cap / 10,
                                    q >= 10,
                                    cap >= 9,
                            ;
                        }
                        return None;
                    }
                    proof {
                        let p = pow10(i as nat);
                        assert(pow10((i + 1) as nat) == 10 * p);
                        assert(dv * (10 * p) == (dv * p) * 10) by (nonlinear_arith);
                        assert(m * 10 <= cap) by (nonlinear_arith)
                            requires
                                m <= cap / 10,
                        ;
                    }
                    m = m * 10;
                    i = i + 1;
                }
                Some(m)
            },
        }
    } else {
        let kept: i128 = d.len() as i128 + e;
        if kept <= 0 {
            return Some(0);
        }
        let sub = sub_vec(d, 0, kept as usize);
        proof {
            assert(sub@ == d@.take(kept as int));
            assert(sub@.skip(0) == sub@);
            assert(all_digits(sub@)) by {
                assert forall|j: int| 0 <= j < sub@.len() implies is_digit(#[trigger] sub@[j]) by {
                    assert(sub@[j] == d@[j]);
                }
            }
        }
        parse_digits(&sub, 0, cap)
    }
}

/// `fixed_value(s@, k, lo, hi)`, and whether `s` is NaN.
fn fixed_value_exec(s: &Vec<char>, k: u8, lo: i128, hi: i128) -> (r: (Option<i128>, bool))
    requires
        k <= 3,
        -9223372036854775808 <= lo <= -9,
        9 <= hi <= 9223372036854775807,
    ensures
        match r.0 {
            Some(v) => fixed_value(s@, k as int, lo as int, hi as int) == Some(v as int),
            None => fixed_value(s@, k as int, lo as int, hi as int) is None,
        },
        r.1 == (float_parts(s@) is None && nan_word(sign_split(s@).1)),
{
    let (kind, neg, ip, fp, eneg, emag) = read_numeral(s);
    if kind == 1 {
        return (Some(if neg { lo } else { hi }), false);
    }
    if kind == 2 {
        return (None, true);
    }
    if kind == 3 {
        return (None, false);
    }
    let ghost (gn, gi, gf, ge) = float_parts(s@)->0;
    let cap: u64 = if -lo > hi { (-lo) as u64 } else { hi as u64 };
    let d = concat_chars(&ip, &fp);
    proof {
        assert(all_digits(d@)) by {
            assert forall|j: int| 0 <= j < d@.len() implies is_digit(#[trigger] d@[j]) by {
                if j < ip@.len() {
                    assert(d@[j] == ip@[j]);
                } else {
                    assert(d@[j] == fp@[j - ip@.len()]);
                }
            }
        }
        lemma_digits_val_nonneg(d@);
        assert(d@.skip(0) == d@);
    }
    let ghost sh = ge - fp@.len() + k;
    let mag: Option<u64> = match emag {
        Some(v) => {
            let ex: i128 = if eneg {
                -(v as i128)
            } else {
                v as i128
            };
            let e: i128 = ex - fp.len() as i128 + k as i128;
            assert(e == sh);
            shifted_capped(&d, e, cap)
        },
        None => {
            if eneg {
                let il = ip.len();
                proof {
                    assert(il as int == ip@.len());
                    assert(d@.len() == ip@.len() + fp@.len());
                    assert(ge < -(EXPONENT_LIMIT as int));
                    assert(sh == ge - fp@.len() + k);
                    assert(d@.len() + sh == il + ge + k);
                    assert(sh < 0);
                    assert(d@.len() + sh <= 0);
                }
                Some(0)
            } else {
                let fl = fp.len();
                proof {
                    assert(fl as int == fp@.len());
                    assert(ge > EXPONENT_LIMIT as int);
                    assert(sh == ge - fl + k);
                    assert(sh >= 19);
                    lemma_pow10_large(sh as nat);
                }
                match parse_digits(&d, 0, cap) {
                    Some(z) => {
                        if z == 0 {
                            proof {
                                assert(digits_val(d@) * pow10(sh as nat) == 0) by (nonlinear_arith)
                                    requires
                                        digits_val(d@) == 0,
                                ;
                            }
                            Some(0)
                        } else {
                            proof {
                                let p = pow10(sh as nat);
                                let x = digits_val(d@);
                                assert(x * p >= p) by (nonlinear_arith)
                                    requires
                                        x >= 1,
                                        p >= 1,
                                ;
                            }
                            None
                        }
                    },
                    None => {
                        proof {
                            let p = pow10(sh as nat);
                            let x = digits_val(d@);
                            assert(x * p >= p) by (nonlinear_arith)
                                requires
                                    x >= 1,
                                    p >= 1,
                            ;
                        }
                        None
                    },
                }
            }
        },
    };
    assert(shifted_magnitude(d@, sh) == shifted_magnitude(gi + gf, ge - gf.len() + k));
    match mag {
        Some(m) => {
            let v: i128 = if neg {
                -(m as i128)
            } else {
                m as i128
            };
            let c: i128 = if v < lo {
                lo
            } else if v > hi {
                hi
            } else {
                v
            };
            (Some(c), false)
        },
        None => (Some(if neg { lo } else { hi }), false),
    }
}

/// A number in hundredths (see `decimal_hundredths`).
pub fn parse_hundredths(s: &Vec<char>) -> (r: Option<i32>)
    ensures
        match r {
            Some(v) => decimal_hundredths(s@) == Some(v as int),
            None => decimal_hundredths(s@) is None,
        },
{
    match fixed_value_exec(s, 2, -2147483648, 2147483647).0 {
        Some(v) => Some(v as i32),
        None => None,
    }
}

/// A number in thousandths (see `decimal_thousandths`).
pub fn parse_thousandths(s: &Vec<char>) -> (r: Option<i64>)
    ensures
        match r {
            Some(v) => decimal_thousandths(s@) == Some(v as int),
            None => decimal_thousandths(s@) is None,
        },
{
    match fixed_value_exec(s, 3, -9223372036854775808, 9223372036854775807).0 {
        Some(v) => Some(v as i64),
        None => None,
    }
}

/// A number's integer part as a float-to-`i32` conversion gives it (see
/// `decimal_whole_saturating`).
pub fn parse_whole_saturating(s: &Vec<char>) -> (r: Option<i32>)
    ensures
        match r {
            Some(v) => decimal_whole_saturating(s@) == Some(v as int),
            None => decimal_whole_saturating(s@) is None,
        },
{
    let (v, nan) = fixed_value_exec(s, 0, -2147483648, 2147483647);
    if nan {
        return Some(0);
    }
    match v {
        Some(x) => Some(x as i32),
        None => None,
    }
}

} // verus!
