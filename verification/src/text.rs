//! Character-level text utilities with exact specifications: whitespace,
//! trimming, splitting, substring search and decimal integer parsing, all
//! over `Seq<char>` views of strings.
use vstd::prelude::*;

verus! {

// ─── Decimal numerals ─────────────────────────────────────────────────────

/// The character of a decimal digit.
pub open spec fn digit_char(d: nat) -> char {
    (('0' as nat) + d) as char
}

/// Decimal digits of a natural number, most significant first.
pub open spec fn decimal_digits(n: nat) -> Seq<char>
    decreases n,
{
    if n < 10 {
        seq![digit_char(n)]
    } else {
        decimal_digits(n / 10).push(digit_char(n % 10))
    }
}

/// Decimal numeral of an integer, with a leading '-' when it is negative.
pub open spec fn signed_decimal(n: int) -> Seq<char> {
    if n < 0 {
        seq!['-'] + decimal_digits((-n) as nat)
    } else {
        decimal_digits(n as nat)
    }
}

/// Appends the decimal digits of `n`.
pub fn push_decimal(out: &mut Vec<char>, n: u32)
    ensures
        final(out)@ == old(out)@ + decimal_digits(n as nat),
    decreases n,
{
    if n >= 10 {
        push_decimal(out, n / 10);
    }
    let d = n % 10;
    let c: char = if d == 0 {
        '0'
    } else if d == 1 {
        '1'
    } else if d == 2 {
        '2'
    } else if d == 3 {
        '3'
    } else if d == 4 {
        '4'
    } else if d == 5 {
        '5'
    } else if d == 6 {
        '6'
    } else if d == 7 {
        '7'
    } else if d == 8 {
        '8'
    } else {
        '9'
    };
    assert(c == digit_char(d as nat));
    out.push(c);
}

/// Appends the decimal numeral of `n` (see `signed_decimal`).
pub fn push_signed_decimal(out: &mut Vec<char>, n: i32)
    ensures
        final(out)@ == old(out)@ + signed_decimal(n as int),
{
    if n < 0 {
        out.push('-');
        let m: i64 = -(n as i64);
        let ghost mid = out@;
        push_decimal(out, m as u32);
        assert(out@ == old(out)@ + (seq!['-'] + decimal_digits((-n) as nat)));
    } else {
        push_decimal(out, n as u32);
    }
}

// ─── Whitespace ───────────────────────────────────────────────────────────

/// The Unicode `White_Space` property, which is what `char::is_whitespace`
/// and `str::trim` use.
pub open spec fn is_ws(c: char) -> bool {
    ||| ('\u{9}' <= c && c <= '\u{d}')
    ||| c == ' '
    ||| c == '\u{85}'
    ||| c == '\u{a0}'
    ||| c == '\u{1680}'
    ||| ('\u{2000}' <= c && c <= '\u{200a}')
    ||| c == '\u{2028}'
    ||| c == '\u{2029}'
    ||| c == '\u{202f}'
    ||| c == '\u{205f}'
    ||| c == '\u{3000}'
}

pub fn char_is_ws(c: char) -> (r: bool)
    ensures
        r == is_ws(c),
{
    ('\u{9}' <= c && c <= '\u{d}') || c == ' ' || c == '\u{85}' || c == '\u{a0}' || c
        == '\u{1680}' || ('\u{2000}' <= c && c <= '\u{200a}') || c == '\u{2028}' || c
        == '\u{2029}' || c == '\u{202f}' || c == '\u{205f}' || c == '\u{3000}'
}

/// Number of leading whitespace characters.
pub open spec fn lead_ws(s: Seq<char>) -> nat
    decreases s.len(),
{
    if s.len() == 0 {
        0
    } else if is_ws(s[0]) {
        1 + lead_ws(s.drop_first())
    } else {
        0
    }
}

/// Number of trailing whitespace characters.
pub open spec fn trail_ws(s: Seq<char>) -> nat
    decreases s.len(),
{
    if s.len() == 0 {
        0
    } else if is_ws(s.last()) {
        1 + trail_ws(s.drop_last())
    } else {
        0
    }
}

/// `str::trim`: the string without leading and trailing whitespace.
pub open spec fn trim(s: Seq<char>) -> Seq<char> {
    if lead_ws(s) == s.len() {
        Seq::empty()
    } else {
        s.subrange(lead_ws(s) as int, s.len() - trail_ws(s))
    }
}

pub proof fn lemma_lead_ws(s: Seq<char>, i: int)
    requires
        0 <= i <= s.len(),
        forall|k: int| 0 <= k < i ==> is_ws(#[trigger] s[k]),
        i == s.len() || !is_ws(s[i]),
    ensures
        lead_ws(s) == i,
    decreases i,
{
    if i > 0 {
        lemma_lead_ws(s.drop_first(), i - 1);
    }
}

pub proof fn lemma_trail_ws(s: Seq<char>, j: int)
    requires
        0 <= j <= s.len(),
        forall|k: int| j <= k < s.len() ==> is_ws(#[trigger] s[k]),
        j == 0 || !is_ws(s[j - 1]),
    ensures
        trail_ws(s) == s.len() - j,
    decreases s.len() - j,
{
    if j < s.len() {
        lemma_trail_ws(s.drop_last(), j);
    }
}

pub proof fn lemma_lead_ws_bound(s: Seq<char>)
    ensures
        lead_ws(s) <= s.len(),
        forall|k: int| 0 <= k < lead_ws(s) ==> is_ws(#[trigger] s[k]),
        lead_ws(s) < s.len() ==> !is_ws(s[lead_ws(s) as int]),
    decreases s.len(),
{
    if s.len() > 0 && is_ws(s[0]) {
        lemma_lead_ws_bound(s.drop_first());
        assert forall|k: int| 0 <= k < lead_ws(s) implies is_ws(#[trigger] s[k]) by {
            if k > 0 {
                assert(s[k] == s.drop_first()[k - 1]);
            }
        }
    }
}

/// Indices `(start, end)` such that `s[start..end]` is the trimmed string.
pub fn trim_bounds(s: &Vec<char>) -> (r: (usize, usize))
    ensures
        r.0 <= r.1 <= s.len(),
        s@.subrange(r.0 as int, r.1 as int) == trim(s@),
{
    let n = s.len();
    let mut i: usize = 0;
    while i < n && char_is_ws(s[i])
        invariant
            i <= n,
            n == s.len(),
            forall|k: int| 0 <= k < i ==> is_ws(#[trigger] s@[k]),
        decreases n - i,
    {
        i = i + 1;
    }
    proof {
        lemma_lead_ws(s@, i as int);
    }
    if i == n {
        return (n, n);
    }
    let mut j: usize = n;
    while j > i && char_is_ws(s[j - 1])
        invariant
            i < n,
            i <= j <= n,
            n == s.len(),
            !is_ws(s@[i as int]),
            forall|k: int| j <= k < n ==> is_ws(#[trigger] s@[k]),
        decreases j,
    {
        j = j - 1;
    }
    proof {
        lemma_trail_ws(s@, j as int);
    }
    (i, j)
}

/// Copy of `v[a..b]`.
pub fn sub_vec(v: &Vec<char>, a: usize, b: usize) -> (r: Vec<char>)
    requires
        a <= b <= v.len(),
    ensures
        r@ == v@.subrange(a as int, b as int),
{
    let mut r: Vec<char> = Vec::new();
    let mut k = a;
    while k < b
        invariant
            a <= k <= b,
            b <= v.len(),
            r@ == v@.subrange(a as int, k as int),
        decreases b - k,
    {
        r.push(v[k]);
        k = k + 1;
    }
    r
}

/// The trimmed copy of `s`.
pub fn trim_vec(s: &Vec<char>) -> (r: Vec<char>)
    ensures
        r@ == trim(s@),
{
    let (a, b) = trim_bounds(s);
    sub_vec(s, a, b)
}

// ─── Conversions between strings and characters ─────────────────────────

/// The characters of a string slice.
pub fn str_to_chars(s: &str) -> (v: Vec<char>)
    ensures
        v@ == s@,
{
    let mut v: Vec<char> = Vec::new();
    for c in it: s.chars()
        invariant
            v@ == it.seq().take(it.index() as int),
            it.seq() == s@,
    {
        v.push(c);
    }
    v
}

/// `String` made of the given characters: `FromIterator<&char> for String`.
#[verifier::external_body]
pub(crate) fn chars_to_string(v: &Vec<char>) -> (s: String)
    ensures
        s@ == v@,
{
    v.iter().collect()
}

// ─── Splitting ────────────────────────────────────────────────────────────

/// `str::split` on the separator characters `a` and `b` (equal for a
/// single separator): the pieces between separators, always at least one.
pub open spec fn split(s: Seq<char>, a: char, b: char) -> Seq<Seq<char>>
    decreases s.len(),
{
    if s.len() == 0 {
        seq![Seq::empty()]
    } else {
        let r = split(s.drop_last(), a, b);
        if s.last() == a || s.last() == b {
            r.push(Seq::empty())
        } else {
            r.update(r.len() - 1, r.last().push(s.last()))
        }
    }
}

pub proof fn lemma_split_nonempty(s: Seq<char>, a: char, b: char)
    ensures
        split(s, a, b).len() >= 1,
    decreases s.len(),
{
    if s.len() > 0 {
        lemma_split_nonempty(s.drop_last(), a, b);
    }
}

/// Pieces of `s` between occurrences of the separators `a` and `b`.
pub fn split_chars(s: &Vec<char>, a: char, b: char) -> (r: Vec<Vec<char>>)
    ensures
        r@.len() == split(s@, a, b).len(),
        forall|k: int| 0 <= k < r@.len() ==> #[trigger] r@[k]@ == split(s@, a, b)[k],
{
    let mut done: Vec<Vec<char>> = Vec::new();
    let mut cur: Vec<char> = Vec::new();
    let n = s.len();
    let mut i: usize = 0;
    while i < n
        invariant
            i <= n,
            n == s.len(),
            done@.len() + 1 == split(s@.take(i as int), a, b).len(),
            forall|k: int| 0 <= k < done@.len() ==> #[trigger] done@[k]@ == split(
                s@.take(i as int),
                a,
                b,
            )[k],
            cur@ == split(s@.take(i as int), a, b).last(),
        decreases n - i,
    {
        proof {
            lemma_split_nonempty(s@.take(i as int), a, b);
            assert(s@.take(i + 1).drop_last() == s@.take(i as int));
        }
        let c = s[i];
        if c == a || c == b {
            let old = cur;
            done.push(old);
            cur = Vec::new();
        } else {
            cur.push(c);
        }
        i = i + 1;
    }
    proof {
        assert(s@.take(n as int) == s@);
        lemma_split_nonempty(s@, a, b);
    }
    done.push(cur);
    done
}

// ─── Substring search ─────────────────────────────────────────────────────

/// `p` occurs in `s` at position `i`.
pub open spec fn occurs_at(s: Seq<char>, p: Seq<char>, i: int) -> bool {
    0 <= i && i + p.len() <= s.len() && s.subrange(i, i + p.len()) == p
}

/// `str::contains` for a string pattern.
pub open spec fn seq_contains(s: Seq<char>, p: Seq<char>) -> bool {
    exists|i: int| occurs_at(s, p, i)
}

/// `str::find` for a string pattern: the first position where `p` occurs.
#[verifier::opaque]
pub open spec fn seq_find(s: Seq<char>, p: Seq<char>) -> Option<int> {
    if seq_contains(s, p) {
        Some(choose|i: int| occurs_at(s, p, i) && forall|j: int| 0 <= j < i ==> !occurs_at(s, p, j))
    } else {
        None
    }
}

/// `str::rfind` for a string pattern: the last position where `p` occurs.
pub open spec fn seq_rfind(s: Seq<char>, p: Seq<char>) -> Option<int> {
    if seq_contains(s, p) {
        Some(
            choose|i: int|
                occurs_at(s, p, i) && forall|j: int| i < j <= s.len() ==> !occurs_at(s, p, j),
        )
    } else {
        None
    }
}

fn matches_at(s: &Vec<char>, p: &Vec<char>, i: usize) -> (r: bool)
    requires
        i + p.len() <= s.len(),
    ensures
        r == occurs_at(s@, p@, i as int),
{
    let m = p.len();
    let mut k: usize = 0;
    while k < m
        invariant
            k <= m,
            m == p.len(),
            i + m <= s.len(),
            forall|t: int| 0 <= t < k ==> s@[i + t] == p@[t],
        decreases m - k,
    {
        if s[i + k] != p[k] {
            assert(s@.subrange(i as int, i + m)[k as int] != p@[k as int]);
            return false;
        }
        k = k + 1;
    }
    assert(s@.subrange(i as int, i + m) =~= p@);
    true
}

/// First position where `p` occurs in `s`.
pub fn find_chars(s: &Vec<char>, p: &Vec<char>) -> (r: Option<usize>)
    ensures
        match r {
            Some(i) => seq_find(s@, p@) == Some(i as int) && occurs_at(s@, p@, i as int),
            None => seq_find(s@, p@) is None && !seq_contains(s@, p@),
        },
{
    reveal(seq_find);
    if p.len() > s.len() {
        assert(!seq_contains(s@, p@));
        return None;
    }
    let last = s.len() - p.len();
    let mut i: usize = 0;
    while i < last
        invariant
            last + p.len() == s.len(),
            i <= last,
            forall|j: int| 0 <= j < i ==> !occurs_at(s@, p@, j),
        decreases last - i,
    {
        if matches_at(s, p, i) {
            proof {
                reveal(seq_find);
                let w = choose|w: int|
                    occurs_at(s@, p@, w) && forall|j: int| 0 <= j < w ==> !occurs_at(s@, p@, j);
                assert(occurs_at(s@, p@, w) && forall|j: int| 0 <= j < w ==> !occurs_at(s@, p@, j));
                assert(w == i);
            }
            return Some(i);
        }
        i = i + 1;
    }
    if matches_at(s, p, last) {
        proof {
            let w = choose|w: int|
                occurs_at(s@, p@, w) && forall|j: int| 0 <= j < w ==> !occurs_at(s@, p@, j);
            assert(occurs_at(s@, p@, w) && forall|j: int| 0 <= j < w ==> !occurs_at(s@, p@, j));
            assert(w == last);
        }
        return Some(last);
    }
    assert(!seq_contains(s@, p@));
    None
}

/// Last position where `p` occurs in `s`.
pub fn rfind_chars(s: &Vec<char>, p: &Vec<char>) -> (r: Option<usize>)
    ensures
        match r {
            Some(i) => seq_rfind(s@, p@) == Some(i as int) && occurs_at(s@, p@, i as int),
            None => seq_rfind(s@, p@) is None && !seq_contains(s@, p@),
        },
{
    if p.len() > s.len() {
        assert(!seq_contains(s@, p@));
        return None;
    }
    let mut i: usize = s.len() - p.len();
    while i > 0
        invariant
            i + p.len() <= s.len(),
            forall|j: int| i < j <= s.len() ==> !occurs_at(s@, p@, j),
        decreases i,
    {
        if matches_at(s, p, i) {
            proof {
                let w = choose|w: int|
                    occurs_at(s@, p@, w) && forall|j: int| w < j <= s.len() ==> !occurs_at(
                        s@,
                        p@,
                        j,
                    );
                assert(occurs_at(s@, p@, i as int));
                assert(w == i);
            }
            return Some(i);
        }
        i = i - 1;
    }
    if matches_at(s, p, 0) {
        proof {
            let w = choose|w: int|
                occurs_at(s@, p@, w) && forall|j: int| w < j <= s.len() ==> !occurs_at(s@, p@, j);
            assert(occurs_at(s@, p@, 0));
            assert(w == 0);
        }
        return Some(0);
    }
    assert(!seq_contains(s@, p@));
    None
}

/// Whether `p` occurs in `s`.
pub fn contains_chars(s: &Vec<char>, p: &Vec<char>) -> (r: bool)
    ensures
        r == seq_contains(s@, p@),
{
    match find_chars(s, p) {
        Some(_) => true,
        None => false,
    }
}

/// Whether the string literal `p` occurs in `s`.
pub fn contains_str(s: &Vec<char>, p: &str) -> (r: bool)
    ensures
        r == seq_contains(s@, p@),
{
    let pv = str_to_chars(p);
    contains_chars(s, &pv)
}

/// Whether the string `s` equals the string literal `lit`.
pub fn eq_str(s: &String, lit: &str) -> (r: bool)
    ensures
        r == (s@ == lit@),
{
    let a = str_to_chars(s.as_str());
    let b = str_to_chars(lit);
    eq_chars(&a, &b)
}

/// Whether two string slices are equal.
pub fn str_eq(s: &str, lit: &str) -> (r: bool)
    ensures
        r == (s@ == lit@),
{
    let a = str_to_chars(s);
    let b = str_to_chars(lit);
    eq_chars(&a, &b)
}

/// Whether two character vectors are equal.
pub fn eq_chars(a: &Vec<char>, b: &Vec<char>) -> (r: bool)
    ensures
        r == (a@ == b@),
{
    if a.len() != b.len() {
        return false;
    }
    let n = a.len();
    let mut k: usize = 0;
    while k < n
        invariant
            k <= n,
            n == a.len(),
            n == b.len(),
            forall|t: int| 0 <= t < k ==> a@[t] == b@[t],
        decreases n - k,
    {
        if a[k] != b[k] {
            return false;
        }
        k = k + 1;
    }
    assert(a@ =~= b@);
    true
}

/// Lowercase mapping of `str::to_lowercase` (Unicode case mapping).
pub uninterp spec fn lowercase(s: Seq<char>) -> Seq<char>;

/// `str::to_lowercase`.
#[verifier::external_body]
pub(crate) fn to_lowercase(s: &str) -> (r: String)
    ensures
        r@ == lowercase(s@),
{
    s.to_lowercase()
}

/// Whether `s` begins with `p`.
pub fn starts_with_chars(s: &Vec<char>, p: &Vec<char>) -> (r: bool)
    ensures
        r == (p@.len() <= s@.len() && s@.subrange(0, p@.len() as int) == p@),
{
    if p.len() > s.len() {
        return false;
    }
    matches_at(s, p, 0)
}

// ─── Decimal integers ─────────────────────────────────────────────────────

pub open spec fn is_digit(c: char) -> bool {
    '0' <= c && c <= '9'
}

pub open spec fn digit_val(c: char) -> int {
    c as int - '0' as int
}

pub open spec fn all_digits(s: Seq<char>) -> bool {
    forall|k: int| 0 <= k < s.len() ==> is_digit(#[trigger] s[k])
}

/// Value of a string of decimal digits.
pub open spec fn digits_val(s: Seq<char>) -> int
    decreases s.len(),
{
    if s.len() == 0 {
        0
    } else {
        digits_val(s.drop_last()) * 10 + digit_val(s.last())
    }
}

/// `str::parse::<uN>()` with `max` the type's maximum: an optional `+`, then
/// one or more ASCII digits whose value does not exceed `max`.
pub open spec fn parse_unsigned(s: Seq<char>, max: int) -> Option<int> {
    if s.len() == 0 || (s[0] == '+' && s.len() == 1) {
        None
    } else {
        let d = if s[0] == '+' {
            s.drop_first()
        } else {
            s
        };
        if all_digits(d) && digits_val(d) <= max {
            Some(digits_val(d))
        } else {
            None
        }
    }
}

/// `str::parse::<i32>()`: an optional sign, then one or more ASCII digits
/// whose signed value lies in the range of `i32`.
#[verifier::opaque]
pub open spec fn parse_i32(s: Seq<char>) -> Option<int> {
    if s.len() == 0 || ((s[0] == '+' || s[0] == '-') && s.len() == 1) {
        None
    } else if s[0] == '-' {
        let d = s.drop_first();
        if all_digits(d) && digits_val(d) <= 0x8000_0000 {
            Some(-digits_val(d))
        } else {
            None
        }
    } else {
        let d = if s[0] == '+' {
            s.drop_first()
        } else {
            s
        };
        if all_digits(d) && digits_val(d) <= 0x7fff_ffff {
            Some(digits_val(d))
        } else {
            None
        }
    }
}

pub proof fn lemma_digits_val_nonneg(s: Seq<char>)
    requires
        all_digits(s),
    ensures
        digits_val(s) >= 0,
    decreases s.len(),
{
    if s.len() > 0 {
        assert(all_digits(s.drop_last()));
        lemma_digits_val_nonneg(s.drop_last());
        assert(is_digit(s[s.len() - 1]));
    }
}

/// Once a prefix's value is above `bound`, so is the value of every longer
/// digit string.
pub proof fn lemma_digits_val_monotone(s: Seq<char>, i: int)
    requires
        0 <= i <= s.len(),
        all_digits(s),
    ensures
        digits_val(s.take(i)) <= digits_val(s),
    decreases s.len() - i,
{
    if i < s.len() {
        assert(all_digits(s.drop_last()));
        assert(s.drop_last().take(i) == s.take(i));
        lemma_digits_val_monotone(s.drop_last(), i);
        lemma_digits_val_nonneg(s.drop_last());
        assert(is_digit(s[s.len() - 1]));
    } else {
        assert(s.take(i) == s);
    }
}

/// Parse the digits `s[from..]`; `None` unless all are digits with value at
/// most `max`.
pub fn parse_digits(s: &Vec<char>, from: usize, max: u64) -> (r: Option<u64>)
    requires
        from <= s.len(),
        max >= 9,
    ensures
        match r {
            Some(v) => all_digits(s@.skip(from as int)) && v == digits_val(s@.skip(from as int))
                && v <= max,
            None => !(all_digits(s@.skip(from as int)) && digits_val(s@.skip(from as int))
                <= max),
        },
{
    let n = s.len();
    let mut v: u64 = 0;
    let mut i = from;
    let ghost d = s@.skip(from as int);
    while i < n
        invariant
            from <= i <= n,
            n == s.len(),
            d == s@.skip(from as int),
            all_digits(d.take(i - from)),
            v == digits_val(d.take(i - from)),
            v <= max,
            max >= 9,
        decreases n - i,
    {
        let c = s[i];
        if !('0' <= c && c <= '9') {
            assert(d[i - from] == c);
            return None;
        }
        let dv: u64 = (c as u32 - '0' as u32) as u64;
        proof {
            assert(d.take(i + 1 - from).drop_last() == d.take(i - from));
            assert(d.take(i + 1 - from).last() == c);
            assert(all_digits(d.take(i + 1 - from))) by {
                assert forall|k: int| 0 <= k < d.take(i + 1 - from).len() implies is_digit(
                    #[trigger] d.take(i + 1 - from)[k],
                ) by {
                    if k < i - from {
                        assert(d.take(i + 1 - from)[k] == d.take(i - from)[k]);
                    }
                }
            }
        }
        if v > (max - dv) / 10 {
            proof {
                assert(v * 10 + dv > max) by (nonlinear_arith)
                    requires
                        v > (max - dv) / 10,
                        dv <= 9,
                        max >= 9,
                ;
                assert(digits_val(d.take(i + 1 - from)) == v * 10 + dv);
                if all_digits(d) {
                    lemma_digits_val_monotone(d, i + 1 - from);
                }
            }
            return None;
        }
        proof {
            assert(v * 10 + dv <= max) by (nonlinear_arith)
                requires
                    v <= (max - dv) / 10,
                    dv <= 9,
                    max >= 9,
            ;
        }
        v = v * 10 + dv;
        i = i + 1;
    }
    proof {
        assert(d.take(n - from) == d);
    }
    Some(v)
}

/// `str::parse::<usize>()` on the characters of a string.
pub fn parse_usize(s: &Vec<char>) -> (r: Option<usize>)
    ensures
        match r {
            Some(v) => parse_unsigned(s@, usize::MAX as int) == Some(v as int),
            None => parse_unsigned(s@, usize::MAX as int) is None,
        },
{
    if s.len() == 0 {
        return None;
    }
    if s[0] == '+' && s.len() == 1 {
        return None;
    }
    let from: usize = if s[0] == '+' {
        1
    } else {
        0
    };
    proof {
        assert(s@.skip(0) == s@);
        assert(s@.skip(1) == s@.drop_first());
    }
    match parse_digits(s, from, usize::MAX as u64) {
        Some(v) => Some(v as usize),
        None => None,
    }
}

/// `str::parse::<i32>()` on the characters of a string.
pub fn parse_i32_chars(s: &Vec<char>) -> (r: Option<i32>)
    ensures
        match r {
            Some(v) => parse_i32(s@) == Some(v as int),
            None => parse_i32(s@) is None,
        },
{
    proof {
        reveal(parse_i32);
    }
    if s.len() == 0 {
        return None;
    }
    if (s[0] == '+' || s[0] == '-') && s.len() == 1 {
        return None;
    }
    proof {
        assert(s@.skip(0) == s@);
        assert(s@.skip(1) == s@.drop_first());
    }
    if s[0] == '-' {
        match parse_digits(s, 1, 0x8000_0000) {
            Some(v) => {
                let r: i64 = 0 - (v as i64);
                Some(r as i32)
            },
            None => None,
        }
    } else {
        let from: usize = if s[0] == '+' {
            1
        } else {
            0
        };
        match parse_digits(s, from, 0x7fff_ffff) {
            Some(v) => Some(v as i32),
            None => None,
        }
    }
}

} // verus!
