//! Parsing of the small textual inputs of the library: staff filters
//! ("1,3,5"), melody track filters, and the MIDI options object given as a
//! compact or spaced JSON string.
use vstd::prelude::*;
use crate::midi::{MidiOptions, Energy};
use crate::text::{
    decimal_digits, digit_char, digit_val, all_digits, digits_val, is_ws, lead_ws, trail_ws, trim, split, seq_find, seq_contains, parse_unsigned, parse_i32, is_digit, str_to_chars,
    trim_vec, split_chars, parse_usize, parse_i32_chars, find_chars, contains_str, sub_vec, occurs_at,
};

verus! {

// ─── Staff filter ─────────────────────────────────────────────────────────

/// "1,3,5" (1-based global staff indices) as numbers; `None` when absent,
/// blank, or when any piece is not a `usize`.
pub open spec fn parts_filter(s: Option<Seq<char>>) -> Option<Seq<usize>> {
    match s {
        None => None,
        Some(x) => {
            let t = trim(x);
            let ps = split(t, ',', ',');
            if t.len() == 0 {
                None
            } else if forall|k: int|
                0 <= k < ps.len() ==> parse_unsigned(trim(#[trigger] ps[k]), usize::MAX as int) is Some {
                Some(
                    Seq::new(
                        ps.len(),
                        |k: int| parse_unsigned(trim(ps[k]), usize::MAX as int)->0 as usize,
                    ),
                )
            } else {
                None
            }
        },
    }
}

pub open spec fn opt_str_view(s: Option<&str>) -> Option<Seq<char>> {
    match s {
        Some(x) => Some(x@),
        None => None,
    }
}

pub open spec fn opt_usizes(v: Option<Vec<usize>>) -> Option<Seq<usize>> {
    match v {
        Some(x) => Some(x@),
        None => None,
    }
}

pub open spec fn opt_i32s(v: Option<Vec<i32>>) -> Option<Seq<i32>> {
    match v {
        Some(x) => Some(x@),
        None => None,
    }
}

/// Parse "1,3,5" (comma-separated 1-based global staff indices).
pub fn parse_parts_filter(s: Option<&str>) -> (r: Option<Vec<usize>>)
    ensures
        opt_usizes(r) == parts_filter(opt_str_view(s)),
{
    let text = match s {
        Some(x) => x,
        None => return None,
    };
    let chars = str_to_chars(text);
    let t = trim_vec(&chars);
    if t.len() == 0 {
        return None;
    }
    let pieces = split_chars(&t, ',', ',');
    let ghost ps = split(t@, ',', ',');
    let mut out: Vec<usize> = Vec::new();
    let mut k: usize = 0;
    while k < pieces.len()
        invariant
            k <= pieces@.len(),
            opt_str_view(s) == Some(text@),
            t@ == trim(text@),
            t@.len() > 0,
            ps == split(t@, ',', ','),
            pieces@.len() == ps.len(),
            forall|j: int| 0 <= j < pieces@.len() ==> #[trigger] pieces@[j]@ == ps[j],
            out@.len() == k,
            forall|j: int|
                0 <= j < k ==> parse_unsigned(trim(#[trigger] ps[j]), usize::MAX as int) == Some(
                    out@[j] as int,
                ),
        decreases pieces@.len() - k,
    {
        let p = trim_vec(&pieces[k]);
        match parse_usize(&p) {
            Some(v) => {
                out.push(v);
            },
            None => {
                proof {
                    assert(p@ == trim(ps[k as int]));
                    assert(!(parse_unsigned(trim(ps[k as int]), usize::MAX as int) is Some));
                    assert(!(forall|j: int|
                        0 <= j < ps.len() ==> parse_unsigned(trim(#[trigger] ps[j]), usize::MAX as int) is Some));
                    assert(parts_filter(Some(text@)) is None);
                }
                return None;
            },
        }
        k = k + 1;
    }
    proof {
        let target = Seq::new(
            ps.len(),
            |j: int| parse_unsigned(trim(ps[j]), usize::MAX as int)->0 as usize,
        );
        assert(out@ =~= target);
    }
    Some(out)
}

/// Decimal numerals of the numbers joined by commas, as in "1,3,5".
pub open spec fn joined_decimals(v: Seq<usize>) -> Seq<char>
    decreases v.len(),
{
    if v.len() <= 1 {
        if v.len() == 0 {
            Seq::empty()
        } else {
            decimal_digits(v[0] as nat)
        }
    } else {
        joined_decimals(v.drop_last()) + seq![','] + decimal_digits(v.last() as nat)
    }
}

proof fn lemma_decimal_digits(n: nat)
    ensures
        decimal_digits(n).len() >= 1,
        all_digits(decimal_digits(n)),
        digits_val(decimal_digits(n)) == n,
    decreases n,
{
    let d = decimal_digits(n);
    if n < 10 {
        assert(d.drop_last() =~= Seq::<char>::empty());
        assert(digit_val(digit_char(n)) == n);
        assert(digits_val(d) == digits_val(d.drop_last()) * 10 + digit_val(d.last()));
    } else {
        lemma_decimal_digits(n / 10);
        let p = decimal_digits(n / 10);
        assert(d.drop_last() =~= p);
        assert(digit_val(digit_char(n % 10)) == n % 10);
        assert(d.last() == digit_char(n % 10));
        assert(digits_val(d) == digits_val(p) * 10 + digit_val(d.last()));
        assert((n / 10) * 10 + n % 10 == n);
        assert(all_digits(d)) by {
            assert forall|k: int| 0 <= k < d.len() implies #[trigger] crate::text::is_digit(d[k]) by {
                if k < p.len() {
                    assert(d[k] == p[k]);
                }
            }
        }
    }
}

proof fn lemma_no_sep_digits(s: Seq<char>)
    requires
        all_digits(s),
    ensures
        forall|k: int| 0 <= k < s.len() ==> #[trigger] s[k] != ',' && !is_ws(s[k]) && s[k] != '+',
{
    assert forall|k: int| 0 <= k < s.len() implies #[trigger] s[k] != ',' && !is_ws(s[k]) && s[k] != '+' by {
        assert(crate::text::is_digit(s[k]));
    }
}

/// Splitting a text without separators gives the text itself.
proof fn lemma_split_plain(d: Seq<char>)
    requires
        forall|k: int| 0 <= k < d.len() ==> #[trigger] d[k] != ',',
    ensures
        split(d, ',', ',') == seq![d],
    decreases d.len(),
{
    if d.len() > 0 {
        lemma_split_plain(d.drop_last());
        assert(d.drop_last().push(d.last()) =~= d);
        assert(seq![d.drop_last()].update(0, d.drop_last().push(d.last())) =~= seq![d]);
    } else {
        assert(d =~= Seq::<char>::empty());
    }
}

/// Splitting `s` followed by a separator and a piece without separators
/// gives the pieces of `s` and then that piece.
proof fn lemma_split_append(s: Seq<char>, d: Seq<char>)
    requires
        forall|k: int| 0 <= k < d.len() ==> #[trigger] d[k] != ',',
    ensures
        split(s + seq![','] + d, ',', ',') == split(s, ',', ',').push(d),
    decreases d.len(),
{
    let x = s + seq![','] + d;
    if d.len() == 0 {
        assert(x.drop_last() =~= s);
        assert(d =~= Seq::<char>::empty());
    } else {
        lemma_split_append(s, d.drop_last());
        assert(x.drop_last() =~= s + seq![','] + d.drop_last());
        assert(x.last() == d.last());
        let r = split(s, ',', ',').push(d.drop_last());
        assert(d.drop_last().push(d.last()) =~= d);
        assert(r.update(r.len() - 1, r.last().push(x.last())) =~= split(s, ',', ',').push(d));
    }
}

proof fn lemma_joined_shape(v: Seq<usize>)
    requires
        v.len() >= 1,
    ensures
        joined_decimals(v).len() >= 1,
        crate::text::is_digit(joined_decimals(v)[0]),
        crate::text::is_digit(joined_decimals(v).last()),
        split(joined_decimals(v), ',', ',').len() == v.len(),
        forall|k: int|
            0 <= k < v.len() ==> #[trigger] split(joined_decimals(v), ',', ',')[k] == decimal_digits(
                v[k] as nat,
            ),
    decreases v.len(),
{
    let j = joined_decimals(v);
    let dl = decimal_digits(v.last() as nat);
    lemma_decimal_digits(v.last() as nat);
    lemma_no_sep_digits(dl);
    if v.len() == 1 {
        lemma_split_plain(dl);
    } else {
        let w = v.drop_last();
        lemma_joined_shape(w);
        lemma_split_append(joined_decimals(w), dl);
        assert(j[0] == joined_decimals(w)[0]);
        assert(j.last() == dl.last());
        assert forall|k: int| 0 <= k < v.len() implies #[trigger] split(j, ',', ',')[k] == decimal_digits(
            v[k] as nat,
        ) by {
            if k < w.len() {
                assert(w[k] == v[k]);
            }
        }
    }
}

proof fn lemma_trim_digits(s: Seq<char>)
    requires
        s.len() >= 1,
        !is_ws(s[0]),
        !is_ws(s.last()),
    ensures
        trim(s) == s,
{
    assert(lead_ws(s) == 0);
    assert(trail_ws(s) == 0);
    assert(s.subrange(0, s.len() as int) =~= s);
}

/// Parsing the comma-joined decimal numerals of a non-empty list of staff
/// numbers gives the list back, in order and with repetitions kept.
pub proof fn lemma_parts_filter_roundtrip(v: Seq<usize>)
    requires
        v.len() >= 1,
    ensures
        parts_filter(Some(joined_decimals(v))) == Some(v),
{
    let j = joined_decimals(v);
    lemma_joined_shape(v);
    lemma_trim_digits(j);
    let ps = split(j, ',', ',');
    assert forall|k: int| 0 <= k < ps.len() implies parse_unsigned(trim(#[trigger] ps[k]), usize::MAX as int)
        == Some(v[k] as int) by {
        let d = decimal_digits(v[k] as nat);
        assert(ps[k] == d);
        lemma_decimal_digits(v[k] as nat);
        lemma_no_sep_digits(d);
        lemma_trim_digits(d);
        assert(d[0] != '+');
    }
    assert(forall|k: int| 0 <= k < ps.len() ==> parse_unsigned(trim(#[trigger] ps[k]), usize::MAX as int) is Some);
    let target = Seq::new(ps.len(), |k: int| parse_unsigned(trim(ps[k]), usize::MAX as int)->0 as usize);
    assert(target =~= v);
}

// ─── Melody track filter ─────────────────────────────────────────────────

/// Track numbers of the pieces, in first-occurrence order without
/// duplicates; `None` when a non-blank piece is not a positive `i32`.
pub open spec fn tracks_fold(ps: Seq<Seq<char>>) -> Option<Seq<i32>>
    decreases ps.len(),
{
    if ps.len() == 0 {
        Some(Seq::empty())
    } else {
        match tracks_fold(ps.drop_last()) {
            None => None,
            Some(acc) => {
                let t = trim(ps.last());
                if t.len() == 0 {
                    Some(acc)
                } else {
                    match parse_i32(t) {
                        None => None,
                        Some(n) => if n < 1 {
                            None
                        } else if acc.contains(n as i32) {
                            Some(acc)
                        } else {
                            Some(acc.push(n as i32))
                        },
                    }
                }
            },
        }
    }
}

/// "1,3" (global track numbers) as a duplicate-free list; `None` when
/// absent, blank, invalid, or when no number is given.
pub open spec fn melody_tracks_filter(s: Option<Seq<char>>) -> Option<Seq<i32>> {
    match s {
        None => None,
        Some(x) => {
            let t = trim(x);
            if t.len() == 0 {
                None
            } else {
                match tracks_fold(split(t, ',', ',')) {
                    Some(v) => if v.len() == 0 {
                        None
                    } else {
                        Some(v)
                    },
                    None => None,
                }
            }
        },
    }
}

fn contains_i32(v: &Vec<i32>, x: i32) -> (r: bool)
    ensures
        r == v@.contains(x),
{
    let mut k: usize = 0;
    while k < v.len()
        invariant
            k <= v@.len(),
            forall|j: int| 0 <= j < k ==> v@[j] != x,
        decreases v@.len() - k,
    {
        if v[k] == x {
            assert(v@[k as int] == x);
            return true;
        }
        k = k + 1;
    }
    false
}

/// Parse "1,3" (comma-separated global track numbers): positive integers,
/// duplicates dropped.
pub fn parse_melody_tracks_filter(s: Option<&str>) -> (r: Option<Vec<i32>>)
    ensures
        opt_i32s(r) == melody_tracks_filter(opt_str_view(s)),
{
    let s = match s {
        Some(x) => x,
        None => return None,
    };
    let chars = str_to_chars(s);
    parse_melody_tracks_chars(&chars)
}

fn parse_melody_tracks_chars(chars: &Vec<char>) -> (r: Option<Vec<i32>>)
    ensures
        opt_i32s(r) == melody_tracks_filter(Some(chars@)),
{
    let t = trim_vec(chars);
    if t.len() == 0 {
        return None;
    }
    let pieces = split_chars(&t, ',', ',');
    let ghost ps = split(t@, ',', ',');
    let mut tracks: Vec<i32> = Vec::new();
    let mut k: usize = 0;
    while k < pieces.len()
        invariant
            k <= pieces@.len(),
            t@ == trim(chars@),
            t@.len() > 0,
            ps == split(t@, ',', ','),
            pieces@.len() == ps.len(),
            forall|j: int| 0 <= j < pieces@.len() ==> #[trigger] pieces@[j]@ == ps[j],
            tracks_fold(ps.take(k as int)) == Some(tracks@),
        decreases pieces@.len() - k,
    {
        proof {
            assert(ps.take(k + 1).drop_last() == ps.take(k as int));
            assert(ps.take(k + 1).last() == ps[k as int]);
        }
        let p = trim_vec(&pieces[k]);
        assert(p@ == trim(ps[k as int]));
        if p.len() > 0 {
            match parse_i32_chars(&p) {
                Some(n) => {
                    if n < 1 {
                        proof {
                            assert(tracks_fold(ps.take(k + 1)) is None);
                            lemma_tracks_fold_none(ps, k as int + 1);
                        }
                        return None;
                    }
                    if !contains_i32(&tracks, n) {
                        tracks.push(n);
                    }
                },
                None => {
                    proof {
                        assert(tracks_fold(ps.take(k + 1)) is None);
                        lemma_tracks_fold_none(ps, k as int + 1);
                    }
                    return None;
                },
            }
        }
        k = k + 1;
    }
    proof {
        assert(ps.take(ps.len() as int) == ps);
    }
    if tracks.len() == 0 {
        None
    } else {
        Some(tracks)
    }
}

/// Once the fold fails on a prefix it fails on the whole sequence.
proof fn lemma_tracks_fold_none(ps: Seq<Seq<char>>, k: int)
    requires
        0 <= k <= ps.len(),
        tracks_fold(ps.take(k)) is None,
    ensures
        tracks_fold(ps) is None,
    decreases ps.len() - k,
{
    if k < ps.len() {
        assert(ps.take(k + 1).drop_last() == ps.take(k));
        lemma_tracks_fold_none(ps, k + 1);
    } else {
        assert(ps.take(k) == ps);
    }
}

// ─── MIDI options from JSON ──────────────────────────────────────────────

/// Length of the longest prefix of `s` made of '-' and ASCII digits, or
/// (with `minus` false) of ASCII digits only.
pub open spec fn num_prefix_len(s: Seq<char>, minus: bool) -> nat
    decreases s.len(),
{
    if s.len() == 0 {
        0
    } else if is_digit(s[0]) || (minus && s[0] == '-') {
        1 + num_prefix_len(s.drop_first(), minus)
    } else {
        0
    }
}

/// The signed number right after `key` (after trimming), if it parses.
pub open spec fn number_after(json: Seq<char>, key: Seq<char>, minus: bool) -> Option<Option<int>> {
    match seq_find(json, key) {
        Some(pos) => {
            let after = trim(json.skip(pos + key.len()));
            Some(parse_i32(after.take(num_prefix_len(after, minus) as int)))
        },
        None => None,
    }
}

/// Transposition from `"transpose":N` or `"transpose": N`.
pub open spec fn transpose_value(json: Seq<char>) -> int {
    match number_after(json, "\"transpose\":"@, true) {
        Some(Some(v)) => v,
        Some(None) => 0,
        None => match number_after(json, "\"transpose\": "@, true) {
            Some(Some(v)) => v,
            _ => 0,
        },
    }
}

/// Text between the pattern and the next double quote.
pub open spec fn string_after(json: Seq<char>, pat: Seq<char>) -> Option<Option<Seq<char>>> {
    match seq_find(json, pat) {
        Some(pos) => {
            let after = json.skip(pos + pat.len());
            match seq_find(after, seq!['"']) {
                Some(end) => Some(Some(after.take(end))),
                None => Some(None),
            }
        },
        None => None,
    }
}

/// Value of `"key":"value"` or `"key": "value"`; `None` when absent, or
/// when the first present form has no closing quote.
pub open spec fn json_string_value(json: Seq<char>, key: Seq<char>) -> Option<Seq<char>> {
    let p1 = seq!['"'] + key + seq!['"', ':', '"'];
    let p2 = seq!['"'] + key + seq!['"', ':', ' ', '"'];
    match string_after(json, p1) {
        Some(v) => v,
        None => match string_after(json, p2) {
            Some(v) => v,
            None => None,
        },
    }
}

/// Melody tracks: `"melody_tracks":"1,3"` (empty string = none), or the
/// legacy `"melody_track":N` with N >= 1; otherwise all (`None`).
pub open spec fn melody_tracks_value(json: Seq<char>) -> Option<Seq<i32>> {
    match json_string_value(json, "melody_tracks"@) {
        Some(tr) => if trim(tr).len() == 0 {
            Some(Seq::empty())
        } else {
            melody_tracks_filter(Some(tr))
        },
        None => match number_after(json, "\"melody_track\":"@, false) {
            Some(Some(v)) => if v >= 1 {
                Some(seq![v as i32])
            } else {
                None
            },
            _ => None,
        },
    }
}

pub open spec fn has_either(json: Seq<char>, a: Seq<char>, b: Seq<char>) -> bool {
    seq_contains(json, a) || seq_contains(json, b)
}

/// Leading characters of `s` that are digits (or '-' when `minus`).
fn num_prefix(s: &Vec<char>, minus: bool) -> (r: Vec<char>)
    ensures
        r@ == s@.take(num_prefix_len(s@, minus) as int),
{
    let mut k: usize = 0;
    proof {
        assert(s@.skip(0) == s@);
    }
    while k < s.len() && (('0' <= s[k] && s[k] <= '9') || (minus && s[k] == '-'))
        invariant
            k <= s@.len(),
            num_prefix_len(s@, minus) == k + num_prefix_len(s@.skip(k as int), minus),
        decreases s@.len() - k,
    {
        proof {
            assert(s@.skip(k as int)[0] == s@[k as int]);
            assert(s@.skip(k as int).drop_first() == s@.skip(k + 1));
        }
        k = k + 1;
    }
    proof {
        if k < s@.len() {
            assert(s@.skip(k as int)[0] == s@[k as int]);
        }
    }
    sub_vec(s, 0, k)
}

fn number_after_exec(json: &Vec<char>, key: &str, minus: bool) -> (r: Option<Option<i32>>)
    ensures
        match r {
            Some(Some(v)) => number_after(json@, key@, minus) == Some(Some(v as int)),
            Some(None) => number_after(json@, key@, minus) == Some(None::<int>),
            None => number_after(json@, key@, minus) is None,
        },
{
    let kv = str_to_chars(key);
    match find_chars(json, &kv) {
        Some(pos) => {
            assert(occurs_at(json@, kv@, pos as int));
            let n = json.len();
            let after = sub_vec(json, pos + kv.len(), n);
            assert(after@ == json@.skip(pos + kv@.len()));
            let t = trim_vec(&after);
            let num = num_prefix(&t, minus);
            Some(parse_i32_chars(&num))
        },
        None => None,
    }
}

fn string_after_exec(json: &Vec<char>, pat: &Vec<char>) -> (r: Option<Option<Vec<char>>>)
    ensures
        match r {
            Some(Some(v)) => string_after(json@, pat@) == Some(Some(v@)),
            Some(None) => string_after(json@, pat@) == Some(None::<Seq<char>>),
            None => string_after(json@, pat@) is None,
        },
{
    match find_chars(json, pat) {
        Some(pos) => {
            assert(occurs_at(json@, pat@, pos as int));
            let n = json.len();
            let after = sub_vec(json, pos + pat.len(), n);
            assert(after@ == json@.skip(pos + pat@.len()));
            let quote = vec!['"'];
            assert(quote@ == seq!['"']);
            match find_chars(&after, &quote) {
                Some(end) => Some(Some(sub_vec(&after, 0, end))),
                None => Some(None),
            }
        },
        None => None,
    }
}

/// Value of the JSON string field `key` (compact or spaced form).
pub fn extract_json_string_value(json: &Vec<char>, key: &str) -> (r: Option<Vec<char>>)
    ensures
        match r {
            Some(v) => json_string_value(json@, key@) == Some(v@),
            None => json_string_value(json@, key@) is None,
        },
{
    let kv = str_to_chars(key);
    let mut p1: Vec<char> = vec!['"'];
    let mut p2: Vec<char> = vec!['"'];
    let mut k: usize = 0;
    while k < kv.len()
        invariant
            k <= kv@.len(),
            p1@ == seq!['"'] + kv@.take(k as int),
            p2@ == seq!['"'] + kv@.take(k as int),
        decreases kv@.len() - k,
    {
        p1.push(kv[k]);
        p2.push(kv[k]);
        k = k + 1;
        proof {
            assert(p1@ =~= seq!['"'] + kv@.take(k as int));
            assert(p2@ =~= seq!['"'] + kv@.take(k as int));
        }
    }
    proof {
        assert(kv@.take(kv@.len() as int) == kv@);
    }
    p1.push('"');
    p1.push(':');
    p1.push('"');
    p2.push('"');
    p2.push(':');
    p2.push(' ');
    p2.push('"');
    assert(p1@ =~= seq!['"'] + key@ + seq!['"', ':', '"']);
    assert(p2@ =~= seq!['"'] + key@ + seq!['"', ':', ' ', '"']);
    match string_after_exec(json, &p1) {
        Some(v) => v,
        None => match string_after_exec(json, &p2) {
            Some(v) => v,
            None => None,
        },
    }
}

/// Parse `MidiOptions` from a JSON object string by plain text matching;
/// both compact (`"key":value`) and spaced (`"key": value`) forms are
/// recognised, and everything else keeps its default.
pub fn parse_midi_options_from_json_str(json_str: &str) -> (o: MidiOptions)
    ensures
        ({
            let j = json_str@;
            &&& o.include_melody == !has_either(
                j,
                "\"include_melody\":false"@,
                "\"include_melody\": false"@,
            )
            &&& o.include_piano == has_either(
                j,
                "\"include_piano\":true"@,
                "\"include_piano\": true"@,
            )
            &&& o.include_bass == has_either(
                j,
                "\"include_bass\":true"@,
                "\"include_bass\": true"@,
            )
            &&& o.include_strings == has_either(
                j,
                "\"include_strings\":true"@,
                "\"include_strings\": true"@,
            )
            &&& o.include_drums == has_either(
                j,
                "\"include_drums\":true"@,
                "\"include_drums\": true"@,
            )
            &&& o.include_metronome == !has_either(
                j,
                "\"include_metronome\":false"@,
                "\"include_metronome\": false"@,
            )
            &&& o.energy == (if has_either(j, "\"energy\":\"strong\""@, "\"energy\": \"strong\""@) {
                Energy::Strong
            } else if has_either(j, "\"energy\":\"soft\""@, "\"energy\": \"soft\""@) {
                Energy::Soft
            } else {
                Energy::Medium
            })
            &&& o.melody_channel == 0
            &&& o.transpose == transpose_value(j)
            &&& opt_i32s(o.melody_tracks) == melody_tracks_value(j)
        }),
{
    let j = str_to_chars(json_str);
    let mut opts = MidiOptions::default();
    if contains_str(&j, "\"include_melody\":false") || contains_str(&j, "\"include_melody\": false") {
        opts.include_melody = false;
    }
    if contains_str(&j, "\"include_piano\":true") || contains_str(&j, "\"include_piano\": true") {
        opts.include_piano = true;
    }
    if contains_str(&j, "\"include_bass\":true") || contains_str(&j, "\"include_bass\": true") {
        opts.include_bass = true;
    }
    if contains_str(&j, "\"include_strings\":true") || contains_str(&j, "\"include_strings\": true") {
        opts.include_strings = true;
    }
    if contains_str(&j, "\"include_drums\":true") || contains_str(&j, "\"include_drums\": true") {
        opts.include_drums = true;
    }
    if contains_str(&j, "\"include_metronome\":false") || contains_str(
        &j,
        "\"include_metronome\": false",
    ) {
        opts.include_metronome = false;
    }
    if contains_str(&j, "\"energy\":\"soft\"") || contains_str(&j, "\"energy\": \"soft\"") {
        opts.energy = Energy::Soft;
    }
    if contains_str(&j, "\"energy\":\"strong\"") || contains_str(&j, "\"energy\": \"strong\"") {
        opts.energy = Energy::Strong;
    }
    match number_after_exec(&j, "\"transpose\":", true) {
        Some(Some(v)) => {
            opts.transpose = v;
        },
        Some(None) => {},
        None => match number_after_exec(&j, "\"transpose\": ", true) {
            Some(Some(v)) => {
                opts.transpose = v;
            },
            _ => {},
        },
    }
    match extract_json_string_value(&j, "melody_tracks") {
        Some(tracks) => {
            let t = trim_vec(&tracks);
            if t.len() == 0 {
                opts.melody_tracks = Some(Vec::new());
            } else {
                opts.melody_tracks = parse_melody_tracks_chars(&tracks);
            }
        },
        None => match number_after_exec(&j, "\"melody_track\":", false) {
            Some(Some(v)) => {
                if v >= 1 {
                    opts.melody_tracks = Some(vec![v]);
                }
            },
            _ => {},
        },
    }
    proof {
        if let Some(ref v) = opts.melody_tracks {
            if v@.len() == 1 {
                assert(v@ =~= seq![v@[0]]);
            }
        }
    }
    opts
}

} // verus!
