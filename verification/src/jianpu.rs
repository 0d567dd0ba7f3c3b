//! Jianpu (numbered notation) spelling: a pitch becomes a scale degree
//! 1–7 of the key (movable do), an accidental and octave dots; the key
//! label reads "1 = C", "1 = Am".
use vstd::prelude::*;
use vstd::string::StringExecFns;
use crate::model::{Pitch, midi_of, midi_in_range};
use crate::text::{lowercase, to_lowercase, str_eq};
use crate::transpose::{rem_euclid_i32, semitone_to_fifths, fifths_of_semitone};

verus! {

/// Pitch class of the tonic of a key with `fifths` sharps (negative: flats).
pub open spec fn key_tonic(fifths: int) -> int {
    (7 * fifths) % 12
}

/// Tonic pitch class (0–11) of a key signature.
pub fn key_root_semitone(fifths: i32) -> (pc: i32)
    ensures
        pc == key_tonic(fifths as int),
        0 <= pc < 12,
{
    let x: i64 = 7 * (fifths as i64);
    match x.checked_rem_euclid(12) {
        Some(r) => r as i32,
        None => 0,
    }
}

/// Scale steps above the tonic of a mode named by `lower` (lower-cased):
/// minor, dorian, mixolydian; anything else is major.
pub open spec fn steps_of_mode(lower: Option<Seq<char>>) -> Seq<u8> {
    match lower {
        Some(l) => if l == "minor"@ {
            seq![0u8, 2, 3, 5, 7, 8, 10]
        } else if l == "dorian"@ {
            seq![0u8, 2, 3, 5, 7, 9, 10]
        } else if l == "mixolydian"@ {
            seq![0u8, 2, 4, 5, 7, 9, 10]
        } else {
            seq![0u8, 2, 4, 5, 7, 9, 11]
        },
        None => seq![0u8, 2, 4, 5, 7, 9, 11],
    }
}

/// The lower-cased mode name, if any.
pub open spec fn lower_mode(mode: Option<&str>) -> Option<Seq<char>> {
    match mode {
        Some(m) => Some(lowercase(m@)),
        None => None,
    }
}

/// Scale steps (semitones above the tonic) of a mode (see `steps_of_mode`).
pub fn mode_intervals(mode: Option<&str>) -> (r: [u8; 7])
    ensures
        r@ == steps_of_mode(lower_mode(mode)),
{
    let r: [u8; 7] = match mode {
        Some(m) => {
            let l = to_lowercase(m);
            if str_eq(l.as_str(), "minor") {
                [0, 2, 3, 5, 7, 8, 10]
            } else if str_eq(l.as_str(), "dorian") {
                [0, 2, 3, 5, 7, 9, 10]
            } else if str_eq(l.as_str(), "mixolydian") {
                [0, 2, 4, 5, 7, 9, 10]
            } else {
                [0, 2, 4, 5, 7, 9, 11]
            }
        },
        None => [0, 2, 4, 5, 7, 9, 11],
    };
    assert(r@ =~= steps_of_mode(lower_mode(mode)));
    r
}

/// Pitch classes of the seven degrees of the scale on `tonic`.
pub open spec fn scale_of(tonic: int, lower: Option<Seq<char>>) -> Seq<u8> {
    Seq::new(7, |i: int| ((tonic + steps_of_mode(lower)[i]) % 12) as u8)
}

/// The seven pitch classes (0–11) of the key with tonic `tonic_pc` in a mode.
pub fn build_scale(tonic_pc: i32, mode: Option<&str>) -> (r: [u8; 7])
    ensures
        r@ == scale_of(tonic_pc as int, lower_mode(mode)),
{
    let iv = mode_intervals(mode);
    let t: i64 = tonic_pc as i64;
    let p0 = match (t + iv[0] as i64).checked_rem_euclid(12) { Some(x) => x as u8, None => 0 };
    let p1 = match (t + iv[1] as i64).checked_rem_euclid(12) { Some(x) => x as u8, None => 0 };
    let p2 = match (t + iv[2] as i64).checked_rem_euclid(12) { Some(x) => x as u8, None => 0 };
    let p3 = match (t + iv[3] as i64).checked_rem_euclid(12) { Some(x) => x as u8, None => 0 };
    let p4 = match (t + iv[4] as i64).checked_rem_euclid(12) { Some(x) => x as u8, None => 0 };
    let p5 = match (t + iv[5] as i64).checked_rem_euclid(12) { Some(x) => x as u8, None => 0 };
    let p6 = match (t + iv[6] as i64).checked_rem_euclid(12) { Some(x) => x as u8, None => 0 };
    let r: [u8; 7] = [p0, p1, p2, p3, p4, p5, p6];
    assert(r@ =~= scale_of(tonic_pc as int, lower_mode(mode)));
    r
}

/// A byte read as a signed 8-bit value.
pub open spec fn signed8(x: u8) -> int {
    if x < 128 {
        x as int
    } else {
        x - 256
    }
}

/// Signed distance (-5..=6) from a scale degree's pitch class to a note's.
pub open spec fn degree_offset(note_pc: u8, target: u8) -> int {
    let d = (signed8(note_pc) - signed8(target)) % 12;
    if d <= 6 {
        d
    } else {
        d - 12
    }
}

pub open spec fn abs_int(x: int) -> int {
    if x < 0 {
        -x
    } else {
        x
    }
}

/// The nearest of the first `k` degrees of `scale` to `note_pc`, as
/// (0-based degree, offset): the first one with the smallest |offset|.
pub open spec fn nearest_degree(note_pc: u8, scale: Seq<u8>, k: int) -> (int, int)
    decreases k,
{
    if k <= 0 {
        (0, 127)
    } else {
        let (bd, bo) = nearest_degree(note_pc, scale, k - 1);
        let o = degree_offset(note_pc, scale[k - 1]);
        if abs_int(o) < abs_int(bo) {
            (k - 1, o)
        } else {
            (bd, bo)
        }
    }
}

/// The scale degree (0-based) nearest to a pitch class, with the
/// accidental offset from it (see `nearest_degree`).
pub fn find_scale_degree(note_pc: u8, scale: &[u8; 7]) -> (r: (usize, i8))
    ensures
        (r.0 as int, r.1 as int) == nearest_degree(note_pc, scale@, 7),
{
    let a: i32 = if note_pc < 128 { note_pc as i32 } else { note_pc as i32 - 256 };
    let mut best_degree: usize = 0;
    let mut best_offset: i8 = 127;
    let mut d: usize = 0;
    while d < 7
        invariant
            d <= 7,
            scale@.len() == 7,
            a == signed8(note_pc),
            (best_degree as int, best_offset as int) == nearest_degree(note_pc, scale@, d as int),
            -6 <= best_offset <= 127,
        decreases 7 - d,
    {
        let t = scale[d];
        let b: i32 = if t < 128 { t as i32 } else { t as i32 - 256 };
        let dm = rem_euclid_i32(a - b, 12);
        let offset: i8 = if dm <= 6 { dm as i8 } else { (dm - 12) as i8 };
        let oa: i8 = if offset < 0 { -offset } else { offset };
        let ba: i8 = if best_offset < 0 { -best_offset } else { best_offset };
        if oa < ba {
            best_offset = offset;
            best_degree = d;
        }
        d = d + 1;
    }
    (best_degree, best_offset)
}

/// Accidental written for an offset from a scale degree.
pub open spec fn accidental_of(offset: int) -> Seq<char> {
    if offset == 0 {
        ""@
    } else if offset == 1 {
        "#"@
    } else if offset == -1 {
        "b"@
    } else if offset == 2 {
        "##"@
    } else if offset == -2 {
        "bb"@
    } else {
        "?"@
    }
}

/// Accidental symbol for an offset from a scale degree ("" for none,
/// "?" beyond a double accidental).
pub fn accidental_symbol(offset: i8) -> (s: &'static str)
    ensures
        s@ == accidental_of(offset as int),
{
    if offset == 0 {
        ""
    } else if offset == 1 {
        "#"
    } else if offset == -1 {
        "b"
    } else if offset == 2 {
        "##"
    } else if offset == -2 {
        "bb"
    } else {
        "?"
    }
}

/// Degree (1–7) and accidental of a semitone above the tonic in major:
/// chromatic notes are read as the raised degree below (marked "^"),
/// except the leading tone, read as a lowered 7 ("b").
pub open spec fn major_degree(semi: int) -> (u8, Option<Seq<char>>) {
    let s = semi % 12;
    if s == 0 {
        (1, None)
    } else if s == 1 {
        (1, Some("^"@))
    } else if s == 2 {
        (2, None)
    } else if s == 3 {
        (2, Some("^"@))
    } else if s == 4 {
        (3, None)
    } else if s == 5 {
        (4, None)
    } else if s == 6 {
        (4, Some("^"@))
    } else if s == 7 {
        (5, None)
    } else if s == 8 {
        (5, Some("^"@))
    } else if s == 9 {
        (6, None)
    } else if s == 10 {
        (6, Some("^"@))
    } else {
        (7, Some("b"@))
    }
}

pub open spec fn opt_str(o: Option<&str>) -> Option<Seq<char>> {
    match o {
        Some(s) => Some(s@),
        None => None,
    }
}

/// Degree and accidental of a semitone above the tonic, in major (see `major_degree`).
pub fn semitone_to_degree_acc(semi: i32) -> (r: (u8, Option<&'static str>))
    ensures
        (r.0, opt_str(r.1)) == major_degree(semi as int),
{
    let s = rem_euclid_i32(semi, 12);
    if s == 0 {
        (1, None)
    } else if s == 1 {
        (1, Some("^"))
    } else if s == 2 {
        (2, None)
    } else if s == 3 {
        (2, Some("^"))
    } else if s == 4 {
        (3, None)
    } else if s == 5 {
        (4, None)
    } else if s == 6 {
        (4, Some("^"))
    } else if s == 7 {
        (5, None)
    } else if s == 8 {
        (5, Some("^"))
    } else if s == 9 {
        (6, None)
    } else if s == 10 {
        (6, Some("^"))
    } else {
        (7, Some("b"))
    }
}

/// `a / b` rounded toward zero (Rust's integer division), for `b > 0`.
pub open spec fn div_trunc(a: int, b: int) -> int {
    if a >= 0 {
        a / b
    } else {
        -((-a) / b)
    }
}

/// Octave dots of a MIDI note: octaves above (positive) or below the
/// octave of middle C, clamped to -2..=2.
pub open spec fn octave_dots_of(midi: int) -> int {
    let rel = div_trunc(midi, 12) - 5;
    if rel < -2 {
        -2
    } else if rel > 2 {
        2
    } else {
        rel
    }
}

/// Jianpu degree and accidental of a pitch class in a key: with a mode,
/// the nearest degree of the mode's scale and its offset; without one,
/// the major reading of the semitones above the tonic.
pub open spec fn jianpu_degree(pc: u8, fifths: int, mode: Option<Seq<char>>) -> (u8, Option<Seq<char>>) {
    let root = key_tonic(fifths);
    match mode {
        Some(_) => {
            let (di, off) = nearest_degree(pc, scale_of(root, mode), 7);
            let acc = accidental_of(off);
            ((di + 1) as u8, if acc.len() == 0 { None } else { Some(acc) })
        },
        None => major_degree(pc - root),
    }
}

/// Jianpu digit (1–7), octave dots (-2..=2) and accidental of a pitch in a
/// key (see `jianpu_degree` and `octave_dots_of`).
pub fn pitch_to_jianpu(pitch: &Pitch, key_fifths: i32, key_mode: Option<&str>) -> (r: (
    u8,
    i32,
    Option<&'static str>,
))
    requires
        midi_in_range(*pitch),
    ensures
        (r.0, opt_str(r.2)) == jianpu_degree(
            (midi_of(*pitch) % 12) as u8,
            key_fifths as int,
            lower_mode(key_mode),
        ),
        r.1 == octave_dots_of(midi_of(*pitch)),
        1 <= r.0 <= 7,
        -2 <= r.1 <= 2,
{
    let midi = pitch.to_midi();
    let pitch_class = rem_euclid_i32(midi, 12) as u8;
    let root = key_root_semitone(key_fifths);
    let (degree, accidental) = match key_mode {
        Some(_) => {
            let scale = build_scale(root, key_mode);
            let (degree_index, offset) = find_scale_degree(pitch_class, &scale);
            let acc = accidental_symbol(offset);
            let acc_opt = if acc.unicode_len() == 0 { None } else { Some(acc) };
            proof {
                assert(degree_index < 7) by {
                    lemma_nearest_degree_bound(pitch_class, scale@, 7);
                }
            }
            ((degree_index + 1) as u8, acc_opt)
        },
        None => {
            let semi = rem_euclid_i32(pitch_class as i32 - root, 12);
            proof {
                assert((semi as int) % 12 == (pitch_class - root) % 12);
            }
            semitone_to_degree_acc(semi)
        },
    };
    let q: i32 = if midi >= 0 { midi / 12 } else { -((-(midi as i64) / 12) as i32) };
    let rel = q - 5;
    let dots = if rel < -2 {
        -2
    } else if rel > 2 {
        2
    } else {
        rel
    };
    (degree, dots, accidental)
}

proof fn lemma_nearest_degree_bound(note_pc: u8, scale: Seq<u8>, k: int)
    requires
        k >= 1,
    ensures
        0 <= nearest_degree(note_pc, scale, k).0 < k,
    decreases k,
{
    if k > 1 {
        lemma_nearest_degree_bound(note_pc, scale, k - 1);
    } else {
        assert(nearest_degree(note_pc, scale, 0) == (0int, 127int));
    }
}

/// Name of a tonic pitch class in key labels.
pub open spec fn tonic_name(pc: int) -> Seq<char> {
    let p = pc % 12;
    if p == 0 {
        "C"@
    } else if p == 1 {
        "C#"@
    } else if p == 2 {
        "D"@
    } else if p == 3 {
        "Eb"@
    } else if p == 4 {
        "E"@
    } else if p == 5 {
        "F"@
    } else if p == 6 {
        "F#"@
    } else if p == 7 {
        "G"@
    } else if p == 8 {
        "Ab"@
    } else if p == 9 {
        "A"@
    } else if p == 10 {
        "Bb"@
    } else {
        "B"@
    }
}

/// Suffix of a key label for a (lower-cased) mode.
pub open spec fn mode_suffix(lower: Option<Seq<char>>) -> Seq<char> {
    match lower {
        Some(l) => if l == "minor"@ {
            "m"@
        } else if l == "dorian"@ {
            " (Dorian)"@
        } else if l == "mixolydian"@ {
            " (Mixolydian)"@
        } else {
            ""@
        },
        None => ""@,
    }
}

fn tonic_name_str(pc: i32) -> (s: &'static str)
    requires
        0 <= pc < 12,
    ensures
        s@ == tonic_name(pc as int),
{
    if pc == 0 {
        "C"
    } else if pc == 1 {
        "C#"
    } else if pc == 2 {
        "D"
    } else if pc == 3 {
        "Eb"
    } else if pc == 4 {
        "E"
    } else if pc == 5 {
        "F"
    } else if pc == 6 {
        "F#"
    } else if pc == 7 {
        "G"
    } else if pc == 8 {
        "Ab"
    } else if pc == 9 {
        "A"
    } else if pc == 10 {
        "Bb"
    } else {
        "B"
    }
}

/// Key label of jianpu: "1 = " with the tonic's name and the mode's suffix,
/// e.g. "1 = G", "1 = Am", "1 = D (Dorian)".
pub fn key_label_text(key_fifths: i32, key_mode: Option<&str>) -> (s: String)
    ensures
        s@ == "1 = "@ + tonic_name(key_tonic(key_fifths as int)) + mode_suffix(lower_mode(key_mode)),
{
    let tonic = key_root_semitone(key_fifths);
    let suffix: &str = match key_mode {
        Some(m) => {
            let l = to_lowercase(m);
            if str_eq(l.as_str(), "minor") {
                "m"
            } else if str_eq(l.as_str(), "dorian") {
                " (Dorian)"
            } else if str_eq(l.as_str(), "mixolydian") {
                " (Mixolydian)"
            } else {
                ""
            }
        },
        None => "",
    };
    let mut s = String::from_str("1 = ");
    s.append(tonic_name_str(tonic));
    s.append(suffix);
    s
}

/// Concert key (fifths) of a part displayed in key `display_fifths` and
/// transposed by `transpose` semitones: unchanged without transposition,
/// otherwise the simplest key whose tonic lies `transpose` semitones
/// below the displayed tonic.
pub open spec fn concert_key(display_fifths: int, transpose: int) -> int {
    if transpose == 0 {
        display_fifths
    } else {
        fifths_of_semitone(key_tonic(display_fifths) - transpose)
    }
}

/// Concert key of a transposed display key (see `concert_key`).
pub fn concert_key_fifths_for_degree(display_fifths: i32, transpose: i32) -> (f: i32)
    ensures
        f == concert_key(display_fifths as int, transpose as int),
{
    if transpose == 0 {
        return display_fifths;
    }
    let root = key_root_semitone(display_fifths);
    let d: i64 = root as i64 - transpose as i64;
    let pc: i32 = match d.checked_rem_euclid(12) {
        Some(x) => x as i32,
        None => 0,
    };
    proof {
        assert((pc as int) % 12 == (root - transpose) % 12);
    }
    semitone_to_fifths(pc)
}

/// The key that `semitone_to_fifths` picks for a pitch class has that
/// pitch class as its tonic.
pub proof fn lemma_fifths_of_semitone_tonic(semi: int)
    ensures
        key_tonic(fifths_of_semitone(semi)) == semi % 12,
{
}

/// A transposed display key's concert key has its tonic `transpose`
/// semitones below the displayed tonic.
pub proof fn lemma_concert_key_tonic(display_fifths: int, transpose: int)
    ensures
        key_tonic(concert_key(display_fifths, transpose)) == (key_tonic(display_fifths) - transpose) % 12,
{
    if transpose != 0 {
        lemma_fifths_of_semitone_tonic(key_tonic(display_fifths) - transpose);
    }
}

/// The semitones above the tonic of the degrees 1 to 6 of the major scale.
pub open spec fn major_scale_steps() -> Seq<int> {
    seq![0int, 2, 4, 5, 7, 9]
}

/// A pitch on degrees 1 to 6 of the major scale of the key is read as that
/// degree with no accidental, in every octave.
pub proof fn lemma_scale_degree_plain(semi: int, i: int)
    requires
        0 <= i < 6,
        semi % 12 == major_scale_steps()[i],
    ensures
        major_degree(semi) == ((i + 1) as u8, None::<Seq<char>>),
{
    let d = major_scale_steps();
    assert(d[0] == 0 && d[1] == 2 && d[2] == 4 && d[3] == 5 && d[4] == 7 && d[5] == 9);
}

/// A pitch between two degrees of the major scale below the leading tone
/// is read as the raised lower degree: the degree of the semitone below,
/// marked "^".
pub proof fn lemma_chromatic_degree_raised(semi: int)
    requires
        semi % 12 == 1 || semi % 12 == 3 || semi % 12 == 6 || semi % 12 == 8 || semi % 12 == 10,
    ensures
        major_degree(semi).0 == major_degree(semi - 1).0,
        major_degree(semi - 1).1 is None,
        major_degree(semi).1 == Some("^"@),
{
    assert((semi - 1) % 12 == semi % 12 - 1);
}

} // verus!
