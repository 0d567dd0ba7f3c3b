//! Chromatic transposition of a whole score: note pitches, key signatures
//! and chord symbols move by a number of semitones, with sharp or flat
//! spelling chosen from the (transposed) key in effect.
use vstd::prelude::*;
use crate::model::{Score, Part, Measure, Attributes, Key, Note, Pitch, Harmony, HarmonyRoot, step_semitone, alter_trunc, midi_of, midi_in_range, step_to_semitone, alter_to_semitones};
use crate::text::chars_to_string;

verus! {

/// `x.rem_euclid(m)` for a positive modulus.
pub fn rem_euclid_i32(x: i32, m: i32) -> (r: i32)
    requires
        m > 0,
    ensures
        r == x % m,
        0 <= r < m,
{
    match x.checked_rem_euclid(m) {
        Some(r) => r,
        None => 0,
    }
}

/// `x.div_euclid(m)` for a positive modulus.
pub fn div_euclid_i32(x: i32, m: i32) -> (r: i32)
    requires
        m > 0,
    ensures
        r == x / m,
{
    proof {
        assert(i32::MIN <= x / m <= i32::MAX) by (nonlinear_arith)
            requires
                m > 0,
                i32::MIN <= x <= i32::MAX,
        ;
    }
    match x.checked_div_euclid(m) {
        Some(r) => r,
        None => 0,
    }
}

/// Simplest key signature (fifths) whose tonic is the pitch class `semi % 12`.
pub open spec fn fifths_of_semitone(semi: int) -> int {
    let pc = semi % 12;
    if pc == 0 {
        0
    } else if pc == 1 {
        -5
    } else if pc == 2 {
        2
    } else if pc == 3 {
        -3
    } else if pc == 4 {
        4
    } else if pc == 5 {
        -1
    } else if pc == 6 {
        -6
    } else if pc == 7 {
        1
    } else if pc == 8 {
        -4
    } else if pc == 9 {
        3
    } else if pc == 10 {
        -2
    } else {
        5
    }
}

/// Map a semitone (taken modulo 12) to the simplest key-signature fifths value.
pub fn semitone_to_fifths(semi: i32) -> (r: i32)
    ensures
        r == fifths_of_semitone(semi as int),
        -6 <= r <= 5,
{
    let pc = rem_euclid_i32(semi, 12);
    if pc == 0 {
        0
    } else if pc == 1 {
        -5
    } else if pc == 2 {
        2
    } else if pc == 3 {
        -3
    } else if pc == 4 {
        4
    } else if pc == 5 {
        -1
    } else if pc == 6 {
        -6
    } else if pc == 7 {
        1
    } else if pc == 8 {
        -4
    } else if pc == 9 {
        3
    } else if pc == 10 {
        -2
    } else {
        5
    }
}

/// Step letter spelling pitch class `pc` (0–11), with sharps or with flats.
pub open spec fn spelled_step(pc: int, use_sharps: bool) -> char {
    if use_sharps {
        if pc <= 1 {
            'C'
        } else if pc <= 3 {
            'D'
        } else if pc == 4 {
            'E'
        } else if pc <= 6 {
            'F'
        } else if pc <= 8 {
            'G'
        } else if pc <= 10 {
            'A'
        } else {
            'B'
        }
    } else {
        if pc == 0 {
            'C'
        } else if pc <= 2 {
            'D'
        } else if pc <= 4 {
            'E'
        } else if pc == 5 {
            'F'
        } else if pc <= 7 {
            'G'
        } else if pc <= 9 {
            'A'
        } else {
            'B'
        }
    }
}

/// Alteration (in semitones: -1, 0 or 1) spelling pitch class `pc` (0–11).
pub open spec fn spelled_alter(pc: int, use_sharps: bool) -> int {
    let black = pc == 1 || pc == 3 || pc == 6 || pc == 8 || pc == 10;
    if !black {
        0
    } else if use_sharps {
        1
    } else {
        -1
    }
}

/// The spelling's alteration as an optional value in cents.
pub open spec fn spelled_cents(pc: int, use_sharps: bool) -> Option<i32> {
    if spelled_alter(pc, use_sharps) == 0 {
        None
    } else {
        Some((spelled_alter(pc, use_sharps) * 100) as i32)
    }
}

/// A spelling names the pitch class it spells.
pub proof fn lemma_spelling(pc: int, use_sharps: bool)
    requires
        0 <= pc < 12,
    ensures
        (step_semitone(seq![spelled_step(pc, use_sharps)]) + spelled_alter(pc, use_sharps)) == pc,
        alter_trunc(spelled_cents(pc, use_sharps)) == spelled_alter(pc, use_sharps),
{
    let c = spelled_step(pc, use_sharps);
    assert(seq![c] == seq![c]);
    if c == 'C' {
        assert(seq![c] == seq!['C']);
    } else if c == 'D' {
        assert(seq![c] == seq!['D']);
        assert(seq![c] != seq!['C']) by { assert(seq![c][0] != seq!['C'][0]); }
    } else if c == 'E' {
        assert(seq![c] == seq!['E']);
        assert(seq![c] != seq!['C']) by { assert(seq![c][0] != seq!['C'][0]); }
        assert(seq![c] != seq!['D']) by { assert(seq![c][0] != seq!['D'][0]); }
    } else if c == 'F' {
        assert(seq![c] == seq!['F']);
        assert(seq![c] != seq!['C']) by { assert(seq![c][0] != seq!['C'][0]); }
        assert(seq![c] != seq!['D']) by { assert(seq![c][0] != seq!['D'][0]); }
        assert(seq![c] != seq!['E']) by { assert(seq![c][0] != seq!['E'][0]); }
    } else if c == 'G' {
        assert(seq![c] == seq!['G']);
        assert(seq![c] != seq!['C']) by { assert(seq![c][0] != seq!['C'][0]); }
        assert(seq![c] != seq!['D']) by { assert(seq![c][0] != seq!['D'][0]); }
        assert(seq![c] != seq!['E']) by { assert(seq![c][0] != seq!['E'][0]); }
        assert(seq![c] != seq!['F']) by { assert(seq![c][0] != seq!['F'][0]); }
    } else if c == 'A' {
        assert(seq![c] == seq!['A']);
        assert(seq![c] != seq!['C']) by { assert(seq![c][0] != seq!['C'][0]); }
        assert(seq![c] != seq!['D']) by { assert(seq![c][0] != seq!['D'][0]); }
        assert(seq![c] != seq!['E']) by { assert(seq![c][0] != seq!['E'][0]); }
        assert(seq![c] != seq!['F']) by { assert(seq![c][0] != seq!['F'][0]); }
        assert(seq![c] != seq!['G']) by { assert(seq![c][0] != seq!['G'][0]); }
    } else {
        assert(seq![c] == seq!['B']);
        assert(seq![c] != seq!['C']) by { assert(seq![c][0] != seq!['C'][0]); }
        assert(seq![c] != seq!['D']) by { assert(seq![c][0] != seq!['D'][0]); }
        assert(seq![c] != seq!['E']) by { assert(seq![c][0] != seq!['E'][0]); }
        assert(seq![c] != seq!['F']) by { assert(seq![c][0] != seq!['F'][0]); }
        assert(seq![c] != seq!['G']) by { assert(seq![c][0] != seq!['G'][0]); }
        assert(seq![c] != seq!['A']) by { assert(seq![c][0] != seq!['A'][0]); }
    }
}

/// Spell a pitch class (taken modulo 12) as a step letter and an alteration
/// in semitones, with sharps or with flats.
pub fn semitone_to_note(pc: i32, use_sharps: bool) -> (r: (char, i32))
    ensures
        r.0 == spelled_step(pc as int % 12, use_sharps),
        r.1 == spelled_alter(pc as int % 12, use_sharps),
{
    let pc = rem_euclid_i32(pc, 12);
    let black = pc == 1 || pc == 3 || pc == 6 || pc == 8 || pc == 10;
    let alter: i32 = if !black {
        0
    } else if use_sharps {
        1
    } else {
        -1
    };
    let step = if use_sharps {
        if pc <= 1 {
            'C'
        } else if pc <= 3 {
            'D'
        } else if pc == 4 {
            'E'
        } else if pc <= 6 {
            'F'
        } else if pc <= 8 {
            'G'
        } else if pc <= 10 {
            'A'
        } else {
            'B'
        }
    } else {
        if pc == 0 {
            'C'
        } else if pc <= 2 {
            'D'
        } else if pc <= 4 {
            'E'
        } else if pc == 5 {
            'F'
        } else if pc <= 7 {
            'G'
        } else if pc <= 9 {
            'A'
        } else {
            'B'
        }
    };
    (step, alter)
}

/// A one-character string.
pub fn string_of_char(c: char) -> (s: String)
    ensures
        s@ == seq![c],
{
    let v = vec![c];
    chars_to_string(&v)
}

// ─── Transposition relations ─────────────────────────────────────────────

/// `new` is `old` moved by `s` semitones and spelled with sharps or flats.
pub open spec fn pitch_transposed(old: Pitch, new: Pitch, s: int, use_sharps: bool) -> bool {
    let m = midi_of(old) + s;
    &&& new.step@ == seq![spelled_step(m % 12, use_sharps)]
    &&& new.octave == m / 12 - 1
    &&& new.alter_cents == spelled_cents(m % 12, use_sharps)
}

/// Law: a transposed pitch sounds exactly `s` semitones away.
pub proof fn lemma_pitch_transposed_midi(old: Pitch, new: Pitch, s: int, use_sharps: bool)
    requires
        pitch_transposed(old, new, s, use_sharps),
    ensures
        midi_of(new) == midi_of(old) + s,
{
    let m = midi_of(old) + s;
    lemma_spelling(m % 12, use_sharps);
}

/// Pitch class of a chord root or bass: `(step + alter) mod 12`.
pub open spec fn root_pitch_class(r: HarmonyRoot) -> int {
    (step_semitone(r.step@) + alter_trunc(r.alter_cents)) % 12
}

/// `new` is the chord root `old` moved by `s` semitones.
pub open spec fn root_transposed(old: HarmonyRoot, new: HarmonyRoot, s: int, use_sharps: bool) -> bool {
    let pc = (root_pitch_class(old) + s) % 12;
    &&& new.step@ == seq![spelled_step(pc, use_sharps)]
    &&& new.alter_cents == spelled_cents(pc, use_sharps)
}

/// Law: a transposed chord root names the pitch class `s` semitones away.
pub proof fn lemma_root_transposed_pitch_class(old: HarmonyRoot, new: HarmonyRoot, s: int, use_sharps: bool)
    requires
        root_transposed(old, new, s, use_sharps),
    ensures
        root_pitch_class(new) == (root_pitch_class(old) + s) % 12,
{
    let pc = (root_pitch_class(old) + s) % 12;
    lemma_spelling(pc, use_sharps);
}

pub open spec fn harmony_transposed(old: Harmony, new: Harmony, s: int, use_sharps: bool) -> bool {
    &&& new.kind == old.kind
    &&& new.offset_divisions == old.offset_divisions
    &&& root_transposed(old.root, new.root, s, use_sharps)
    &&& match old.bass {
        Some(b) => new.bass is Some && root_transposed(b, new.bass->0, s, use_sharps),
        None => new.bass is None,
    }
}

pub open spec fn note_transposed(old: Note, new: Note, s: int, use_sharps: bool) -> bool {
    &&& match old.pitch {
        Some(p) => new.pitch is Some && pitch_transposed(p, new.pitch->0, s, use_sharps),
        None => new.pitch is None,
    }
    &&& new == Note { pitch: new.pitch, ..old }
}

/// Fifths of the key that a key signature of `fifths` becomes after
/// moving its tonic by `s` semitones.
pub open spec fn transposed_fifths(fifths: int, s: int) -> int {
    fifths_of_semitone((fifths * 7) % 12 + s)
}

pub open spec fn attributes_transposed(old: Option<Attributes>, new: Option<Attributes>, s: int) -> bool {
    match old {
        None => new is None,
        Some(a) => new is Some && {
            let b = new->0;
            &&& b == Attributes { key: b.key, ..a }
            &&& match a.key {
                Some(k) => b.key == Some(
                    Key { fifths: transposed_fifths(k.fifths as int, s) as i32, mode: k.mode },
                ),
                None => b.key is None,
            }
        },
    }
}

/// Fifths of the key signature that a measure sets, if it sets one.
pub open spec fn measure_key(m: Measure) -> Option<i32> {
    measure_key_of(m.attributes)
}

/// Fifths of the key signature in optional attributes.
pub open spec fn measure_key_of(a: Option<Attributes>) -> Option<i32> {
    match a {
        Some(a) => match a.key {
            Some(k) => Some(k.fifths),
            None => None,
        },
        None => None,
    }
}

/// Key in effect before measure `i`: the last key set in `ms[..i]`, or C major.
pub open spec fn key_context(ms: Seq<Measure>, i: int) -> int
    decreases i,
{
    if i <= 0 {
        0
    } else {
        match measure_key(ms[i - 1]) {
            Some(f) => f as int,
            None => key_context(ms, i - 1),
        }
    }
}

/// Key in effect within a measure, given the key in effect before it.
pub open spec fn key_within(m: Measure, before: int) -> int {
    match measure_key(m) {
        Some(f) => f as int,
        None => before,
    }
}

pub open spec fn measure_transposed(old: Measure, new: Measure, s: int, before: int) -> bool {
    let use_sharps = key_within(new, before) >= 0;
    &&& attributes_transposed(old.attributes, new.attributes, s)
    &&& new.notes@.len() == old.notes@.len()
    &&& forall|k: int|
        0 <= k < old.notes@.len() ==> note_transposed(
            old.notes@[k],
            #[trigger] new.notes@[k],
            s,
            use_sharps,
        )
    &&& new.harmonies@.len() == old.harmonies@.len()
    &&& forall|k: int|
        0 <= k < old.harmonies@.len() ==> harmony_transposed(
            old.harmonies@[k],
            #[trigger] new.harmonies@[k],
            s,
            use_sharps,
        )
    &&& new == Measure {
        attributes: new.attributes,
        notes: new.notes,
        harmonies: new.harmonies,
        ..old
    }
}

pub open spec fn part_transposed(old: Part, new: Part, s: int) -> bool {
    &&& new.measures@.len() == old.measures@.len()
    &&& forall|j: int|
        0 <= j < old.measures@.len() ==> measure_transposed(
            old.measures@[j],
            #[trigger] new.measures@[j],
            s,
            key_context(new.measures@, j),
        )
    &&& new == Part { measures: new.measures, ..old }
}

/// The exact effect of `transpose_score`.
pub open spec fn score_transposed(old: Score, new: Score, s: int) -> bool {
    if s == 0 {
        new == old
    } else {
        &&& new.parts@.len() == old.parts@.len()
        &&& forall|i: int|
            0 <= i < old.parts@.len() ==> part_transposed(old.parts@[i], #[trigger] new.parts@[i], s)
        &&& new == Score { parts: new.parts, ..old }
    }
}

/// `fifths * 7` of the key signature, if any, fits in `i32`.
pub open spec fn key_transposable(a: Option<Attributes>) -> bool {
    match measure_key_of(a) {
        Some(f) => i32::MIN <= f * 7 <= i32::MAX,
        None => true,
    }
}

/// Moving the note's pitch by `s` stays within `i32`.
pub open spec fn note_transposable(n: Note, s: int) -> bool {
    match n.pitch {
        Some(p) => midi_in_range(p) && i32::MIN <= midi_of(p) + s <= i32::MAX,
        None => true,
    }
}

/// Transposing by `s` keeps every intermediate value within `i32`.
pub open spec fn measure_transposable(m: Measure, s: int) -> bool {
    &&& key_transposable(m.attributes)
    &&& forall|k: int|
        0 <= k < m.notes@.len() ==> note_transposable(#[trigger] m.notes@[k], s)
}

pub open spec fn part_transposable(p: Part, s: int) -> bool {
    forall|j: int| 0 <= j < p.measures@.len() ==> measure_transposable(#[trigger] p.measures@[j], s)
}

/// `transpose_score(score, s)` does not overflow.
pub open spec fn score_transposable(score: Score, s: int) -> bool {
    s != 0 ==> {
        &&& s + 11 <= i32::MAX
        &&& forall|i: int| 0 <= i < score.parts@.len() ==> part_transposable(#[trigger] score.parts@[i], s)
    }
}

// ─── Implementation ──────────────────────────────────────────────────────

/// The pitch `p` moved by `s` semitones, spelled with sharps or flats.
pub fn transpose_pitch(p: &Pitch, s: i32, use_sharps: bool) -> (q: Pitch)
    requires
        midi_in_range(*p),
        i32::MIN <= midi_of(*p) + s <= i32::MAX,
    ensures
        pitch_transposed(*p, q, s as int, use_sharps),
{
    let midi = p.to_midi() + s;
    let octave = div_euclid_i32(midi, 12) - 1;
    let pc = rem_euclid_i32(midi, 12);
    let (step, alter) = semitone_to_note(pc, use_sharps);
    assert(pc % 12 == pc);
    Pitch {
        step: string_of_char(step),
        octave,
        alter_cents: if alter != 0 {
            Some(alter * 100)
        } else {
            None
        },
    }
}

/// Transpose a harmony root or bass note.
pub fn transpose_harmony_root(root: &mut HarmonyRoot, semitones: i32, use_sharps: bool)
    requires
        semitones + 11 <= i32::MAX,
    ensures
        root_transposed(*old(root), *final(root), semitones as int, use_sharps),
{
    let step_semi = step_to_semitone(&root.step);
    let alter = alter_to_semitones(root.alter_cents);
    let old_pc = rem_euclid_i32(step_semi + alter, 12);
    let new_pc = rem_euclid_i32(old_pc + semitones, 12);
    let (step, alter_s) = semitone_to_note(new_pc, use_sharps);
    proof {
        assert(new_pc % 12 == new_pc);
        assert((old_pc + semitones) % 12 == (root_pitch_class(*old(root)) + semitones) % 12) by {
            vstd::arithmetic::div_mod::lemma_add_mod_noop(
                step_semi + alter,
                semitones as int,
                12,
            );
            vstd::arithmetic::div_mod::lemma_mod_twice(old_pc + semitones, 12);
        }
    }
    root.step = string_of_char(step);
    root.alter_cents = if alter_s != 0 {
        Some(alter_s * 100)
    } else {
        None
    };
}

fn transpose_harmony(h: &mut Harmony, s: i32, use_sharps: bool)
    requires
        s + 11 <= i32::MAX,
    ensures
        harmony_transposed(*old(h), *final(h), s as int, use_sharps),
{
    transpose_harmony_root(&mut h.root, s, use_sharps);
    match h.bass {
        Some(ref mut b) => {
            transpose_harmony_root(b, s, use_sharps);
        },
        None => {},
    }
}

fn transpose_note(note: &mut Note, s: i32, use_sharps: bool)
    requires
        note_transposable(*old(note), s as int),
    ensures
        note_transposed(*old(note), *final(note), s as int, use_sharps),
{
    match note.pitch {
        Some(ref p) => {
            let q = transpose_pitch(p, s, use_sharps);
            note.pitch = Some(q);
        },
        None => {},
    }
}

/// Transpose the key signature of a measure, if it has one.
fn transpose_key(attributes: &mut Option<Attributes>, s: i32)
    requires
        s + 11 <= i32::MAX,
        key_transposable(*old(attributes)),
    ensures
        attributes_transposed(*old(attributes), *final(attributes), s as int),
{
    match attributes {
        Some(ref mut attrs) => {
            match attrs.key {
                Some(ref mut key) => {
                    let old_root = rem_euclid_i32(key.fifths * 7, 12);
                    let new_root = rem_euclid_i32(old_root + s, 12);
                    proof {
                        vstd::arithmetic::div_mod::lemma_mod_twice(old_root + s, 12);
                    }
                    key.fifths = semitone_to_fifths(new_root);
                },
                None => {},
            }
        },
        None => {},
    }
}

fn transpose_measure(m: &mut Measure, s: i32, before: i32) -> (after: i32)
    requires
        s + 11 <= i32::MAX,
        measure_transposable(*old(m), s as int),
    ensures
        measure_transposed(*old(m), *final(m), s as int, before as int),
        after == key_within(*final(m), before as int),
{
    transpose_key(&mut m.attributes, s);
    let current_fifths: i32 = match m.attributes {
        Some(ref a) => match a.key {
            Some(ref k) => k.fifths,
            None => before,
        },
        None => before,
    };
    let use_sharps = current_fifths >= 0;

    let mut notes: Vec<Note> = Vec::new();
    std::mem::swap(&mut notes, &mut m.notes);
    let ghost old_notes = notes@;
    let mut out: Vec<Note> = Vec::new();
    for note in it: notes.into_iter()
        invariant
            it.seq() == old_notes,
            out@.len() == it.index(),
            forall|t: int|
                0 <= t < it.index() ==> note_transposed(
                    old_notes[t],
                    #[trigger] out@[t],
                    s as int,
                    use_sharps,
                ),
            forall|t: int|
                0 <= t < old_notes.len() ==> note_transposable(#[trigger] old_notes[t], s as int),
    {
        let mut note = note;
        transpose_note(&mut note, s, use_sharps);
        out.push(note);
    }
    m.notes = out;

    let mut harmonies: Vec<Harmony> = Vec::new();
    std::mem::swap(&mut harmonies, &mut m.harmonies);
    let ghost old_h = harmonies@;
    let mut hout: Vec<Harmony> = Vec::new();
    for h in it: harmonies.into_iter()
        invariant
            it.seq() == old_h,
            hout@.len() == it.index(),
            s + 11 <= i32::MAX,
            forall|t: int|
                0 <= t < it.index() ==> harmony_transposed(
                    old_h[t],
                    #[trigger] hout@[t],
                    s as int,
                    use_sharps,
                ),
    {
        let mut h = h;
        transpose_harmony(&mut h, s, use_sharps);
        hout.push(h);
    }
    m.harmonies = hout;
    current_fifths
}

/// The key before measure `i` depends only on the measures before it.
pub proof fn lemma_key_context_push(ms: Seq<Measure>, x: Measure, i: int)
    requires
        0 <= i <= ms.len(),
    ensures
        key_context(ms.push(x), i) == key_context(ms, i),
    decreases i,
{
    if i > 0 {
        assert(ms.push(x)[i - 1] == ms[i - 1]);
        lemma_key_context_push(ms, x, i - 1);
    }
}

fn transpose_part(part: &mut Part, s: i32)
    requires
        s + 11 <= i32::MAX,
        part_transposable(*old(part), s as int),
    ensures
        part_transposed(*old(part), *final(part), s as int),
{
    let mut measures: Vec<Measure> = Vec::new();
    std::mem::swap(&mut measures, &mut part.measures);
    let ghost old_ms = measures@;
    let mut out: Vec<Measure> = Vec::new();
    let mut current: i32 = 0;
    for m in it: measures.into_iter()
        invariant
            it.seq() == old_ms,
            s + 11 <= i32::MAX,
            out@.len() == it.index(),
            current == key_context(out@, it.index() as int),
            forall|t: int|
                0 <= t < it.index() ==> measure_transposed(
                    old_ms[t],
                    #[trigger] out@[t],
                    s as int,
                    key_context(out@, t),
                ),
            forall|t: int| 0 <= t < old_ms.len() ==> measure_transposable(#[trigger] old_ms[t], s as int),
    {
        let mut m = m;
        let ghost idx = it.index() as int;
        let ghost prev = out@;
        let after = transpose_measure(&mut m, s, current);
        out.push(m);
        proof {
            assert forall|t: int| 0 <= t <= idx implies key_context(out@, t) == key_context(prev, t) by {
                lemma_key_context_push(prev, m, t);
            }
            assert(out@[idx] == m);
            assert(key_context(out@, idx + 1) == key_within(m, key_context(out@, idx)));
        }
        current = after;
    }
    part.measures = out;
}

/// Transpose all pitches, key signatures and chord symbols of a score by
/// `semitones` (positive = up). Each part starts in C major; the key
/// signature in effect decides between sharp and flat spellings.
pub fn transpose_score(score: &mut Score, semitones: i32)
    requires
        score_transposable(*old(score), semitones as int),
    ensures
        score_transposed(*old(score), *final(score), semitones as int),
{
    if semitones == 0 {
        return ;
    }
    let mut parts: Vec<Part> = Vec::new();
    std::mem::swap(&mut parts, &mut score.parts);
    let ghost old_parts = parts@;
    let mut out: Vec<Part> = Vec::new();
    for part in it: parts.into_iter()
        invariant
            it.seq() == old_parts,
            semitones + 11 <= i32::MAX,
            out@.len() == it.index(),
            forall|t: int|
                0 <= t < it.index() ==> part_transposed(old_parts[t], #[trigger] out@[t], semitones as int),
            forall|t: int|
                0 <= t < old_parts.len() ==> part_transposable(#[trigger] old_parts[t], semitones as int),
    {
        let mut part = part;
        transpose_part(&mut part, semitones);
        out.push(part);
    }
    score.parts = out;
}

/// Law: after `transpose_score`, every note's MIDI number is its old MIDI
/// number plus the interval.
pub proof fn lemma_transpose_shifts_midi(old: Score, new: Score, s: int, i: int, j: int, k: int)
    requires
        score_transposed(old, new, s),
        0 <= i < old.parts@.len(),
        0 <= j < old.parts@[i].measures@.len(),
        0 <= k < old.parts@[i].measures@[j].notes@.len(),
        old.parts@[i].measures@[j].notes@[k].pitch is Some,
    ensures
        new.parts@[i].measures@[j].notes@[k].pitch is Some,
        midi_of(new.parts@[i].measures@[j].notes@[k].pitch->0) == midi_of(
            old.parts@[i].measures@[j].notes@[k].pitch->0,
        ) + s,
{
    if s != 0 {
        let om = old.parts@[i].measures@[j];
        let nm = new.parts@[i].measures@[j];
        let ctx = key_context(new.parts@[i].measures@, j);
        assert(part_transposed(old.parts@[i], new.parts@[i], s));
        assert(measure_transposed(om, nm, s, ctx));
        assert(note_transposed(om.notes@[k], nm.notes@[k], s, key_within(nm, ctx) >= 0));
        lemma_pitch_transposed_midi(
            om.notes@[k].pitch->0,
            nm.notes@[k].pitch->0,
            s,
            key_within(nm, ctx) >= 0,
        );
    }
}


/// Law: after `transpose_score`, every key signature names the key whose
/// tonic is the old tonic moved by the interval (tonics as pitch classes,
/// `7 * fifths` modulo 12).
pub proof fn lemma_transpose_moves_key_tonic(old: Score, new: Score, s: int, i: int, j: int)
    requires
        score_transposed(old, new, s),
        0 <= i < old.parts@.len(),
        0 <= j < old.parts@[i].measures@.len(),
        measure_key(old.parts@[i].measures@[j]) is Some,
    ensures
        measure_key(new.parts@[i].measures@[j]) is Some,
        (7 * measure_key(new.parts@[i].measures@[j])->0) % 12 == (7 * measure_key(
            old.parts@[i].measures@[j],
        )->0 + s) % 12,
{
    let f = measure_key(old.parts@[i].measures@[j])->0 as int;
    if s != 0 {
        let om = old.parts@[i].measures@[j];
        let nm = new.parts@[i].measures@[j];
        assert(part_transposed(old.parts@[i], new.parts@[i], s));
        assert(measure_transposed(om, nm, s, key_context(new.parts@[i].measures@, j)));
        let g = transposed_fifths(f, s);
        assert(measure_key(nm) == Some(g as i32));
        let x = (f * 7) % 12 + s;
        assert((7 * fifths_of_semitone(x)) % 12 == x % 12);
        assert(-6 <= g <= 5);
        assert(x % 12 == (7 * f + s) % 12) by (nonlinear_arith)
            requires
                x == (f * 7) % 12 + s,
        ;
    }
}

} // verus!
