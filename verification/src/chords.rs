//! Chord analysis and voicing for the accompaniment: chord qualities from
//! MusicXML kind names or from the pitch classes of a melody, the most
//! likely root in a key, close-position voicings and smooth voice leading.
use vstd::prelude::*;
use crate::text::str_eq;
use crate::transpose::rem_euclid_i32;
use crate::model::{Part, Measure, Note, step_semitone, alter_round, step_to_semitone, alter_rounded, midi_of, midi_in_range, pitch_midi_fits};
use crate::transpose::measure_key;
use crate::unroller::UnrolledMeasure;

verus! {

/// Supported chord qualities.
#[derive(Debug, Clone, Copy, PartialEq, Eq, Structural)]
pub enum ChordKind {
    Major,
    Minor,
    Dominant7,
    MajorSeventh,
    MinorSeventh,
    Diminished,
    HalfDiminished,
    Augmented,
}

// ─── Quality from a MusicXML kind name ────────────────────────────────────

/// Chord quality named by a MusicXML `<kind>` value; unknown names are major.
pub open spec fn chord_kind_named(kind: Seq<char>) -> ChordKind {
    if kind == "major"@ {
        ChordKind::Major
    } else if kind == "minor"@ {
        ChordKind::Minor
    } else if kind == "dominant"@ || kind == "dominant-seventh"@ {
        ChordKind::Dominant7
    } else if kind == "major-seventh"@ {
        ChordKind::MajorSeventh
    } else if kind == "minor-seventh"@ {
        ChordKind::MinorSeventh
    } else if kind == "diminished"@ {
        ChordKind::Diminished
    } else if kind == "half-diminished"@ {
        ChordKind::HalfDiminished
    } else if kind == "augmented"@ {
        ChordKind::Augmented
    } else {
        ChordKind::Major
    }
}

/// Chord quality of a MusicXML `<kind>` value.
pub fn parse_chord_kind(kind: &str) -> (k: ChordKind)
    ensures
        k == chord_kind_named(kind@),
{
    if str_eq(kind, "major") {
        ChordKind::Major
    } else if str_eq(kind, "minor") {
        ChordKind::Minor
    } else if str_eq(kind, "dominant") || str_eq(kind, "dominant-seventh") {
        ChordKind::Dominant7
    } else if str_eq(kind, "major-seventh") {
        ChordKind::MajorSeventh
    } else if str_eq(kind, "minor-seventh") {
        ChordKind::MinorSeventh
    } else if str_eq(kind, "diminished") {
        ChordKind::Diminished
    } else if str_eq(kind, "half-diminished") {
        ChordKind::HalfDiminished
    } else if str_eq(kind, "augmented") {
        ChordKind::Augmented
    } else {
        ChordKind::Major
    }
}

// ─── Pitch classes ────────────────────────────────────────────────────────

/// Pitch class of the tonic of a key with `fifths` sharps (negative: flats).
pub open spec fn fifths_pitch_class(fifths: int) -> int {
    (fifths * 7) % 12
}

/// Pitch class of the major tonic of a circle-of-fifths position:
/// -7 = Cb (11), 0 = C, 1 = G (7), 7 = C# (1).
pub fn fifths_to_pitch_class(fifths: i32) -> (pc: u8)
    ensures
        pc == fifths_pitch_class(fifths as int),
        pc < 12,
{
    let x: i64 = (fifths as i64) * 7;
    let r: i64 = match x.checked_rem_euclid(12) {
        Some(r) => r,
        None => 0,
    };
    r as u8
}

/// Pitch class of a step name with an alteration in cents (rounded to
/// whole semitones); unknown step names count as C.
pub open spec fn step_pitch_class(step: Seq<char>, alter_cents: Option<i32>) -> int {
    (step_semitone(step) + alter_round(alter_cents)) % 12
}

/// Pitch class (0 = C, ..., 11 = B) of a step name and alteration.
pub fn step_to_pitch_class(step: &String, alter_cents: Option<i32>) -> (pc: u8)
    ensures
        pc == step_pitch_class(step@, alter_cents),
        pc < 12,
{
    let base: i64 = step_to_semitone(step) as i64;
    let alter: i64 = alter_rounded(alter_cents) as i64;
    let r: i64 = match (base + alter).checked_rem_euclid(12) {
        Some(r) => r,
        None => 0,
    };
    r as u8
}

// ─── Felt beats ───────────────────────────────────────────────────────────

/// Number of felt beats of a time signature: compound meters (6/8, 9/8,
/// 12/8, ...) count dotted quarters; simple meters, 3/8 included, count
/// the numerator.
pub open spec fn felt_beats_of(beats: int, beat_type: int) -> int {
    if beat_type == 8 && beats > 3 && beats % 3 == 0 {
        beats / 3
    } else {
        beats
    }
}

/// Felt beats of a time signature (see `felt_beats_of`).
pub fn felt_beats(beats: i32, beat_type: i32) -> (n: i32)
    ensures
        n == felt_beats_of(beats as int, beat_type as int),
{
    if beat_type == 8 && beats > 3 && beats % 3 == 0 {
        beats / 3
    } else {
        beats
    }
}

// ─── Voicings ─────────────────────────────────────────────────────────────

/// Intervals above the root of the close-position voicing of a quality.
pub open spec fn chord_intervals(kind: ChordKind) -> Seq<int> {
    match kind {
        ChordKind::Major => seq![0, 4, 7],
        ChordKind::Minor => seq![0, 3, 7],
        ChordKind::Dominant7 => seq![0, 4, 7, 10],
        ChordKind::MajorSeventh => seq![0, 4, 7, 11],
        ChordKind::MinorSeventh => seq![0, 3, 7, 10],
        ChordKind::Diminished => seq![0, 3, 6],
        ChordKind::HalfDiminished => seq![0, 3, 6, 10],
        ChordKind::Augmented => seq![0, 4, 8],
    }
}

/// Largest interval of a quality's voicing.
pub open spec fn top_interval(kind: ChordKind) -> int {
    chord_intervals(kind).last()
}

/// MIDI notes of the voicing of `kind` on `root`, built on MIDI note 48 (C3).
pub open spec fn chord_voicing(root: u8, kind: ChordKind) -> Seq<u8> {
    Seq::new(chord_intervals(kind).len(), |k: int| (48 + root + chord_intervals(kind)[k]) as u8)
}

/// Close-position voicing of a chord, rooted around C3 (MIDI 48).
pub fn get_chord_voicing(root: u8, kind: ChordKind) -> (v: Vec<u8>)
    requires
        48 + root + top_interval(kind) <= 255,
    ensures
        v@ == chord_voicing(root, kind),
{
    let base: u8 = 48 + root;
    let v = match kind {
        ChordKind::Major => vec![base, base + 4, base + 7],
        ChordKind::Minor => vec![base, base + 3, base + 7],
        ChordKind::Dominant7 => vec![base, base + 4, base + 7, base + 10],
        ChordKind::MajorSeventh => vec![base, base + 4, base + 7, base + 11],
        ChordKind::MinorSeventh => vec![base, base + 3, base + 7, base + 10],
        ChordKind::Diminished => vec![base, base + 3, base + 6],
        ChordKind::HalfDiminished => vec![base, base + 3, base + 6, base + 10],
        ChordKind::Augmented => vec![base, base + 4, base + 8],
    };
    assert(v@ =~= chord_voicing(root, kind));
    v
}

/// Interval of the seventh that `add_seventh` adds to a quality.
pub open spec fn seventh_interval(kind: ChordKind) -> int {
    match kind {
        ChordKind::Major => 11,
        ChordKind::Minor => 10,
        ChordKind::Dominant7 => 10,
        ChordKind::MinorSeventh => 10,
        ChordKind::HalfDiminished => 10,
        ChordKind::MajorSeventh => 11,
        ChordKind::Diminished => 9,
        ChordKind::Augmented => 11,
    }
}

/// The voicing with a seventh above its first note appended, when it has
/// fewer than four notes; otherwise unchanged.
pub open spec fn with_seventh(v: Seq<u8>, kind: ChordKind) -> Seq<u8> {
    if v.len() < 4 {
        v.push((v[0] + seventh_interval(kind)) as u8)
    } else {
        v
    }
}

/// Add a seventh to a voicing that does not have four notes yet.
pub fn add_seventh(voicing: &[u8], kind: ChordKind) -> (v: Vec<u8>)
    requires
        voicing@.len() < 4 ==> voicing@.len() > 0 && voicing@[0] + seventh_interval(kind) <= 255,
    ensures
        v@ == with_seventh(voicing@, kind),
{
    let mut v: Vec<u8> = Vec::new();
    let mut k: usize = 0;
    while k < voicing.len()
        invariant
            k <= voicing@.len(),
            v@ == voicing@.take(k as int),
        decreases voicing@.len() - k,
    {
        v.push(voicing[k]);
        k = k + 1;
        assert(v@ =~= voicing@.take(k as int));
    }
    assert(v@ =~= voicing@);
    let seventh: u8 = match kind {
        ChordKind::Major => 11,
        ChordKind::Minor => 10,
        ChordKind::Dominant7 | ChordKind::MinorSeventh | ChordKind::HalfDiminished => 10,
        ChordKind::MajorSeventh => 11,
        ChordKind::Diminished => 9,
        ChordKind::Augmented => 11,
    };
    if v.len() < 4 {
        let first = v[0];
        v.push(first + seventh);
    }
    v
}

// ─── Quality and root from pitch classes ─────────────────────────────────

/// Interval class of pitch class `p` above `root` (0..12).
pub open spec fn interval_above(p: u8, root: u8) -> int {
    (p as int - root as int) % 12
}

/// Whether some pitch class of `ps` lies `i` semitones (mod 12) above `root`.
pub open spec fn has_interval(ps: Seq<u8>, root: u8, i: int) -> bool {
    exists|j: int| 0 <= j < ps.len() && #[trigger] interval_above(ps[j], root) == i
}

/// Chord quality read from the intervals present above the root: seventh
/// chords first, then triads, then a lone minor third; otherwise major.
pub open spec fn chord_kind_of(ps: Seq<u8>, root: u8) -> ChordKind {
    let h3 = has_interval(ps, root, 3);
    let h4 = has_interval(ps, root, 4);
    let h6 = has_interval(ps, root, 6);
    let h7 = has_interval(ps, root, 7);
    let h8 = has_interval(ps, root, 8);
    let h10 = has_interval(ps, root, 10);
    let h11 = has_interval(ps, root, 11);
    if h4 && h7 && h11 {
        ChordKind::MajorSeventh
    } else if h4 && h7 && h10 {
        ChordKind::Dominant7
    } else if h3 && h7 && h10 {
        ChordKind::MinorSeventh
    } else if h3 && h6 && h10 {
        ChordKind::HalfDiminished
    } else if h4 && h8 && !h7 {
        ChordKind::Augmented
    } else if h3 && h6 {
        ChordKind::Diminished
    } else if h3 && h7 {
        ChordKind::Minor
    } else if h4 && h7 {
        ChordKind::Major
    } else if h3 {
        ChordKind::Minor
    } else {
        ChordKind::Major
    }
}

fn interval_present(ps: &[u8], root: u8, i: i32) -> (r: bool)
    ensures
        r == has_interval(ps@, root, i as int),
{
    let mut k: usize = 0;
    while k < ps.len()
        invariant
            k <= ps@.len(),
            forall|j: int| 0 <= j < k ==> #[trigger] interval_above(ps@[j], root) != i,
        decreases ps@.len() - k,
    {
        let d = rem_euclid_i32(ps[k] as i32 - root as i32, 12);
        if d == i {
            assert(interval_above(ps@[k as int], root) == i);
            return true;
        }
        k = k + 1;
    }
    false
}

/// Chord quality inferred from the pitch classes sounding over `root`.
pub fn infer_chord_kind(pitches: &[u8], root: u8) -> (k: ChordKind)
    ensures
        k == chord_kind_of(pitches@, root),
{
    let h3 = interval_present(pitches, root, 3);
    let h4 = interval_present(pitches, root, 4);
    let h6 = interval_present(pitches, root, 6);
    let h7 = interval_present(pitches, root, 7);
    let h8 = interval_present(pitches, root, 8);
    let h10 = interval_present(pitches, root, 10);
    let h11 = interval_present(pitches, root, 11);
    if h4 && h7 && h11 {
        ChordKind::MajorSeventh
    } else if h4 && h7 && h10 {
        ChordKind::Dominant7
    } else if h3 && h7 && h10 {
        ChordKind::MinorSeventh
    } else if h3 && h6 && h10 {
        ChordKind::HalfDiminished
    } else if h4 && h8 && !h7 {
        ChordKind::Augmented
    } else if h3 && h6 {
        ChordKind::Diminished
    } else if h3 && h7 {
        ChordKind::Minor
    } else if h4 && h7 {
        ChordKind::Major
    } else if h3 {
        ChordKind::Minor
    } else {
        ChordKind::Major
    }
}

/// Pitch class `o` semitones above `key_root`.
pub open spec fn degree_pc(key_root: u8, o: int) -> u8 {
    ((key_root + o) % 12) as u8
}

/// Most likely chord root: the first of the diatonic degrees I, V, IV,
/// vi, ii, iii of the key that sounds; otherwise the first pitch class.
pub open spec fn most_likely_root(ps: Seq<u8>, key_root: u8) -> u8 {
    if ps.contains(degree_pc(key_root, 0)) {
        degree_pc(key_root, 0)
    } else if ps.contains(degree_pc(key_root, 7)) {
        degree_pc(key_root, 7)
    } else if ps.contains(degree_pc(key_root, 5)) {
        degree_pc(key_root, 5)
    } else if ps.contains(degree_pc(key_root, 9)) {
        degree_pc(key_root, 9)
    } else if ps.contains(degree_pc(key_root, 2)) {
        degree_pc(key_root, 2)
    } else if ps.contains(degree_pc(key_root, 4)) {
        degree_pc(key_root, 4)
    } else {
        ps[0]
    }
}

/// Whether `x` occurs in `v`.
pub fn contains_u8(v: &[u8], x: u8) -> (r: bool)
    ensures
        r == v@.contains(x),
{
    let mut k: usize = 0;
    while k < v.len()
        invariant
            k <= v@.len(),
            forall|j: int| 0 <= j < k ==> v@[j] != x,
        decreases v@.len() - k,
    {
        if v[k] == x {
            assert(v@[k as int] == x);
            return true;
        }
        k = k + 1;
    }
    false
}

/// Most likely chord root of a set of pitch classes in a key.
pub fn find_most_likely_root(pitches: &[u8], key_root: u8) -> (r: u8)
    requires
        pitches@.len() > 0,
    ensures
        r == most_likely_root(pitches@, key_root),
{
    let c0 = ((key_root as u16 + 0) % 12) as u8;
    if contains_u8(pitches, c0) {
        return c0;
    }
    let c7 = ((key_root as u16 + 7) % 12) as u8;
    if contains_u8(pitches, c7) {
        return c7;
    }
    let c5 = ((key_root as u16 + 5) % 12) as u8;
    if contains_u8(pitches, c5) {
        return c5;
    }
    let c9 = ((key_root as u16 + 9) % 12) as u8;
    if contains_u8(pitches, c9) {
        return c9;
    }
    let c2 = ((key_root as u16 + 2) % 12) as u8;
    if contains_u8(pitches, c2) {
        return c2;
    }
    let c4 = ((key_root as u16 + 4) % 12) as u8;
    if contains_u8(pitches, c4) {
        return c4;
    }
    pitches[0]
}

// ─── Voice leading ────────────────────────────────────────────────────────

/// `x + 12`, saturating at 255.
pub open spec fn octave_up(x: u8) -> u8 {
    if x as int + 12 > 255 {
        255
    } else {
        (x + 12) as u8
    }
}

/// Next inversion: the lowest (first) note moves up an octave to the end.
pub open spec fn invert_once(c: Seq<u8>) -> Seq<u8> {
    if c.len() == 0 {
        c
    } else {
        c.drop_first().push(octave_up(c[0]))
    }
}

/// The `k`-th inversion of a voicing.
pub open spec fn inversion(v: Seq<u8>, k: nat) -> Seq<u8>
    decreases k,
{
    if k == 0 {
        v
    } else {
        invert_once(inversion(v, (k - 1) as nat))
    }
}

pub open spec fn abs_diff(a: u8, b: u8) -> int {
    if a >= b {
        a - b
    } else {
        b - a
    }
}

/// Total pitch movement between the first `m` notes of `c` and of `p`.
pub open spec fn movement(c: Seq<u8>, p: Seq<u8>, m: nat) -> int
    decreases m,
{
    if m == 0 {
        0
    } else {
        movement(c, p, (m - 1) as nat) + abs_diff(c[m - 1], p[m - 1])
    }
}

/// Number of positions compared between a voicing and the previous one.
pub open spec fn overlap(v: Seq<u8>, p: Seq<u8>) -> nat {
    if v.len() <= p.len() {
        v.len()
    } else {
        p.len()
    }
}

/// Index of the first inversion among `0..j` with the least movement.
pub open spec fn best_inversion(v: Seq<u8>, p: Seq<u8>, j: nat) -> nat
    decreases j,
{
    if j <= 1 {
        0
    } else {
        let b = best_inversion(v, p, (j - 1) as nat);
        let m = overlap(v, p);
        if movement(inversion(v, (j - 1) as nat), p, m) < movement(inversion(v, b), p, m) {
            (j - 1) as nat
        } else {
            b
        }
    }
}

/// The inversion of `v` that moves least from `p` (the first of several
/// equally good ones); `v` itself when either voicing is empty.
pub open spec fn smoother_voicing(v: Seq<u8>, p: Seq<u8>) -> Seq<u8> {
    if p.len() == 0 || v.len() == 0 {
        v
    } else {
        inversion(v, best_inversion(v, p, v.len()))
    }
}

proof fn lemma_inversion_len(v: Seq<u8>, k: nat)
    ensures
        inversion(v, k).len() == v.len(),
    decreases k,
{
    if k > 0 {
        lemma_inversion_len(v, (k - 1) as nat);
    }
}

proof fn lemma_movement_bound(c: Seq<u8>, p: Seq<u8>, m: nat)
    ensures
        0 <= movement(c, p, m) <= 255 * m,
    decreases m,
{
    if m > 0 {
        lemma_movement_bound(c, p, (m - 1) as nat);
    }
}

proof fn lemma_best_inversion(v: Seq<u8>, p: Seq<u8>, j: nat)
    requires
        j >= 1,
    ensures
        best_inversion(v, p, j) < j,
        forall|k: nat|
            k < j ==> movement(inversion(v, best_inversion(v, p, j)), p, overlap(v, p))
                <= movement(#[trigger] inversion(v, k), p, overlap(v, p)),
    decreases j,
{
    if j > 1 {
        lemma_best_inversion(v, p, (j - 1) as nat);
    }
}

/// The voicing chosen for voice leading is an inversion of the chord, and
/// no inversion of the chord moves less from the previous voicing.
pub proof fn lemma_smoother_voicing_is_closest(v: Seq<u8>, p: Seq<u8>)
    requires
        v.len() > 0,
        p.len() > 0,
    ensures
        exists|k: nat| k < v.len() && smoother_voicing(v, p) == #[trigger] inversion(v, k),
        forall|k: nat|
            k < v.len() ==> movement(smoother_voicing(v, p), p, overlap(v, p))
                <= movement(#[trigger] inversion(v, k), p, overlap(v, p)),
{
    lemma_best_inversion(v, p, v.len());
    let b = best_inversion(v, p, v.len());
    assert(smoother_voicing(v, p) == inversion(v, b));
}

/// Inversion of `voicing` with the least total pitch movement from
/// `previous`, comparing only the positions both voicings have.
pub fn get_smoother_voicing(voicing: &[u8], previous: &[u8]) -> (r: Vec<u8>)
    requires
        overlap(voicing@, previous@) * 255 < i32::MAX,
    ensures
        r@ == smoother_voicing(voicing@, previous@),
{
    let mut copy: Vec<u8> = Vec::new();
    let mut k: usize = 0;
    while k < voicing.len()
        invariant
            k <= voicing@.len(),
            copy@ == voicing@.take(k as int),
        decreases voicing@.len() - k,
    {
        copy.push(voicing[k]);
        k = k + 1;
        assert(copy@ =~= voicing@.take(k as int));
    }
    assert(copy@ =~= voicing@);
    if previous.len() == 0 || voicing.len() == 0 {
        return copy;
    }
    let ghost v = voicing@;
    let ghost p = previous@;
    let n = voicing.len();
    let m = if n <= previous.len() { n } else { previous.len() };
    let mut best = copy.clone();
    let mut best_distance: i32 = i32::MAX;
    let mut current = copy;
    let mut i: usize = 0;
    while i < n
        invariant
            n == v.len(),
            n > 0,
            p == previous@,
            m == overlap(v, p),
            m <= n,
            m <= p.len(),
            m * 255 < i32::MAX,
            i <= n,
            current@ == inversion(v, i as nat),
            i == 0 ==> best_distance == i32::MAX,
            i > 0 ==> best@ == inversion(v, best_inversion(v, p, i as nat)),
            i > 0 ==> best_distance == movement(best@, p, m as nat),
        decreases n - i,
    {
        proof {
            lemma_inversion_len(v, i as nat);
        }
        let mut dist: i32 = 0;
        let mut j: usize = 0;
        while j < m
            invariant
                j <= m,
                m <= current@.len(),
                m <= previous@.len(),
                m * 255 < i32::MAX,
                dist == movement(current@, previous@, j as nat),
            decreases m - j,
        {
            proof {
                lemma_movement_bound(current@, previous@, j as nat);
                assert(j * 255 + 255 <= m * 255) by (nonlinear_arith)
                    requires
                        j < m,
                ;
            }
            let a = current[j];
            let b = previous[j];
            let d: i32 = if a >= b { (a - b) as i32 } else { (b - a) as i32 };
            dist = dist + d;
            j = j + 1;
        }
        proof {
            lemma_movement_bound(current@, p, m as nat);
            if i > 0 {
                lemma_best_inversion(v, p, i as nat);
            }
        }
        if dist < best_distance {
            best_distance = dist;
            best = current.clone();
            proof {
                assert(best@ == current@);
            }
        }
        proof {
            if i == 0 {
                assert(best_inversion(v, p, 1) == 0);
            }
        }
        let lowest = current[0];
        current.remove(0);
        let up: u8 = if lowest > 243 { 255 } else { lowest + 12 };
        current.push(up);
        proof {
            assert(current@ =~= invert_once(inversion(v, i as nat)));
        }
        i = i + 1;
    }
    best
}

// ─── Chord plan of a part ─────────────────────────────────────────────────

/// A chord of the accompaniment in play order, placed within its measure;
/// the caller turns divisions into time with the measure's tempo.
#[derive(Debug, Clone, Copy, PartialEq, Eq, Structural)]
pub struct PlannedChord {
    /// Pitch class of the root (0 = C, ..., 11 = B)
    pub root: u8,
    /// Chord quality
    pub kind: ChordKind,
    /// Position in the play order (index into the unrolled measures)
    pub position: usize,
    /// Start within the measure in divisions; `None` for a chord that
    /// fills the whole measure
    pub start_divisions: Option<i32>,
    /// End within the measure in divisions; `None` for the end of the measure
    pub end_divisions: Option<i32>,
}

/// Fifths of the first key signature of a sequence of measures.
pub open spec fn first_key(ms: Seq<Measure>) -> Option<i32>
    decreases ms.len(),
{
    if ms.len() == 0 {
        None
    } else {
        match measure_key(ms[0]) {
            Some(f) => Some(f),
            None => first_key(ms.drop_first()),
        }
    }
}

/// Pitch class of the key of a part: the tonic of its first key
/// signature, or C (0) without one.
pub open spec fn key_root_of(ms: Seq<Measure>) -> u8 {
    match first_key(ms) {
        Some(f) => fifths_pitch_class(f as int) as u8,
        None => 0,
    }
}

/// Pitch class of the key of a part (see `key_root_of`).
pub fn detect_key_root(part: &Part) -> (r: u8)
    ensures
        r == key_root_of(part.measures@),
{
    let ghost ms = part.measures@;
    let mut k: usize = 0;
    proof {
        assert(ms.skip(0) == ms);
    }
    while k < part.measures.len()
        invariant
            ms == part.measures@,
            k <= ms.len(),
            first_key(ms) == first_key(ms.skip(k as int)),
        decreases ms.len() - k,
    {
        proof {
            assert(ms.skip(k as int)[0] == ms[k as int]);
            assert(ms.skip(k as int).drop_first() == ms.skip(k + 1));
        }
        let m = &part.measures[k];
        if let Some(ref attrs) = m.attributes {
            if let Some(ref key) = attrs.key {
                return fifths_to_pitch_class(key.fifths);
            }
        }
        k = k + 1;
    }
    0
}

/// The chord carried into a measure without a chord of its own: the
/// previous chord, or `fallback` major at the start.
pub open spec fn carried_chord(acc: Seq<PlannedChord>, pos: int, fallback: u8) -> PlannedChord {
    let (root, kind) = if acc.len() == 0 {
        (fallback, ChordKind::Major)
    } else {
        (acc.last().root, acc.last().kind)
    };
    PlannedChord { root, kind, position: pos as usize, start_divisions: None, end_divisions: None }
}

/// The chord of the `j`-th chord symbol of a measure: it lasts until the
/// next symbol, the last one until the end of the measure.
pub open spec fn symbol_chord(m: Measure, pos: int, j: int) -> PlannedChord {
    let h = m.harmonies@[j];
    PlannedChord {
        root: step_pitch_class(h.root.step@, h.root.alter_cents) as u8,
        kind: chord_kind_named(h.kind@),
        position: pos as usize,
        start_divisions: Some(h.offset_divisions),
        end_divisions: if j + 1 < m.harmonies@.len() {
            Some(m.harmonies@[j + 1].offset_divisions)
        } else {
            None
        },
    }
}

/// Chords of a part with chord symbols, in play order `order`.
pub open spec fn chords_of_symbols(ms: Seq<Measure>, order: Seq<usize>) -> Seq<PlannedChord>
    decreases order.len(),
{
    if order.len() == 0 {
        Seq::empty()
    } else {
        let acc = chords_of_symbols(ms, order.drop_last());
        let pos = order.len() - 1;
        let m = ms[order.last() as int];
        if m.harmonies@.len() == 0 {
            acc.push(carried_chord(acc, pos, 0))
        } else {
            acc + Seq::new(m.harmonies@.len(), |j: int| symbol_chord(m, pos, j))
        }
    }
}

/// Distinct pitch classes of the sounding notes (rests and grace notes
/// left out), in order of first appearance.
pub open spec fn sounding_pitch_classes(notes: Seq<Note>) -> Seq<u8>
    decreases notes.len(),
{
    if notes.len() == 0 {
        Seq::empty()
    } else {
        let acc = sounding_pitch_classes(notes.drop_last());
        let n = notes.last();
        if n.rest || n.grace {
            acc
        } else {
            match n.pitch {
                Some(p) => {
                    let pc = (midi_of(p) % 12) as u8;
                    if acc.contains(pc) {
                        acc
                    } else {
                        acc.push(pc)
                    }
                },
                None => acc,
            }
        }
    }
}

/// Chords of a part without chord symbols, read from its melody in play
/// order `order`, in the key with tonic `key_root`.
pub open spec fn chords_of_melody(ms: Seq<Measure>, order: Seq<usize>, key_root: u8) -> Seq<PlannedChord>
    decreases order.len(),
{
    if order.len() == 0 {
        Seq::empty()
    } else {
        let acc = chords_of_melody(ms, order.drop_last(), key_root);
        let pos = order.len() - 1;
        let pcs = sounding_pitch_classes(ms[order.last() as int].notes@);
        if pcs.len() == 0 {
            acc.push(carried_chord(acc, pos, key_root))
        } else {
            let root = most_likely_root(pcs, key_root);
            acc.push(
                PlannedChord {
                    root,
                    kind: chord_kind_of(pcs, root),
                    position: pos as usize,
                    start_divisions: None,
                    end_divisions: None,
                },
            )
        }
    }
}

/// Whether some measure carries a chord symbol.
pub open spec fn has_chord_symbols(ms: Seq<Measure>) -> bool {
    exists|i: int| 0 <= i < ms.len() && (#[trigger] ms[i]).harmonies@.len() > 0
}

/// The play-order indices of unrolled measures.
pub open spec fn order_of(unrolled: Seq<UnrolledMeasure>) -> Seq<usize> {
    Seq::new(unrolled.len(), |i: int| unrolled[i].original_index)
}

/// Every play-order entry names a measure of the part.
pub open spec fn order_in_part(ms: Seq<Measure>, unrolled: Seq<UnrolledMeasure>) -> bool {
    forall|i: int| 0 <= i < unrolled.len() ==> (#[trigger] unrolled[i]).original_index < ms.len()
}

/// The MIDI numbers of all sounding pitches of the measures are computable.
pub open spec fn pitches_in_range(ms: Seq<Measure>) -> bool {
    forall|i: int, j: int|
        0 <= i < ms.len() && 0 <= j < ms[i].notes@.len() ==> match (#[trigger] ms[i].notes@[j]).pitch {
            Some(p) => midi_in_range(p),
            None => true,
        }
}

/// The chord sequence of a part in play order: from its chord symbols when
/// it has any, otherwise inferred from the melody in its key.
pub open spec fn chord_plan(ms: Seq<Measure>, unrolled: Seq<UnrolledMeasure>) -> Seq<PlannedChord> {
    if has_chord_symbols(ms) {
        chords_of_symbols(ms, order_of(unrolled))
    } else {
        chords_of_melody(ms, order_of(unrolled), key_root_of(ms))
    }
}

fn carry(acc: &Vec<PlannedChord>, pos: usize, fallback: u8) -> (c: PlannedChord)
    ensures
        c == carried_chord(acc@, pos as int, fallback),
{
    if acc.len() == 0 {
        PlannedChord {
            root: fallback,
            kind: ChordKind::Major,
            position: pos,
            start_divisions: None,
            end_divisions: None,
        }
    } else {
        let prev = acc[acc.len() - 1];
        PlannedChord {
            root: prev.root,
            kind: prev.kind,
            position: pos,
            start_divisions: None,
            end_divisions: None,
        }
    }
}

/// Chords from explicit chord symbols, one per symbol; a measure without
/// symbols repeats the previous chord (C major at the start).
pub fn analyze_chords_from_harmonies(part: &Part, unrolled: &[UnrolledMeasure]) -> (r: Vec<PlannedChord>)
    requires
        order_in_part(part.measures@, unrolled@),
    ensures
        r@ == chords_of_symbols(part.measures@, order_of(unrolled@)),
{
    let ghost ms = part.measures@;
    let ghost order = order_of(unrolled@);
    let mut chords: Vec<PlannedChord> = Vec::new();
    let mut i: usize = 0;
    while i < unrolled.len()
        invariant
            ms == part.measures@,
            order == order_of(unrolled@),
            order_in_part(ms, unrolled@),
            i <= unrolled@.len(),
            chords@ == chords_of_symbols(ms, order.take(i as int)),
        decreases unrolled@.len() - i,
    {
        proof {
            assert(order.take(i + 1).drop_last() == order.take(i as int));
            assert(order.take(i + 1).last() == unrolled@[i as int].original_index);
        }
        let idx = unrolled[i].original_index;
        assert(idx < ms.len());
        let measure = &part.measures[idx];
        let n = measure.harmonies.len();
        if n == 0 {
            let c = carry(&chords, i, 0);
            chords.push(c);
        } else {
            let ghost acc = chords@;
            let mut j: usize = 0;
            while j < n
                invariant
                    n == measure.harmonies@.len(),
                    j <= n,
                    chords@ == acc + Seq::new(j as nat, |t: int| symbol_chord(*measure, i as int, t)),
                decreases n - j,
            {
                let h = &measure.harmonies[j];
                let root = step_to_pitch_class(&h.root.step, h.root.alter_cents);
                let kind = parse_chord_kind(h.kind.as_str());
                let end = if j + 1 < n {
                    Some(measure.harmonies[j + 1].offset_divisions)
                } else {
                    None
                };
                chords.push(
                    PlannedChord {
                        root,
                        kind,
                        position: i,
                        start_divisions: Some(h.offset_divisions),
                        end_divisions: end,
                    },
                );
                j = j + 1;
                proof {
                    assert(chords@ =~= acc + Seq::new(j as nat, |t: int| symbol_chord(*measure, i as int, t)));
                }
            }
        }
        i = i + 1;
    }
    proof {
        assert(order.take(unrolled@.len() as int) == order);
    }
    chords
}

/// Distinct pitch classes of the sounding notes of a measure.
pub fn measure_pitch_classes(notes: &Vec<Note>) -> (r: Vec<u8>)
    requires
        forall|j: int|
            0 <= j < notes@.len() ==> match (#[trigger] notes@[j]).pitch {
                Some(p) => midi_in_range(p),
                None => true,
            },
    ensures
        r@ == sounding_pitch_classes(notes@),
{
    let mut pcs: Vec<u8> = Vec::new();
    let mut k: usize = 0;
    while k < notes.len()
        invariant
            k <= notes@.len(),
            forall|j: int|
                0 <= j < notes@.len() ==> match (#[trigger] notes@[j]).pitch {
                    Some(p) => midi_in_range(p),
                    None => true,
                },
            pcs@ == sounding_pitch_classes(notes@.take(k as int)),
        decreases notes@.len() - k,
    {
        proof {
            assert(notes@.take(k + 1).drop_last() == notes@.take(k as int));
            assert(notes@.take(k + 1).last() == notes@[k as int]);
        }
        let note = &notes[k];
        if !note.rest && !note.grace {
            if let Some(ref p) = note.pitch {
                let midi = p.to_midi();
                let pc = rem_euclid_i32(midi, 12) as u8;
                if !contains_u8(&pcs, pc) {
                    pcs.push(pc);
                }
            }
        }
        k = k + 1;
    }
    proof {
        assert(notes@.take(notes@.len() as int) == notes@);
    }
    pcs
}

/// Chords inferred from the melody, one per measure in play order: the
/// most likely diatonic root among the sounding pitch classes and the
/// quality their intervals suggest; a measure of rests repeats the
/// previous chord (the tonic at the start).
pub fn analyze_chords_from_melody(part: &Part, unrolled: &[UnrolledMeasure]) -> (r: Vec<PlannedChord>)
    requires
        order_in_part(part.measures@, unrolled@),
        pitches_in_range(part.measures@),
    ensures
        r@ == chords_of_melody(part.measures@, order_of(unrolled@), key_root_of(part.measures@)),
{
    let ghost ms = part.measures@;
    let ghost order = order_of(unrolled@);
    let key_root = detect_key_root(part);
    let mut chords: Vec<PlannedChord> = Vec::new();
    let mut i: usize = 0;
    while i < unrolled.len()
        invariant
            ms == part.measures@,
            order == order_of(unrolled@),
            order_in_part(ms, unrolled@),
            pitches_in_range(ms),
            key_root == key_root_of(ms),
            i <= unrolled@.len(),
            chords@ == chords_of_melody(ms, order.take(i as int), key_root),
        decreases unrolled@.len() - i,
    {
        proof {
            assert(order.take(i + 1).drop_last() == order.take(i as int));
            assert(order.take(i + 1).last() == unrolled@[i as int].original_index);
        }
        let idx = unrolled[i].original_index;
        assert(idx < ms.len());
        let measure = &part.measures[idx];
        proof {
            assert forall|j: int| 0 <= j < measure.notes@.len() implies match (#[trigger] measure.notes@[j]).pitch {
                Some(p) => midi_in_range(p),
                None => true,
            } by {
                assert(ms[idx as int].notes@[j] == measure.notes@[j]);
            }
        }
        let pcs = measure_pitch_classes(&measure.notes);
        if pcs.len() == 0 {
            let c = carry(&chords, i, key_root);
            chords.push(c);
        } else {
            let root = find_most_likely_root(&pcs, key_root);
            let kind = infer_chord_kind(&pcs, root);
            chords.push(
                PlannedChord {
                    root,
                    kind,
                    position: i,
                    start_divisions: None,
                    end_divisions: None,
                },
            );
        }
        i = i + 1;
    }
    proof {
        assert(order.take(unrolled@.len() as int) == order);
    }
    chords
}

/// Whether every play-order position names a measure of the part
/// (`order_in_part`).
pub fn order_fits(ms: &Vec<Measure>, unrolled: &[UnrolledMeasure]) -> (b: bool)
    ensures
        b == order_in_part(ms@, unrolled@),
{
    let mut i: usize = 0;
    while i < unrolled.len()
        invariant
            i <= unrolled@.len(),
            forall|j: int| 0 <= j < i ==> (#[trigger] unrolled@[j]).original_index < ms@.len(),
        decreases unrolled@.len() - i,
    {
        if unrolled[i].original_index >= ms.len() {
            assert(!(unrolled@[i as int].original_index < ms@.len()));
            return false;
        }
        i = i + 1;
    }
    true
}

/// Whether the MIDI number of every pitch of the measures can be computed
/// (`pitches_in_range`).
pub fn pitches_fit(ms: &Vec<Measure>) -> (b: bool)
    ensures
        b == pitches_in_range(ms@),
{
    let mut i: usize = 0;
    while i < ms.len()
        invariant
            i <= ms@.len(),
            forall|a: int, j: int|
                0 <= a < i && 0 <= j < ms@[a].notes@.len() ==> match (#[trigger] ms@[a].notes@[j]).pitch {
                    Some(p) => midi_in_range(p),
                    None => true,
                },
        decreases ms@.len() - i,
    {
        let notes = &ms[i].notes;
        let mut j: usize = 0;
        while j < notes.len()
            invariant
                i < ms@.len(),
                notes@ == ms@[i as int].notes@,
                j <= notes@.len(),
                forall|a: int, t: int|
                    0 <= a < i && 0 <= t < ms@[a].notes@.len() ==> match (#[trigger] ms@[a].notes@[t]).pitch {
                        Some(p) => midi_in_range(p),
                        None => true,
                    },
                forall|t: int|
                    0 <= t < j ==> match (#[trigger] notes@[t]).pitch {
                        Some(p) => midi_in_range(p),
                        None => true,
                    },
            decreases notes@.len() - j,
        {
            match &notes[j].pitch {
                Some(p) => {
                    if !pitch_midi_fits(p) {
                        assert(!match ms@[i as int].notes@[j as int].pitch {
                            Some(q) => midi_in_range(q),
                            None => true,
                        });
                        return false;
                    }
                },
                None => {},
            }
            j = j + 1;
        }
        proof {
            assert forall|a: int, t: int|
                0 <= a < i + 1 && 0 <= t < ms@[a].notes@.len() implies match (#[trigger] ms@[a].notes@[t]).pitch {
                Some(p) => midi_in_range(p),
                None => true,
            } by {
                if a == i {
                    assert(ms@[a].notes@[t] == notes@[t]);
                }
            }
        }
        i = i + 1;
    }
    true
}

/// Chord sequence of a part in play order (see `chord_plan`).
pub fn analyze_chords(part: &Part, unrolled: &[UnrolledMeasure]) -> (r: Vec<PlannedChord>)
    requires
        order_in_part(part.measures@, unrolled@),
        !has_chord_symbols(part.measures@) ==> pitches_in_range(part.measures@),
    ensures
        r@ == chord_plan(part.measures@, unrolled@),
{
    let mut k: usize = 0;
    let mut found = false;
    while k < part.measures.len()
        invariant
            k <= part.measures@.len(),
            found ==> has_chord_symbols(part.measures@),
            !found ==> forall|i: int| 0 <= i < k ==> (#[trigger] part.measures@[i]).harmonies@.len() == 0,
        decreases part.measures@.len() - k,
    {
        if part.measures[k].harmonies.len() > 0 {
            found = true;
            assert(part.measures@[k as int].harmonies@.len() > 0);
        }
        k = k + 1;
    }
    if found {
        analyze_chords_from_harmonies(part, unrolled)
    } else {
        analyze_chords_from_melody(part, unrolled)
    }
}

/// The chord plan of a part for a timemap of `timemap_len` entries, one per
/// play-order position: no chords at all when the play order and the
/// timemap differ in length, else the plan of `analyze_chords`.
pub fn analyze_chords_for_timemap(part: &Part, unrolled: &[UnrolledMeasure], timemap_len: usize) -> (r: Vec<
    PlannedChord,
>)
    requires
        unrolled@.len() == timemap_len ==> order_in_part(part.measures@, unrolled@),
        unrolled@.len() == timemap_len && !has_chord_symbols(part.measures@) ==> pitches_in_range(
            part.measures@,
        ),
    ensures
        unrolled@.len() != timemap_len ==> r@.len() == 0,
        unrolled@.len() == timemap_len ==> r@ == chord_plan(part.measures@, unrolled@),
{
    if unrolled.len() != timemap_len {
        return Vec::new();
    }
    analyze_chords(part, unrolled)
}

/// The most likely root is always one of the sounding pitch classes.
pub proof fn lemma_most_likely_root_sounds(ps: Seq<u8>, key_root: u8)
    requires
        ps.len() > 0,
    ensures
        ps.contains(most_likely_root(ps, key_root)),
{
    assert(ps[0] == ps[0]);
}

/// The voicing of a chord starts on its root in the octave of C3 and
/// climbs: every note lies above the previous one.
pub proof fn lemma_voicing_ascends(root: u8, kind: ChordKind)
    requires
        48 + root + top_interval(kind) <= 255,
    ensures
        chord_voicing(root, kind)[0] == 48 + root,
        forall|i: int, j: int|
            0 <= i < j < chord_voicing(root, kind).len() ==> chord_voicing(root, kind)[i] < chord_voicing(
                root,
                kind,
            )[j],
{
}

/// The degree offsets above the key's tonic in the order in which a
/// chord root is looked for: I, V, IV, vi, ii, iii.
pub open spec fn root_priority() -> Seq<int> {
    seq![0int, 7, 5, 9, 2, 4]
}

/// The chosen root is the first degree, in the order I, V, IV, vi, ii,
/// iii of the key, whose pitch class sounds: when the tonic is absent and
/// the dominant sounds, the dominant is chosen, and so on down the list.
pub proof fn lemma_root_first_sounding_degree(ps: Seq<u8>, key_root: u8, i: int)
    requires
        0 <= i < 6,
        ps.contains(((key_root + root_priority()[i]) % 12) as u8),
        forall|j: int| 0 <= j < i ==> !ps.contains(((key_root + #[trigger] root_priority()[j]) % 12) as u8),
    ensures
        most_likely_root(ps, key_root) == ((key_root + root_priority()[i]) % 12) as u8,
{
    let d = root_priority();
    assert(d[0] == 0 && d[1] == 7 && d[2] == 5 && d[3] == 9 && d[4] == 2 && d[5] == 4);
    if i >= 1 {
        assert(!ps.contains(((key_root + d[0]) % 12) as u8));
    }
    if i >= 2 {
        assert(!ps.contains(((key_root + d[1]) % 12) as u8));
    }
    if i >= 3 {
        assert(!ps.contains(((key_root + d[2]) % 12) as u8));
    }
    if i >= 4 {
        assert(!ps.contains(((key_root + d[3]) % 12) as u8));
    }
    if i >= 5 {
        assert(!ps.contains(((key_root + d[4]) % 12) as u8));
    }
}

/// When no degree I, V, IV, vi, ii or iii of the key sounds, the first
/// pitch class is taken as the root.
pub proof fn lemma_root_without_degree(ps: Seq<u8>, key_root: u8)
    requires
        ps.len() > 0,
        forall|j: int| 0 <= j < 6 ==> !ps.contains(((key_root + #[trigger] root_priority()[j]) % 12) as u8),
    ensures
        most_likely_root(ps, key_root) == ps[0],
{
    let d = root_priority();
    assert(d[0] == 0 && d[1] == 7 && d[2] == 5 && d[3] == 9 && d[4] == 2 && d[5] == 4);
    assert(!ps.contains(((key_root + d[0]) % 12) as u8));
    assert(!ps.contains(((key_root + d[1]) % 12) as u8));
    assert(!ps.contains(((key_root + d[2]) % 12) as u8));
    assert(!ps.contains(((key_root + d[3]) % 12) as u8));
    assert(!ps.contains(((key_root + d[4]) % 12) as u8));
    assert(!ps.contains(((key_root + d[5]) % 12) as u8));
}

} // verus!
