//! Data model of a parsed MusicXML score: the musical content that the
//! verified algorithms read (pitches, durations, key and time signatures,
//! barlines, navigation directions, chord symbols).
//!
//! Chromatic alterations are held in cents (hundredths of a semitone), so
//! that a flat is `Some(-100)` and a sharp `Some(100)`.
use vstd::prelude::*;
use crate::text::{str_to_chars, chars_to_string, push_signed_decimal, signed_decimal};

verus! {

/// A complete musical score.
#[derive(Debug, Clone)]
pub struct Score {
    /// Title of the piece
    pub title: Option<String>,
    /// Subtitle
    pub subtitle: Option<String>,
    /// Composer name
    pub composer: Option<String>,
    /// Arranger name
    pub arranger: Option<String>,
    /// MusicXML version (e.g. "3.1", "4.0")
    pub version: Option<String>,
    /// Software that created the file
    pub software: Option<String>,
    /// Musical parts (instruments)
    pub parts: Vec<Part>,
}

/// A musical part (one instrument or voice).
#[derive(Debug, Clone)]
pub struct Part {
    /// Part identifier (e.g. "P1")
    pub id: String,
    /// Part name (e.g. "Classical Guitar")
    pub name: String,
    /// Abbreviated name (e.g. "Guit.")
    pub abbreviation: Option<String>,
    /// MIDI program number
    pub midi_program: Option<i32>,
    /// MIDI channel
    pub midi_channel: Option<i32>,
    /// Ordered list of measures
    pub measures: Vec<Measure>,
}

/// A single measure (bar) of music.
#[derive(Debug, Clone)]
pub struct Measure {
    /// Measure number
    pub number: i32,
    /// Whether this is an implicit measure (pickup / anacrusis)
    pub implicit: bool,
    /// Attributes (key, time, clef); present only where they change
    pub attributes: Option<Attributes>,
    /// Notes and rests in this measure
    pub notes: Vec<Note>,
    /// Chord symbols
    pub harmonies: Vec<Harmony>,
    /// Barlines (repeat signs, double bars, ...)
    pub barlines: Vec<Barline>,
    /// Direction elements (tempo, text, navigation marks)
    pub directions: Vec<Direction>,
    /// Whether this measure starts a new system
    pub new_system: bool,
    /// Whether this measure starts a new page
    pub new_page: bool,
}

/// Musical attributes that may change at the start of a measure.
#[derive(Debug, Clone)]
pub struct Attributes {
    /// Divisions per quarter note
    pub divisions: Option<i32>,
    /// Key signature
    pub key: Option<Key>,
    /// Time signature
    pub time: Option<TimeSignature>,
    /// Clef(s), one per staff
    pub clefs: Vec<Clef>,
    /// Transposition
    pub transpose: Option<Transpose>,
    /// Number of staves in the part
    pub staves: Option<i32>,
}

/// Key signature.
#[derive(Debug, Clone)]
pub struct Key {
    /// Number of sharps (positive) or flats (negative)
    pub fifths: i32,
    /// Mode (e.g. "major", "minor")
    pub mode: Option<String>,
}

/// Time signature.
#[derive(Debug, Clone)]
pub struct TimeSignature {
    /// Numerator (e.g. 3 in 3/4)
    pub beats: i32,
    /// Denominator (e.g. 4 in 3/4)
    pub beat_type: i32,
}

/// Clef definition.
#[derive(Debug, Clone)]
pub struct Clef {
    /// Staff number this clef belongs to (1-based)
    pub number: i32,
    /// Clef sign: "G", "F" or "C"
    pub sign: String,
    /// Staff line the clef sits on
    pub line: i32,
    /// Octave transposition
    pub octave_change: Option<i32>,
}

/// Transposition information.
#[derive(Debug, Clone)]
pub struct Transpose {
    pub diatonic: i32,
    pub chromatic: i32,
    pub octave_change: Option<i32>,
}

/// A single note or rest.
#[derive(Debug, Clone)]
pub struct Note {
    /// Pitch (None for a rest)
    pub pitch: Option<Pitch>,
    /// Duration in divisions
    pub duration: i32,
    /// Voice number
    pub voice: Option<i32>,
    /// Note type: "whole", "half", "quarter", ...
    pub note_type: Option<String>,
    /// Stem direction: "up" or "down"
    pub stem: Option<String>,
    /// Beam information
    pub beams: Vec<Beam>,
    /// Whether this is a rest
    pub rest: bool,
    /// Whether this rest fills the whole measure
    pub measure_rest: bool,
    /// Whether this note sounds together with the previous note
    pub chord: bool,
    /// Whether the note is dotted
    pub dot: bool,
    /// Accidental: "sharp", "flat", "natural", ...
    pub accidental: Option<String>,
    /// Whether this note starts a tie
    pub tie_start: bool,
    /// Whether this note ends a tie
    pub tie_stop: bool,
    /// Staff number (1-based)
    pub staff: Option<i32>,
    /// Lyrics attached to this note
    pub lyrics: Vec<Lyric>,
    /// Whether this is a grace note
    pub grace: bool,
    /// Whether this grace note is slashed
    pub grace_slash: bool,
    /// Slur events on this note
    pub slurs: Vec<SlurEvent>,
}

/// A slur start or stop event on a note.
#[derive(Debug, Clone)]
pub struct SlurEvent {
    /// "start" or "stop"
    pub slur_type: String,
    /// Slur number for matching pairs
    pub number: i32,
    /// "above" or "below"
    pub placement: Option<String>,
}

/// A lyric syllable attached to a note.
#[derive(Debug, Clone)]
pub struct Lyric {
    /// Lyric line number
    pub number: i32,
    /// The text of this syllable
    pub text: String,
    /// "single", "begin", "middle" or "end"
    pub syllabic: Option<String>,
}

/// Pitch of a note.
#[derive(Debug, Clone)]
pub struct Pitch {
    /// Note name: A, B, C, D, E, F or G
    pub step: String,
    /// Octave number (middle C = C4)
    pub octave: i32,
    /// Chromatic alteration in cents (100 = sharp, -100 = flat)
    pub alter_cents: Option<i32>,
}

/// Beam grouping information.
#[derive(Debug, Clone)]
pub struct Beam {
    /// Beam level (1 = eighth, 2 = sixteenth, ...)
    pub number: i32,
    /// "begin", "continue" or "end"
    pub beam_type: String,
}

/// A chord symbol.
#[derive(Debug, Clone)]
pub struct Harmony {
    /// Root note
    pub root: HarmonyRoot,
    /// Chord quality: "major", "minor", "dominant", ...
    pub kind: String,
    /// Bass note (for slash chords)
    pub bass: Option<HarmonyRoot>,
    /// Position of the symbol within the measure, in divisions
    pub offset_divisions: i32,
}

/// Root or bass note of a harmony.
#[derive(Debug, Clone)]
pub struct HarmonyRoot {
    /// Note name: A to G
    pub step: String,
    /// Alteration in cents
    pub alter_cents: Option<i32>,
}

/// A barline, possibly with a repeat sign or a volta bracket.
#[derive(Debug, Clone)]
pub struct Barline {
    /// "left", "right" or "middle"
    pub location: String,
    /// Visual style
    pub bar_style: Option<String>,
    /// Repeat sign
    pub repeat: Option<Repeat>,
    /// Volta bracket (1st / 2nd ending)
    pub ending: Option<Ending>,
}

/// A repeat sign on a barline.
#[derive(Debug, Clone)]
pub struct Repeat {
    /// "forward" or "backward"
    pub direction: String,
}

/// A volta bracket.
#[derive(Debug, Clone)]
pub struct Ending {
    /// Ending number(s), e.g. "1", "2", "1, 2", "1-3"
    pub number: String,
    /// "start", "stop" or "discontinue"
    pub ending_type: String,
    /// Display text
    pub text: Option<String>,
}

/// A direction element (text, navigation marks, metronome marking).
#[derive(Debug, Clone)]
pub struct Direction {
    /// "above" or "below"
    pub placement: Option<String>,
    /// `<sound tempo>`: quarter notes per minute, in thousandths
    pub sound_tempo_milli: Option<i64>,
    /// Metronome marking
    pub metronome: Option<MetronomeMark>,
    /// Text words (e.g. "Allegro", "D.S. al Fine")
    pub words: Option<String>,
    /// Segno sign
    pub segno: bool,
    /// Coda sign
    pub coda: bool,
    /// Rehearsal mark text
    pub rehearsal: Option<String>,
    /// `<sound dacapo="yes">`
    pub sound_dacapo: bool,
    /// `<sound dalsegno=...>`
    pub sound_dalsegno: bool,
    /// `<sound fine=...>`
    pub sound_fine: bool,
    /// `<sound tocoda=...>`
    pub sound_tocoda: bool,
    /// Font style of the words
    pub words_font_style: Option<String>,
    /// Octave shift type: "down", "up" or "stop"
    pub octave_shift_type: Option<String>,
    /// Octave shift size: 8, 15 or 22
    pub octave_shift_size: i32,
}

/// A metronome marking (e.g. quarter = 120).
#[derive(Debug, Clone)]
pub struct MetronomeMark {
    /// Beat unit: "whole", "half", "quarter", ...
    pub beat_unit: String,
    /// Beats per minute
    pub per_minute: i32,
    /// Whether the beat unit is dotted
    pub dotted: bool,
}

// ─── Pitch arithmetic ────────────────────────────────────────────────────

/// Semitone of a step name above C; unknown names count as C.
pub open spec fn step_semitone(step: Seq<char>) -> int {
    if step == seq!['C'] {
        0
    } else if step == seq!['D'] {
        2
    } else if step == seq!['E'] {
        4
    } else if step == seq!['F'] {
        5
    } else if step == seq!['G'] {
        7
    } else if step == seq!['A'] {
        9
    } else if step == seq!['B'] {
        11
    } else {
        0
    }
}

/// An alteration in cents converted to whole semitones by truncation
/// toward zero (the conversion `alter as i32` of a decimal alteration).
pub open spec fn alter_trunc(cents: Option<i32>) -> int {
    match cents {
        Some(c) => if c >= 0 {
            c / 100
        } else {
            -((-c) / 100)
        },
        None => 0,
    }
}

/// An alteration in cents rounded to whole semitones, halves away from
/// zero (`alter.round()`).
pub open spec fn alter_round(cents: Option<i32>) -> int {
    match cents {
        Some(c) => if c >= 0 {
            (c + 50) / 100
        } else {
            -((-c + 50) / 100)
        },
        None => 0,
    }
}

/// MIDI note number of a pitch: `(octave + 1) * 12 + step + alter`.
pub open spec fn midi_of(p: Pitch) -> int {
    (p.octave + 1) * 12 + step_semitone(p.step@) + alter_trunc(p.alter_cents)
}

/// The intermediate results of `Pitch::to_midi` fit in `i32`.
pub open spec fn midi_in_range(p: Pitch) -> bool {
    &&& i32::MIN <= (p.octave + 1) * 12
    &&& (p.octave + 1) * 12 + step_semitone(p.step@) <= i32::MAX
    &&& i32::MIN <= midi_of(p) <= i32::MAX
    &&& p.octave < i32::MAX
}

/// Whether the MIDI number of the pitch can be computed (`midi_in_range`).
pub fn pitch_midi_fits(p: &Pitch) -> (b: bool)
    ensures
        b == midi_in_range(*p),
{
    let base: i64 = (p.octave as i64 + 1) * 12;
    let st: i64 = step_to_semitone(&p.step) as i64;
    let al: i64 = alter_to_semitones(p.alter_cents) as i64;
    base >= -2147483648 && base + st <= 2147483647 && base + st + al >= -2147483648 && base + st + al
        <= 2147483647 && p.octave < 2147483647
}

/// Semitone of a one-letter step name above C (unknown names count as C).
pub fn step_to_semitone(step: &String) -> (r: i32)
    ensures
        r == step_semitone(step@),
{
    let s = step.as_str();
    proof {
        assert(seq!['C'].len() == 1);
    }
    if s.unicode_len() != 1 {
        return 0;
    }
    let c = s.get_char(0);
    proof {
        assert(s@ == seq![c]);
    }
    if c == 'C' {
        0
    } else if c == 'D' {
        2
    } else if c == 'E' {
        4
    } else if c == 'F' {
        5
    } else if c == 'G' {
        7
    } else if c == 'A' {
        9
    } else if c == 'B' {
        11
    } else {
        proof {
            assert(seq![c] != seq!['C']) by { assert(seq![c][0] != seq!['C'][0]); }
            assert(seq![c] != seq!['D']) by { assert(seq![c][0] != seq!['D'][0]); }
            assert(seq![c] != seq!['E']) by { assert(seq![c][0] != seq!['E'][0]); }
            assert(seq![c] != seq!['F']) by { assert(seq![c][0] != seq!['F'][0]); }
            assert(seq![c] != seq!['G']) by { assert(seq![c][0] != seq!['G'][0]); }
            assert(seq![c] != seq!['A']) by { assert(seq![c][0] != seq!['A'][0]); }
            assert(seq![c] != seq!['B']) by { assert(seq![c][0] != seq!['B'][0]); }
        }
        0
    }
}

/// Alteration in cents truncated to whole semitones.
pub fn alter_to_semitones(cents: Option<i32>) -> (r: i32)
    ensures
        r == alter_trunc(cents),
{
    match cents {
        Some(c) => {
            if c >= 0 {
                c / 100
            } else {
                let m: i64 = -(c as i64);
                let q: i64 = m / 100;
                (-q) as i32
            }
        },
        None => 0,
    }
}

/// Alteration in cents rounded to whole semitones, halves away from zero.
pub fn alter_rounded(cents: Option<i32>) -> (r: i32)
    ensures
        r == alter_round(cents),
{
    match cents {
        Some(c) => {
            let m: i64 = c as i64;
            if m >= 0 {
                ((m + 50) / 100) as i32
            } else {
                let q: i64 = (-m + 50) / 100;
                (-q) as i32
            }
        },
        None => 0,
    }
}

/// The accidental written in a pitch's name: "#" from a semitone up,
/// "b" from a semitone down, nothing in between.
pub open spec fn name_accidental(cents: Option<i32>) -> Seq<char> {
    match cents {
        Some(c) => if c >= 100 {
            seq!['#']
        } else if c <= -100 {
            seq!['b']
        } else {
            Seq::empty()
        },
        None => Seq::empty(),
    }
}

/// A pitch's name: step, accidental, octave, such as "C4", "F#3", "Bb5".
pub open spec fn pitch_name(p: Pitch) -> Seq<char> {
    p.step@ + name_accidental(p.alter_cents) + signed_decimal(p.octave as int)
}

/// The name of a pitch (see `pitch_name`).
pub fn pitch_to_name(pitch: &Pitch) -> (s: String)
    ensures
        s@ == pitch_name(*pitch),
{
    let mut v = str_to_chars(pitch.step.as_str());
    match pitch.alter_cents {
        Some(c) => {
            if c >= 100 {
                v.push('#');
            } else if c <= -100 {
                v.push('b');
            }
        },
        None => {},
    }
    assert(v@ == pitch.step@ + name_accidental(pitch.alter_cents));
    push_signed_decimal(&mut v, pitch.octave);
    chars_to_string(&v)
}

impl Pitch {
    /// MIDI note number of this pitch; middle C (C4) is 60.
    pub fn to_midi(&self) -> (r: i32)
        requires
            midi_in_range(*self),
        ensures
            r == midi_of(*self),
    {
        let step_semitone = step_to_semitone(&self.step);
        let alter = alter_to_semitones(self.alter_cents);
        (self.octave + 1) * 12 + step_semitone + alter
    }
}

impl Score {
    /// A new empty score.
    pub fn new() -> (s: Self)
        ensures
            s.parts@.len() == 0,
            s.title is None,
            s.subtitle is None,
            s.composer is None,
            s.arranger is None,
            s.version is None,
            s.software is None,
    {
        Score {
            title: None,
            subtitle: None,
            composer: None,
            arranger: None,
            version: None,
            software: None,
            parts: Vec::new(),
        }
    }

    /// Number of measures of the first part (0 without parts).
    pub fn measure_count(&self) -> (n: usize)
        ensures
            n == (if self.parts@.len() == 0 {
                0
            } else {
                self.parts@[0].measures@.len()
            }),
    {
        if self.parts.len() == 0 {
            0
        } else {
            self.parts[0].measures.len()
        }
    }
}

// ─── Time signatures of a score ───────────────────────────────────────────

/// The time signature a measure sets, as (beats, beat type).
pub open spec fn measure_time(m: Measure) -> Option<(i32, i32)> {
    match m.attributes {
        Some(a) => match a.time {
            Some(t) => Some((t.beats, t.beat_type)),
            None => None,
        },
        None => None,
    }
}

/// The time signatures set by measures, in order.
pub open spec fn times_in(ms: Seq<Measure>) -> Seq<(i32, i32)>
    decreases ms.len(),
{
    if ms.len() == 0 {
        Seq::empty()
    } else {
        match measure_time(ms.last()) {
            Some(t) => times_in(ms.drop_last()).push(t),
            None => times_in(ms.drop_last()),
        }
    }
}

/// The time signatures set in the parts, part after part.
pub open spec fn times_of_parts(ps: Seq<Part>) -> Seq<(i32, i32)>
    decreases ps.len(),
{
    if ps.len() == 0 {
        Seq::empty()
    } else {
        times_of_parts(ps.drop_last()) + times_in(ps.last().measures@)
    }
}

/// The distinct elements of a sequence, in order of first appearance.
pub open spec fn distinct_in_order(s: Seq<(i32, i32)>) -> Seq<(i32, i32)>
    decreases s.len(),
{
    if s.len() == 0 {
        Seq::empty()
    } else {
        let d = distinct_in_order(s.drop_last());
        if d.contains(s.last()) {
            d
        } else {
            d.push(s.last())
        }
    }
}

pub open spec fn sig_views(v: Seq<&TimeSignature>) -> Seq<(i32, i32)> {
    v.map_values(|t: &TimeSignature| (t.beats, t.beat_type))
}

fn sig_listed(sigs: &Vec<&TimeSignature>, t: &TimeSignature) -> (r: bool)
    ensures
        r == sig_views(sigs@).contains((t.beats, t.beat_type)),
{
    let mut k: usize = 0;
    while k < sigs.len()
        invariant
            k <= sigs@.len(),
            forall|j: int| 0 <= j < k ==> sig_views(sigs@)[j] != (t.beats, t.beat_type),
        decreases sigs@.len() - k,
    {
        if sigs[k].beats == t.beats && sigs[k].beat_type == t.beat_type {
            assert(sig_views(sigs@)[k as int] == (t.beats, t.beat_type));
            return true;
        }
        k = k + 1;
    }
    false
}

impl Score {
    /// The distinct time signatures of the score, in order of first
    /// appearance (parts in order, measures in order).
    pub fn time_signatures(&self) -> (sigs: Vec<&TimeSignature>)
        ensures
            sig_views(sigs@) == distinct_in_order(times_of_parts(self.parts@)),
    {
        let mut sigs: Vec<&TimeSignature> = Vec::new();
        let ghost ps = self.parts@;
        let mut i: usize = 0;
        while i < self.parts.len()
            invariant
                ps == self.parts@,
                i <= ps.len(),
                sig_views(sigs@) == distinct_in_order(times_of_parts(ps.take(i as int))),
            decreases ps.len() - i,
        {
            proof {
                assert(ps.take(i + 1).drop_last() == ps.take(i as int));
                assert(ps.take(i + 1).last() == ps[i as int]);
                assert(times_in(ps[i as int].measures@.take(0)) == Seq::<(i32, i32)>::empty());
                assert(times_of_parts(ps.take(i as int)) + Seq::<(i32, i32)>::empty() =~= times_of_parts(
                    ps.take(i as int),
                ));
            }
            let part = &self.parts[i];
            let ghost before = times_of_parts(ps.take(i as int));
            let ghost ms = part.measures@;
            let mut j: usize = 0;
            while j < part.measures.len()
                invariant
                    ms == part.measures@,
                    j <= ms.len(),
                    sig_views(sigs@) == distinct_in_order(before + times_in(ms.take(j as int))),
                decreases ms.len() - j,
            {
                proof {
                    assert(ms.take(j + 1).drop_last() == ms.take(j as int));
                    assert(ms.take(j + 1).last() == ms[j as int]);
                }
                let m = &part.measures[j];
                if let Some(ref attrs) = m.attributes {
                    if let Some(ref ts) = attrs.time {
                        proof {
                            assert(before + times_in(ms.take(j + 1)) == (before + times_in(
                                ms.take(j as int),
                            )).push((ts.beats, ts.beat_type)));
                        }
                        proof {
                            let x = before + times_in(ms.take(j as int));
                            assert(x.push((ts.beats, ts.beat_type)).drop_last() == x);
                        }
                        if !sig_listed(&sigs, ts) {
                            sigs.push(ts);
                            assert(sig_views(sigs@) =~= distinct_in_order(before + times_in(ms.take(j as int))).push((ts.beats, ts.beat_type)));
                        }
                    }
                }
                j = j + 1;
            }
            proof {
                assert(ms.take(ms.len() as int) == ms);
            }
            i = i + 1;
        }
        proof {
            assert(ps.take(ps.len() as int) == ps);
        }
        sigs
    }
}

} // verus!
