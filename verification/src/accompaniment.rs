//! What each accompaniment instrument plays, apart from timing: the notes
//! of the piano's arpeggio and of the string pad for a chord, the walking
//! bass line, the drum kit's hits on a beat and the metronome's click.
//! The caller places them in time and scales their velocities.
use vstd::prelude::*;
use crate::midi::MidiOptions;
use crate::chords::{
    ChordKind, chord_voicing, with_seventh, smoother_voicing, top_interval, seventh_interval,
    get_chord_voicing, add_seventh, get_smoother_voicing, chord_intervals,
};

verus! {

/// A MIDI note number capped at 127.
pub open spec fn capped(x: u8) -> u8 {
    if x > 127 {
        127
    } else {
        x
    }
}

/// Every note capped at 127.
pub open spec fn capped_all(v: Seq<u8>) -> Seq<u8> {
    Seq::new(v.len(), |k: int| capped(v[k]))
}

fn cap_all(v: &[u8]) -> (r: Vec<u8>)
    ensures
        r@ == capped_all(v@),
{
    let mut out: Vec<u8> = Vec::new();
    let mut k: usize = 0;
    while k < v.len()
        invariant
            k <= v@.len(),
            out@ == capped_all(v@.take(k as int)),
        decreases v@.len() - k,
    {
        let x = v[k];
        out.push(if x > 127 { 127 } else { x });
        k = k + 1;
        assert(out@ =~= capped_all(v@.take(k as int)));
    }
    assert(v@.take(v@.len() as int) == v@);
    out
}

proof fn lemma_voicing_facts(root: u8, kind: ChordKind)
    requires
        48 + root + top_interval(kind) <= 255,
    ensures
        3 <= chord_voicing(root, kind).len() <= 4,
        chord_voicing(root, kind)[0] == 48 + root,
{
    assert(chord_voicing(root, kind)[0] == (48 + root + chord_intervals(kind)[0]) as u8);
}

/// The piano's voicing of a chord: the chord with its seventh, moved to the
/// inversion that moves least from the previous voicing.
pub open spec fn piano_voicing(root: u8, kind: ChordKind, previous: Seq<u8>) -> Seq<u8> {
    smoother_voicing(with_seventh(chord_voicing(root, kind), kind), previous)
}

/// The notes the piano plays of a voicing: all but the lowest, which the
/// bass plays (a voicing of one note is played whole), capped at 127.
pub open spec fn piano_keys(v: Seq<u8>) -> Seq<u8> {
    capped_all(
        if v.len() > 1 {
            v.drop_first()
        } else {
            v
        },
    )
}

/// The piano's part of a chord on `root` (a pitch class): (voicing, notes
/// played); the voicing is the `previous` of the next chord.
pub fn piano_chord(root: u8, kind: ChordKind, previous: &[u8]) -> (r: (Vec<u8>, Vec<u8>))
    requires
        48 + root + top_interval(kind) <= 255,
        48 + root + seventh_interval(kind) <= 255,
    ensures
        r.0@ == piano_voicing(root, kind, previous@),
        r.1@ == piano_keys(r.0@),
{
    proof {
        lemma_voicing_facts(root, kind);
    }
    let raw = get_chord_voicing(root, kind);
    let with7 = add_seventh(raw.as_slice(), kind);
    let voicing = get_smoother_voicing(with7.as_slice(), previous);
    let keys = if voicing.len() > 1 {
        let tail = slice_from(voicing.as_slice(), 1);
        cap_all(tail.as_slice())
    } else {
        cap_all(voicing.as_slice())
    };
    (voicing, keys)
}

fn slice_from(v: &[u8], start: usize) -> (r: Vec<u8>)
    requires
        start <= v@.len(),
    ensures
        r@ == v@.skip(start as int),
{
    let mut out: Vec<u8> = Vec::new();
    let mut k: usize = start;
    while k < v.len()
        invariant
            start <= k <= v@.len(),
            out@ == v@.subrange(start as int, k as int),
        decreases v@.len() - k,
    {
        out.push(v[k]);
        k = k + 1;
        assert(out@ =~= v@.subrange(start as int, k as int));
    }
    assert(v@.subrange(start as int, v@.len() as int) =~= v@.skip(start as int));
    out
}

/// The string pad's voicing of a chord: the chord moved to the inversion
/// that moves least from the previous voicing.
pub open spec fn strings_voicing(root: u8, kind: ChordKind, previous: Seq<u8>) -> Seq<u8> {
    smoother_voicing(chord_voicing(root, kind), previous)
}

/// The string pad's part of a chord on `root` (a pitch class): (voicing, notes
/// held, capped at 127); the voicing is the `previous` of the next chord.
pub fn strings_chord(root: u8, kind: ChordKind, previous: &[u8]) -> (r: (Vec<u8>, Vec<u8>))
    requires
        48 + root + top_interval(kind) <= 255,
    ensures
        r.0@ == strings_voicing(root, kind, previous@),
        r.1@ == capped_all(r.0@),
{
    proof {
        lemma_voicing_facts(root, kind);
    }
    let raw = get_chord_voicing(root, kind);
    let voicing = get_smoother_voicing(raw.as_slice(), previous);
    let notes = cap_all(voicing.as_slice());
    (voicing, notes)
}

/// The walking bass of a chord: the root in the bass range (MIDI 36–47),
/// the fifth above it, and the octave above it.
pub fn bass_line(root: u8) -> (r: (u8, u8, u8))
    ensures
        r.0 == 36 + root % 12,
        r.1 == r.0 + 7,
        r.2 == r.0 + 12,
{
    let bass = 36 + root % 12;
    (bass, bass + 7, bass + 12)
}

/// Kick drum, snare drum and closed hi-hat (General MIDI percussion).
pub const KICK: u8 = 36;
pub const SNARE: u8 = 38;
pub const HIHAT_CLOSED: u8 = 42;

/// The drum hits on beat `beat` (0-based) of a measure of `beats` felt
/// beats, as (note, velocity before the energy scaling): the kick on the
/// first beat and, with four beats or more, on the third; the snare on the
/// backbeats; the closed hi-hat on every beat.
pub open spec fn drum_pattern(beat: i32, beats: i32) -> Seq<(u8, u8)> {
    (if beat == 0 || (beats >= 4 && beat == 2) {
        seq![(KICK, 82u8)]
    } else {
        Seq::empty()
    }) + (if beat % 2 == 1 {
        seq![(SNARE, 72u8)]
    } else {
        Seq::empty()
    }) + seq![(HIHAT_CLOSED, 55u8)]
}

/// The drum hits of a beat (see `drum_pattern`).
pub fn drum_hits(beat: i32, beats: i32) -> (r: Vec<(u8, u8)>)
    requires
        beat >= 0,
    ensures
        r@ == drum_pattern(beat, beats),
{
    let mut hits: Vec<(u8, u8)> = Vec::new();
    if beat == 0 || (beats >= 4 && beat == 2) {
        hits.push((KICK, 82));
    }
    if beat % 2 == 1 {
        hits.push((SNARE, 72));
    }
    hits.push((HIHAT_CLOSED, 55));
    assert(hits@ =~= drum_pattern(beat, beats));
    hits
}

/// The metronome's click on beat `beat` (0-based): (note, velocity), the
/// high wood block on the downbeat and the low one on the others.
pub fn metronome_click(beat: i32) -> (r: (u8, u8))
    ensures
        r == (if beat == 0 {
            (76u8, 85u8)
        } else {
            (77u8, 65u8)
        }),
{
    if beat == 0 {
        (76, 85)
    } else {
        (77, 65)
    }
}


// ─── Which instruments play ───────────────────────────────────────────────

/// An accompaniment track.
#[derive(Debug, Clone, Copy, PartialEq, Eq, Structural)]
pub enum Instrument {
    Metronome,
    Piano,
    Bass,
    Strings,
    Drums,
}

/// The accompaniment tracks the options ask for, in the order the file
/// holds them: metronome, piano, bass, strings, drums.
pub open spec fn instrument_plan(o: MidiOptions) -> Seq<Instrument> {
    (if o.include_metronome {
        seq![Instrument::Metronome]
    } else {
        Seq::empty()
    }) + (if o.include_piano {
        seq![Instrument::Piano]
    } else {
        Seq::empty()
    }) + (if o.include_bass {
        seq![Instrument::Bass]
    } else {
        Seq::empty()
    }) + (if o.include_strings {
        seq![Instrument::Strings]
    } else {
        Seq::empty()
    }) + (if o.include_drums {
        seq![Instrument::Drums]
    } else {
        Seq::empty()
    })
}

/// The accompaniment tracks to write (see `instrument_plan`).
pub fn accompaniment_tracks(options: &MidiOptions) -> (r: Vec<Instrument>)
    ensures
        r@ == instrument_plan(*options),
{
    let mut v: Vec<Instrument> = Vec::new();
    if options.include_metronome {
        v.push(Instrument::Metronome);
    }
    if options.include_piano {
        v.push(Instrument::Piano);
    }
    if options.include_bass {
        v.push(Instrument::Bass);
    }
    if options.include_strings {
        v.push(Instrument::Strings);
    }
    if options.include_drums {
        v.push(Instrument::Drums);
    }
    assert(v@ =~= instrument_plan(*options));
    v
}

/// MIDI channel of an instrument: piano 1, bass 2, strings 3, and the
/// percussion channel 9 for the metronome and the drums.
pub fn instrument_channel(i: Instrument) -> (c: u8)
    ensures
        c == match i {
            Instrument::Piano => 1u8,
            Instrument::Bass => 2u8,
            Instrument::Strings => 3u8,
            _ => 9u8,
        },
{
    match i {
        Instrument::Piano => 1,
        Instrument::Bass => 2,
        Instrument::Strings => 3,
        _ => 9,
    }
}

/// General MIDI program of an instrument's channel: acoustic grand piano
/// (0), acoustic bass (32), string ensemble (48); none for percussion.
pub fn instrument_program(i: Instrument) -> (p: Option<u8>)
    ensures
        p == match i {
            Instrument::Piano => Some(0u8),
            Instrument::Bass => Some(32u8),
            Instrument::Strings => Some(48u8),
            _ => None::<u8>,
        },
{
    match i {
        Instrument::Piano => Some(0),
        Instrument::Bass => Some(32),
        Instrument::Strings => Some(48),
        _ => None,
    }
}

/// Name of an instrument's track.
pub fn instrument_track_name(i: Instrument) -> (s: &'static str)
    ensures
        s@ == match i {
            Instrument::Metronome => "Metronome"@,
            Instrument::Piano => "Piano"@,
            Instrument::Bass => "Bass"@,
            Instrument::Strings => "Strings"@,
            Instrument::Drums => "Drums"@,
        },
{
    match i {
        Instrument::Metronome => "Metronome",
        Instrument::Piano => "Piano",
        Instrument::Bass => "Bass",
        Instrument::Strings => "Strings",
        Instrument::Drums => "Drums",
    }
}

} // verus!
