//! The melody notes a performance is compared against: the pitched notes of
//! voice 1 of a measure with their offsets in divisions. Rests, grace notes
//! and chord members are left out; every note that is not a chord member
//! moves the measure's clock, whatever its voice.
use vstd::prelude::*;
use crate::model::{Note, Pitch, step_semitone, alter_round, pitch_name, pitch_to_name, step_to_semitone, alter_rounded};

verus! {

/// MIDI number of a pitch with its alteration rounded to whole semitones
/// (halves away from zero).
pub open spec fn rounded_midi(p: Pitch) -> int {
    (p.octave + 1) * 12 + step_semitone(p.step@) + alter_round(p.alter_cents)
}

/// The intermediate results of `pitch_to_midi` fit in `i32`.
pub open spec fn rounded_midi_in_range(p: Pitch) -> bool {
    &&& i32::MIN <= (p.octave + 1) * 12
    &&& (p.octave + 1) * 12 + step_semitone(p.step@) <= i32::MAX
    &&& i32::MIN <= rounded_midi(p) <= i32::MAX
    &&& p.octave < i32::MAX
}

/// MIDI number of a pitch, its alteration rounded (see `rounded_midi`).
pub fn pitch_to_midi(pitch: &Pitch) -> (r: i32)
    requires
        rounded_midi_in_range(*pitch),
    ensures
        r == rounded_midi(*pitch),
{
    let step = step_to_semitone(&pitch.step);
    let alter = alter_rounded(pitch.alter_cents);
    (pitch.octave + 1) * 12 + step + alter
}

/// A melody note of a measure.
#[derive(Debug, Clone)]
pub struct TimelineNote {
    /// Onset in divisions from the start of the measure
    pub offset: i128,
    /// Duration in divisions
    pub duration: i32,
    /// MIDI note number, alteration rounded
    pub midi: i32,
    /// Pitch name, such as "C4", "F#3", "Bb5"
    pub name: String,
}

/// Whether a note belongs to the melody: a pitched note of voice 1 (the
/// default voice) that is neither a rest, a grace note nor a chord member.
pub open spec fn melody_note(n: Note) -> bool {
    &&& !n.rest
    &&& !n.grace
    &&& !n.chord
    &&& (match n.voice {
        Some(v) => v == 1,
        None => true,
    })
    &&& n.pitch is Some
}

/// The measure's clock after notes `ns`: the durations of the notes that
/// are not chord members.
pub open spec fn timeline_clock(ns: Seq<Note>) -> int
    decreases ns.len(),
{
    if ns.len() == 0 {
        0
    } else {
        timeline_clock(ns.drop_last()) + if ns.last().chord {
            0
        } else {
            ns.last().duration as int
        }
    }
}

/// The melody notes among `ns` as (offset, duration, MIDI number, name).
pub open spec fn timeline_entries(ns: Seq<Note>) -> Seq<(int, int, int, Seq<char>)>
    decreases ns.len(),
{
    if ns.len() == 0 {
        Seq::empty()
    } else {
        let n = ns.last();
        let prev = timeline_entries(ns.drop_last());
        if melody_note(n) {
            prev.push((timeline_clock(ns.drop_last()), n.duration as int, rounded_midi(n.pitch->0), pitch_name(n.pitch->0)))
        } else {
            prev
        }
    }
}

proof fn lemma_clock_bound(ns: Seq<Note>)
    ensures
        -(ns.len() as int) * 0x8000_0000 <= timeline_clock(ns) <= (ns.len() as int) * 0x8000_0000,
    decreases ns.len(),
{
    if ns.len() > 0 {
        lemma_clock_bound(ns.drop_last());
    }
}

/// The melody notes of a measure in note order (see `timeline_entries`).
pub fn measure_timeline(notes: &Vec<Note>) -> (r: Vec<TimelineNote>)
    requires
        forall|t: int|
            0 <= t < notes@.len() ==> match (#[trigger] notes@[t]).pitch {
                Some(p) => rounded_midi_in_range(p),
                None => true,
            },
    ensures
        r@.len() == timeline_entries(notes@).len(),
        forall|i: int|
            0 <= i < r@.len() ==> ((#[trigger] r@[i]).offset as int, r@[i].duration as int, r@[i].midi as int, r@[i].name@)
                == timeline_entries(notes@)[i],
{
    let ghost ns = notes@;
    let mut out: Vec<TimelineNote> = Vec::new();
    let mut clock: i128 = 0;
    let mut k: usize = 0;
    while k < notes.len()
        invariant
            ns == notes@,
            k <= ns.len(),
            clock == timeline_clock(ns.take(k as int)),
            out@.len() == timeline_entries(ns.take(k as int)).len(),
            forall|i: int|
                0 <= i < out@.len() ==> ((#[trigger] out@[i]).offset as int, out@[i].duration as int, out@[i].midi as int, out@[i].name@)
                    == timeline_entries(ns.take(k as int))[i],
            forall|t: int|
                0 <= t < ns.len() ==> match (#[trigger] ns[t]).pitch {
                    Some(p) => rounded_midi_in_range(p),
                    None => true,
                },
        decreases ns.len() - k,
    {
        proof {
            let before = ns.take(k as int);
            assert(ns.take(k + 1).drop_last() == before);
            assert(ns.take(k + 1).last() == ns[k as int]);
            lemma_clock_bound(before);
        }
        let n = &notes[k];
        let voice_one = match n.voice {
            Some(v) => v == 1,
            None => true,
        };
        if !n.rest && !n.grace && !n.chord && voice_one {
            if let Some(p) = &n.pitch {
                let e = TimelineNote { offset: clock, duration: n.duration, midi: pitch_to_midi(p), name: pitch_to_name(p) };
                out.push(e);
            }
        }
        if !n.chord {
            clock = clock + n.duration as i128;
        }
        k = k + 1;
    }
    assert(ns.take(ns.len() as int) == ns);
    out
}


proof fn lemma_entries_before_clock(ns: Seq<Note>)
    requires
        forall|t: int| 0 <= t < ns.len() ==> (#[trigger] ns[t]).duration >= 0,
    ensures
        forall|i: int| 0 <= i < timeline_entries(ns).len() ==> (#[trigger] timeline_entries(ns)[i]).0 <= timeline_clock(ns),
        forall|i: int, j: int|
            0 <= i <= j < timeline_entries(ns).len() ==> (#[trigger] timeline_entries(ns)[i]).0
                <= (#[trigger] timeline_entries(ns)[j]).0,
    decreases ns.len(),
{
    if ns.len() > 0 {
        let prev = ns.drop_last();
        assert forall|t: int| 0 <= t < prev.len() implies (#[trigger] prev[t]).duration >= 0 by {
            assert(prev[t] == ns[t]);
        }
        lemma_entries_before_clock(prev);
        assert(ns.last() == ns[ns.len() - 1]);
        let p = timeline_entries(prev);
        let e = timeline_entries(ns);
        assert(timeline_clock(prev) <= timeline_clock(ns));
        if melody_note(ns.last()) {
            assert(e.len() == p.len() + 1);
            assert(e.last().0 == timeline_clock(prev));
            assert forall|i: int| 0 <= i < e.len() implies (#[trigger] e[i]).0 <= timeline_clock(ns) by {
                if i < p.len() {
                    assert(e[i] == p[i]);
                }
            }
            assert forall|i: int, j: int| 0 <= i <= j < e.len() implies (#[trigger] e[i]).0 <= (#[trigger] e[j]).0 by {
                if j < p.len() {
                    assert(e[i] == p[i] && e[j] == p[j]);
                    assert(p[i].0 <= p[j].0);
                } else if i < p.len() {
                    assert(e[i] == p[i]);
                    assert(p[i].0 <= timeline_clock(prev));
                }
            }
        } else {
            assert(e == p);
        }
    }
}

/// Law: when no note has a negative duration, a measure's melody notes come
/// in order of their offsets.
pub proof fn lemma_timeline_in_order(ns: Seq<Note>)
    requires
        forall|t: int| 0 <= t < ns.len() ==> (#[trigger] ns[t]).duration >= 0,
    ensures
        forall|i: int, j: int|
            0 <= i <= j < timeline_entries(ns).len() ==> (#[trigger] timeline_entries(ns)[i]).0
                <= (#[trigger] timeline_entries(ns)[j]).0,
{
    lemma_entries_before_clock(ns);
}

} // verus!
