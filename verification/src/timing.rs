//! The exact part of a part's timemap: which tempo mark, time signature and
//! divisions are in force at each measure, and whether a measure lasts its
//! nominal length or, for a pickup, the length of its notes. The caller
//! turns these into milliseconds.
use vstd::prelude::*;
use crate::model::{Part, Measure, Note, Direction};
use crate::text::str_eq;

verus! {

/// Sixty-fourth notes in a beat of the given unit ("whole" 64, "half" 32,
/// "quarter" 16, "eighth" 8, "16th" 4, "32nd" 2; any other name counts as
/// a quarter), half as many again when dotted.
pub open spec fn beat_sixty_fourths(unit: Seq<char>, dotted: bool) -> u32 {
    let base: u32 = if unit == "whole"@ {
        64
    } else if unit == "half"@ {
        32
    } else if unit == "eighth"@ {
        8
    } else if unit == "16th"@ {
        4
    } else if unit == "32nd"@ {
        2
    } else {
        16
    };
    if dotted {
        (base + base / 2) as u32
    } else {
        base
    }
}

/// Length of a metronome mark's beat in sixty-fourth notes (see
/// `beat_sixty_fourths`); a quarter note is 16 of them.
pub fn sixty_fourths_per_beat(beat_unit: &str, dotted: bool) -> (r: u32)
    ensures
        r == beat_sixty_fourths(beat_unit@, dotted),
{
    let base: u32 = if str_eq(beat_unit, "whole") {
        64
    } else if str_eq(beat_unit, "half") {
        32
    } else if str_eq(beat_unit, "eighth") {
        8
    } else if str_eq(beat_unit, "16th") {
        4
    } else if str_eq(beat_unit, "32nd") {
        2
    } else {
        16
    };
    if dotted {
        base + base / 2
    } else {
        base
    }
}

/// The tempo mark in force.
#[derive(Debug, Clone, Copy, PartialEq, Eq, Structural)]
pub enum TempoMark {
    /// No mark yet: the default tempo
    Default,
    /// A `<sound tempo>`, in thousandths of quarter notes per minute
    Sound { milli_bpm: i64 },
    /// A metronome mark: beats per minute and the beat's length in
    /// sixty-fourth notes
    Metronome { per_minute: i32, beat_sixty_fourths: u32 },
}

/// What is in force at a measure.
#[derive(Debug, Clone, Copy, PartialEq, Eq, Structural)]
pub struct MeasureState {
    pub tempo: TempoMark,
    /// Time signature numerator
    pub beats: i32,
    /// Time signature denominator
    pub beat_type: i32,
    /// Divisions per quarter note
    pub divisions: i32,
}

/// Before the first measure: default tempo, 4/4, one division per quarter.
pub open spec fn initial_state() -> MeasureState {
    MeasureState { tempo: TempoMark::Default, beats: 4, beat_type: 4, divisions: 1 }
}

/// The tempo mark after the directions `ds`, starting from `t`: a sound
/// tempo wins over a metronome mark in the same direction, and later
/// directions over earlier ones.
pub open spec fn tempo_after(ds: Seq<Direction>, t: TempoMark) -> TempoMark
    decreases ds.len(),
{
    if ds.len() == 0 {
        t
    } else {
        let before = tempo_after(ds.drop_last(), t);
        let d = ds.last();
        match d.sound_tempo_milli {
            Some(x) => TempoMark::Sound { milli_bpm: x },
            None => match d.metronome {
                Some(mm) => TempoMark::Metronome {
                    per_minute: mm.per_minute,
                    beat_sixty_fourths: beat_sixty_fourths(mm.beat_unit@, mm.dotted),
                },
                None => before,
            },
        }
    }
}

/// The state at measure `m`, the state before it being `prev`.
pub open spec fn state_at(m: Measure, prev: MeasureState) -> MeasureState {
    let (divisions, beats, beat_type) = match m.attributes {
        Some(a) => (
            match a.divisions {
                Some(d) => d,
                None => prev.divisions,
            },
            match a.time {
                Some(t) => t.beats,
                None => prev.beats,
            },
            match a.time {
                Some(t) => t.beat_type,
                None => prev.beat_type,
            },
        ),
        None => (prev.divisions, prev.beats, prev.beat_type),
    };
    MeasureState { tempo: tempo_after(m.directions@, prev.tempo), beats, beat_type, divisions }
}

/// The state at each measure, walking the measures in score order.
pub open spec fn states_of(ms: Seq<Measure>) -> Seq<MeasureState>
    decreases ms.len(),
{
    if ms.len() == 0 {
        Seq::empty()
    } else {
        let s = states_of(ms.drop_last());
        let prev = if s.len() == 0 {
            initial_state()
        } else {
            s.last()
        };
        s.push(state_at(ms.last(), prev))
    }
}

proof fn lemma_states_len(ms: Seq<Measure>)
    ensures
        states_of(ms).len() == ms.len(),
    decreases ms.len(),
{
    if ms.len() > 0 {
        lemma_states_len(ms.drop_last());
    }
}

fn tempo_of_directions(ds: &Vec<Direction>, t: TempoMark) -> (r: TempoMark)
    ensures
        r == tempo_after(ds@, t),
{
    let mut cur = t;
    let mut k: usize = 0;
    while k < ds.len()
        invariant
            k <= ds@.len(),
            cur == tempo_after(ds@.take(k as int), t),
        decreases ds@.len() - k,
    {
        proof {
            assert(ds@.take(k + 1).drop_last() == ds@.take(k as int));
            assert(ds@.take(k + 1).last() == ds@[k as int]);
        }
        let d = &ds[k];
        match d.sound_tempo_milli {
            Some(x) => {
                cur = TempoMark::Sound { milli_bpm: x };
            },
            None => match &d.metronome {
                Some(mm) => {
                    cur = TempoMark::Metronome {
                        per_minute: mm.per_minute,
                        beat_sixty_fourths: sixty_fourths_per_beat(mm.beat_unit.as_str(), mm.dotted),
                    };
                },
                None => {},
            },
        }
        k = k + 1;
    }
    assert(ds@.take(ds@.len() as int) == ds@);
    cur
}

/// The state in force at each measure of a part (see `states_of`): the
/// tempo mark, time signature and divisions last set at or before it.
pub fn precompute_measure_states(part: &Part) -> (r: Vec<MeasureState>)
    ensures
        r@ == states_of(part.measures@),
{
    let ghost ms = part.measures@;
    let mut out: Vec<MeasureState> = Vec::new();
    let mut prev = MeasureState { tempo: TempoMark::Default, beats: 4, beat_type: 4, divisions: 1 };
    let mut k: usize = 0;
    while k < part.measures.len()
        invariant
            ms == part.measures@,
            k <= ms.len(),
            out@ == states_of(ms.take(k as int)),
            prev == if k == 0 {
                initial_state()
            } else {
                out@.last()
            },
        decreases ms.len() - k,
    {
        proof {
            assert(ms.take(k + 1).drop_last() == ms.take(k as int));
            assert(ms.take(k + 1).last() == ms[k as int]);
            lemma_states_len(ms.take(k as int));
        }
        let m = &part.measures[k];
        let mut st = MeasureState { tempo: prev.tempo, beats: prev.beats, beat_type: prev.beat_type, divisions: prev.divisions };
        if let Some(a) = &m.attributes {
            if let Some(d) = a.divisions {
                st.divisions = d;
            }
            if let Some(t) = &a.time {
                st.beats = t.beats;
                st.beat_type = t.beat_type;
            }
        }
        st.tempo = tempo_of_directions(&m.directions, prev.tempo);
        out.push(st);
        prev = st;
        k = k + 1;
    }
    assert(ms.take(ms.len() as int) == ms);
    out
}

/// The divisions the notes of a measure fill: the durations of its notes
/// that are neither chord members nor grace notes.
pub open spec fn note_divisions(ns: Seq<Note>) -> int
    decreases ns.len(),
{
    if ns.len() == 0 {
        0
    } else {
        note_divisions(ns.drop_last()) + if ns.last().chord || ns.last().grace {
            0
        } else {
            ns.last().duration as int
        }
    }
}

proof fn lemma_note_divisions_bound(ns: Seq<Note>)
    ensures
        -(ns.len() as int) * 0x8000_0000 <= note_divisions(ns) <= (ns.len() as int) * 0x8000_0000,
    decreases ns.len(),
{
    if ns.len() > 0 {
        lemma_note_divisions_bound(ns.drop_last());
    }
}

/// The divisions filled by a measure's notes (see `note_divisions`).
pub fn measure_note_divisions(notes: &Vec<Note>) -> (r: i128)
    ensures
        r == note_divisions(notes@),
{
    let ghost ns = notes@;
    let mut total: i128 = 0;
    let mut k: usize = 0;
    while k < notes.len()
        invariant
            ns == notes@,
            k <= ns.len(),
            total == note_divisions(ns.take(k as int)),
        decreases ns.len() - k,
    {
        proof {
            assert(ns.take(k + 1).drop_last() == ns.take(k as int));
            assert(ns.take(k + 1).last() == ns[k as int]);
            lemma_note_divisions_bound(ns.take(k as int));
        }
        let n = &notes[k];
        if !n.chord && !n.grace {
            total = total + n.duration as i128;
        }
        k = k + 1;
    }
    assert(ns.take(ns.len() as int) == ns);
    total
}

/// The time-signature denominator used for lengths: a non-positive one counts as 4.
pub open spec fn safe_beat_type(st: MeasureState) -> int {
    if st.beat_type > 0 {
        st.beat_type as int
    } else {
        4
    }
}

/// Whether a measure lasts as long as its notes rather than its time
/// signature: a pickup (implicit) measure whose notes fill some time, less
/// than the time signature's `4 * beats / beat_type` quarter notes.
pub open spec fn lasts_as_notes(m: Measure, st: MeasureState) -> bool {
    let total = note_divisions(m.notes@);
    &&& m.implicit
    &&& st.divisions > 0
    &&& total > 0
    &&& total * safe_beat_type(st) < 4 * st.beats * st.divisions
}

/// How long a measure counts (see `lasts_as_notes`): `Some(d)` when it
/// lasts its notes' `d` divisions, `None` when it lasts its time signature.
pub fn measure_length(m: &Measure, st: MeasureState) -> (r: Option<i128>)
    ensures
        match r {
            Some(d) => lasts_as_notes(*m, st) && d == note_divisions(m.notes@),
            None => !lasts_as_notes(*m, st),
        },
{
    if !m.implicit || st.divisions <= 0 {
        return None;
    }
    let total = measure_note_divisions(&m.notes);
    proof {
        lemma_note_divisions_bound(m.notes@);
    }
    if total <= 0 {
        return None;
    }
    let n = m.notes.len();
    let bt: i128 = if st.beat_type > 0 { st.beat_type as i128 } else { 4 };
    let b: i128 = st.beats as i128;
    let dv: i128 = st.divisions as i128;
    assert(0 < total * bt < 0x8000_0000_0000_0000_0000_0000_0000_0000) by (nonlinear_arith)
        requires
            total <= (n as int) * 0x8000_0000,
            n <= 0x1_0000_0000_0000_0000,
            0 < total,
            0 < bt <= 0x8000_0000,
    ;
    assert(-0x1_0000_0000_0000_0000_0000 <= 4 * b * dv <= 0x1_0000_0000_0000_0000_0000) by (nonlinear_arith)
        requires
            -0x8000_0000 <= b <= 0x8000_0000,
            -0x8000_0000 <= dv <= 0x8000_0000,
    ;
    if total * bt < 4 * b * dv {
        Some(total)
    } else {
        None
    }
}


proof fn lemma_states_prefix(ms: Seq<Measure>, k: int)
    requires
        0 <= k <= ms.len(),
    ensures
        states_of(ms.take(k)) == states_of(ms).take(k),
    decreases ms.len(),
{
    lemma_states_len(ms);
    if k < ms.len() {
        lemma_states_prefix(ms.drop_last(), k);
        assert(ms.drop_last().take(k) == ms.take(k));
        lemma_states_len(ms.drop_last());
        assert(states_of(ms).take(k) == states_of(ms.drop_last()).take(k));
    } else {
        assert(ms.take(k) == ms);
        assert(states_of(ms).take(k) == states_of(ms));
    }
}

/// Law: the state in force at a measure depends only on the measures up to
/// it in score order, so a jump back to a measure restores the tempo, time
/// signature and divisions it had when first reached.
pub proof fn lemma_state_depends_on_prefix(ms: Seq<Measure>, ms2: Seq<Measure>, j: int)
    requires
        0 <= j < ms.len(),
        j < ms2.len(),
        ms.take(j + 1) == ms2.take(j + 1),
    ensures
        states_of(ms)[j] == states_of(ms2)[j],
{
    lemma_states_prefix(ms, j + 1);
    lemma_states_prefix(ms2, j + 1);
    lemma_states_len(ms);
    lemma_states_len(ms2);
    assert(states_of(ms)[j] == states_of(ms).take(j + 1)[j]);
    assert(states_of(ms2)[j] == states_of(ms2).take(j + 1)[j]);
}

/// Whether measure `m` sets a time signature.
pub open spec fn sets_time(m: Measure) -> bool {
    m.attributes matches Some(a) && a.time is Some
}

/// Law: the time signature in force at a measure is the one it sets;
/// a measure that sets none (no attributes, or attributes without a time
/// signature) keeps the one of the measure before it, and the first
/// measure then counts 4/4.
pub proof fn lemma_time_signature_in_force(ms: Seq<Measure>, k: int)
    requires
        0 <= k < ms.len(),
    ensures
        states_of(ms).len() == ms.len(),
        sets_time(ms[k]) ==> states_of(ms)[k].beats == ms[k].attributes->0.time->0.beats
            && states_of(ms)[k].beat_type == ms[k].attributes->0.time->0.beat_type,
        !sets_time(ms[k]) && k == 0 ==> states_of(ms)[k].beats == 4 && states_of(ms)[k].beat_type == 4,
        !sets_time(ms[k]) && k > 0 ==> states_of(ms)[k].beats == states_of(ms)[k - 1].beats
            && states_of(ms)[k].beat_type == states_of(ms)[k - 1].beat_type,
{
    lemma_states_len(ms);
    lemma_states_prefix(ms, k + 1);
    lemma_states_prefix(ms, k);
    let pre = ms.take(k + 1);
    assert(pre.drop_last() == ms.take(k));
    assert(pre.last() == ms[k]);
    lemma_states_len(ms.take(k));
    assert(states_of(pre)[k] == states_of(ms)[k]);
    if k > 0 {
        assert(states_of(ms.take(k)).last() == states_of(ms)[k - 1]);
    }
}

} // verus!
