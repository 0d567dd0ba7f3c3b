//! The top layer of a measure: which voices and chords it has, and the
//! simplification used before jianpu rendering, which keeps only the
//! principal notes of voice 1 on one staff.
use vstd::prelude::*;
use crate::model::{Score, Part, Measure, Note, Pitch, Clef, midi_of, midi_in_range, pitch_name, pitch_to_name};
use crate::notation::{detect_staves, staves_drawn, raise_staff, raise_by_clefs, raise_by_notes, MAX_STAVES};
use crate::melody::{voice_key, advances, voice_position, on_staff, lemma_voice_bounds};

verus! {

/// Whether a note sounds: neither a rest nor a grace note.
pub open spec fn sounding(n: Note) -> bool {
    !n.rest && !n.grace
}

/// Whether sounding notes of a measure belong to more than one (staff, voice).
pub open spec fn several_voices(ns: Seq<Note>) -> bool {
    exists|i: int, j: int|
        0 <= i < ns.len() && 0 <= j < ns.len() && sounding(ns[i]) && sounding(ns[j]) && voice_key(
            #[trigger] ns[i],
        ) != voice_key(#[trigger] ns[j])
}

/// Whether more than one (staff, voice) has a sounding note in the measure.
pub fn measure_has_multiple_voices(measure: &Measure) -> (r: bool)
    ensures
        r == several_voices(measure.notes@),
{
    let ghost ns = measure.notes@;
    let mut first: Option<(i32, i32)> = None;
    let mut k: usize = 0;
    while k < measure.notes.len()
        invariant
            ns == measure.notes@,
            k <= ns.len(),
            match first {
                None => forall|t: int| 0 <= t < k ==> !sounding(#[trigger] ns[t]),
                Some(f) => (exists|t: int| 0 <= t < k && sounding(#[trigger] ns[t]) && voice_key(ns[t]) == f)
                    && forall|t: int| 0 <= t < k && sounding(#[trigger] ns[t]) ==> voice_key(ns[t]) == f,
            },
        decreases ns.len() - k,
    {
        let n = &measure.notes[k];
        if !n.rest && !n.grace {
            let s = match n.staff {
                Some(s) => s,
                None => 1,
            };
            let v = match n.voice {
                Some(v) => v,
                None => 1,
            };
            match first {
                None => {
                    first = Some((s, v));
                },
                Some(f) => {
                    if f.0 != s || f.1 != v {
                        proof {
                            let w = choose|t: int| 0 <= t < k && sounding(#[trigger] ns[t]) && voice_key(ns[t]) == f;
                            assert(voice_key(ns[w]) != voice_key(ns[k as int]));
                        }
                        return true;
                    }
                },
            }
        }
        k = k + 1;
    }
    proof {
        assert forall|i: int, j: int|
            0 <= i < ns.len() && 0 <= j < ns.len() && sounding(ns[i]) && sounding(ns[j]) implies voice_key(
            #[trigger] ns[i],
        ) == voice_key(#[trigger] ns[j]) by {}
    }
    false
}

/// Whether some note of the measure is a chord member.
pub fn measure_has_chord(measure: &Measure) -> (r: bool)
    ensures
        r == exists|i: int| 0 <= i < measure.notes@.len() && (#[trigger] measure.notes@[i]).chord,
{
    let mut k: usize = 0;
    while k < measure.notes.len()
        invariant
            k <= measure.notes@.len(),
            forall|i: int| 0 <= i < k ==> !(#[trigger] measure.notes@[i]).chord,
        decreases measure.notes@.len() - k,
    {
        if measure.notes[k].chord {
            assert(measure.notes@[k as int].chord);
            return true;
        }
        k = k + 1;
    }
    false
}

// ─── Top layer of a measure ───────────────────────────────────────────────

/// The clock of voice `vk` at its last note among `ns` that moves the
/// clock (0 without one): the beat a chord member sounds at.
pub open spec fn voice_last_start(ns: Seq<Note>, vk: (i32, i32)) -> int
    decreases ns.len(),
{
    if ns.len() == 0 {
        0
    } else if advances(ns.last()) && voice_key(ns.last()) == vk {
        voice_position(ns.drop_last(), vk)
    } else {
        voice_last_start(ns.drop_last(), vk)
    }
}

/// Beat position of note `j` of a measure, in divisions from its start:
/// a chord member sounds at its voice's last start, any other note
/// (grace notes included) at its voice's clock.
pub open spec fn beat_position(ns: Seq<Note>, j: int) -> int {
    let before = ns.take(j);
    let vk = voice_key(ns[j]);
    if !ns[j].grace && ns[j].chord {
        voice_last_start(before, vk)
    } else {
        voice_position(before, vk)
    }
}

proof fn lemma_last_start_bound(ns: Seq<Note>, vk: (i32, i32))
    ensures
        -(ns.len() as int) * 0x8000_0000 <= voice_last_start(ns, vk) <= (ns.len() as int) * 0x8000_0000,
    decreases ns.len(),
{
    if ns.len() > 0 {
        lemma_last_start_bound(ns.drop_last(), vk);
        lemma_voice_bounds(ns.drop_last(), vk);
    }
}

/// The clock and the last start of voice `vk` after the first `j` notes.
fn voice_clock_before(notes: &Vec<Note>, j: usize, vk: (i32, i32)) -> (r: (i128, i128))
    requires
        j <= notes@.len(),
    ensures
        r.0 == voice_position(notes@.take(j as int), vk),
        r.1 == voice_last_start(notes@.take(j as int), vk),
{
    let ghost ns = notes@;
    let mut pos: i128 = 0;
    let mut last: i128 = 0;
    let mut k: usize = 0;
    while k < j
        invariant
            ns == notes@,
            k <= j <= ns.len(),
            pos == voice_position(ns.take(k as int), vk),
            last == voice_last_start(ns.take(k as int), vk),
        decreases j - k,
    {
        proof {
            let before = ns.take(k as int);
            assert(ns.take(k + 1).drop_last() == before);
            assert(ns.take(k + 1).last() == ns[k as int]);
            lemma_voice_bounds(before, vk);
        }
        let n = &notes[k];
        let s = match n.staff {
            Some(s) => s,
            None => 1,
        };
        let v = match n.voice {
            Some(v) => v,
            None => 1,
        };
        if !n.grace && !n.chord && s == vk.0 && v == vk.1 {
            last = pos;
            pos = pos + n.duration as i128;
        }
        k = k + 1;
    }
    (pos, last)
}

/// The beat position of every note of a measure (see `beat_position`).
fn beat_positions(notes: &Vec<Note>) -> (r: Vec<i128>)
    ensures
        r@.len() == notes@.len(),
        forall|j: int| 0 <= j < r@.len() ==> r@[j] == beat_position(notes@, j),
{
    let mut out: Vec<i128> = Vec::new();
    let mut j: usize = 0;
    while j < notes.len()
        invariant
            j <= notes@.len(),
            out@.len() == j,
            forall|t: int| 0 <= t < j ==> out@[t] == beat_position(notes@, t),
        decreases notes@.len() - j,
    {
        let n = &notes[j];
        let s = match n.staff {
            Some(s) => s,
            None => 1,
        };
        let v = match n.voice {
            Some(v) => v,
            None => 1,
        };
        let (pos, last) = voice_clock_before(notes, j, (s, v));
        if !n.grace && n.chord {
            out.push(last);
        } else {
            out.push(pos);
        }
        j = j + 1;
    }
    out
}

/// The lowest voice number among the sounding notes of a staff (None when
/// the staff has none).
pub open spec fn lowest_voice(ns: Seq<Note>, staff: i32) -> Option<i32>
    decreases ns.len(),
{
    if ns.len() == 0 {
        None
    } else {
        let rest = lowest_voice(ns.drop_last(), staff);
        let n = ns.last();
        if sounding(n) && voice_key(n).0 == staff {
            match rest {
                Some(v) => Some(
                    if voice_key(n).1 < v {
                        voice_key(n).1
                    } else {
                        v
                    },
                ),
                None => Some(voice_key(n).1),
            }
        } else {
            rest
        }
    }
}

/// The top voice of a staff: its lowest sounding voice number, 1 when the
/// staff has no sounding note.
pub open spec fn top_voice(ns: Seq<Note>, staff: i32) -> i32 {
    match lowest_voice(ns, staff) {
        Some(v) => v,
        None => 1,
    }
}

/// Whether note `j` may stand in the top layer: a pitched note, not a
/// grace note, of its staff's top voice.
pub open spec fn top_candidate(ns: Seq<Note>, j: int) -> bool {
    &&& 0 <= j < ns.len()
    &&& !ns[j].grace
    &&& ns[j].pitch is Some
    &&& voice_key(ns[j]).1 == top_voice(ns, voice_key(ns[j]).0)
}

/// Whether notes `j` and `k` share a slot: the same staff and beat position.
pub open spec fn same_slot(ns: Seq<Note>, j: int, k: int) -> bool {
    voice_key(ns[j]).0 == voice_key(ns[k]).0 && beat_position(ns, j) == beat_position(ns, k)
}

/// MIDI number of a pitched note.
pub open spec fn note_midi(n: Note) -> int {
    midi_of(n.pitch->0)
}

/// Whether note `j` is the top of its slot: the highest MIDI number among
/// the slot's candidates, the last of them on a tie.
pub open spec fn is_top_note(ns: Seq<Note>, j: int) -> bool {
    &&& top_candidate(ns, j)
    &&& forall|k: int|
        #![trigger top_candidate(ns, k)]
        top_candidate(ns, k) && same_slot(ns, j, k) ==> note_midi(ns[k]) < note_midi(ns[j]) || (
        note_midi(ns[k]) == note_midi(ns[j]) && k <= j)
}

/// One note of the top layer: the highest note of its voice at one beat.
#[derive(Debug, Clone)]
pub struct TopLayerNote {
    /// Index of the measure in the part
    pub measure_idx: usize,
    /// Staff (1-based)
    pub staff: i32,
    /// Beat position in divisions from the start of the measure
    pub beat_position: i128,
    /// Pitch name, such as "C4", "F#3", "Bb5"
    pub pitch_name: String,
    /// MIDI note number
    pub midi: i32,
    /// Index of the note in the measure
    pub note_index: usize,
}

/// A measure's voices, chords and top layer.
#[derive(Debug, Clone)]
pub struct MeasureTopLayer {
    /// Index of the measure in the part
    pub measure_idx: usize,
    /// Whether sounding notes belong to more than one (staff, voice)
    pub has_multiple_voices: bool,
    /// Whether the measure has a chord member
    pub has_chord: bool,
    /// Divisions per quarter note the beat positions count in
    pub divisions: i32,
    /// The top layer, ordered by staff, then beat position
    pub top_notes: Vec<TopLayerNote>,
}

/// Divisions per quarter note of a measure: its own when it sets them, at
/// least 1; otherwise 1.
pub open spec fn measure_divisions(m: Measure) -> i32 {
    match m.attributes {
        Some(a) => match a.divisions {
            Some(d) => if d < 1 {
                1
            } else {
                d
            },
            None => 1,
        },
        None => 1,
    }
}

/// Whether `e` describes note `j` of measure `measure_idx`.
pub open spec fn describes_note(e: TopLayerNote, ns: Seq<Note>, j: int, measure_idx: usize) -> bool {
    &&& e.note_index == j
    &&& e.measure_idx == measure_idx
    &&& e.staff == voice_key(ns[j]).0
    &&& e.beat_position == beat_position(ns, j)
    &&& e.midi == note_midi(ns[j])
    &&& e.pitch_name@ == pitch_name(ns[j].pitch->0)
}

/// Whether `a` comes before `b`: a lower staff, or the same staff and an
/// earlier beat.
pub open spec fn slot_before(a: TopLayerNote, b: TopLayerNote) -> bool {
    a.staff < b.staff || (a.staff == b.staff && a.beat_position < b.beat_position)
}

/// Whether `top` is the top layer of notes `ns` of measure `measure_idx`
/// on the staff kept: one entry for each top note, in slot order.
pub open spec fn top_layer_of(top: Seq<TopLayerNote>, ns: Seq<Note>, measure_idx: usize, staff_filter: Option<i32>) -> bool {
    &&& forall|i: int|
        0 <= i < top.len() ==> {
            let j = (#[trigger] top[i]).note_index as int;
            &&& is_top_note(ns, j)
            &&& on_staff(ns[j], staff_filter)
            &&& describes_note(top[i], ns, j, measure_idx)
        }
    &&& forall|j: int|
        is_top_note(ns, j) && on_staff(ns[j], staff_filter) ==> exists|i: int|
            0 <= i < top.len() && (#[trigger] top[i]).note_index == j
    &&& slots_ordered(top)
}

/// Whether entries are in strictly increasing slot order.
pub open spec fn slots_ordered(top: Seq<TopLayerNote>) -> bool {
    forall|a: int, b: int| 0 <= a < b < top.len() ==> slot_before(#[trigger] top[a], #[trigger] top[b])
}

/// Whether `r` is the analysis of measure `m` at index `measure_idx`.
pub open spec fn measure_top_layer(r: MeasureTopLayer, m: Measure, measure_idx: usize, staff_filter: Option<i32>) -> bool {
    &&& r.measure_idx == measure_idx
    &&& r.has_multiple_voices == several_voices(m.notes@)
    &&& r.has_chord == exists|i: int| 0 <= i < m.notes@.len() && (#[trigger] m.notes@[i]).chord
    &&& r.divisions == measure_divisions(m)
    &&& top_layer_of(r.top_notes@, m.notes@, measure_idx, staff_filter)
}

/// Two top notes never share a slot.
proof fn lemma_top_unique(ns: Seq<Note>, j: int, k: int)
    requires
        is_top_note(ns, j),
        is_top_note(ns, k),
        same_slot(ns, j, k),
    ensures
        j == k,
{
    assert(top_candidate(ns, k));
    assert(top_candidate(ns, j));
}

/// The top voice of a staff (see `top_voice`).
fn staff_top_voice(notes: &Vec<Note>, staff: i32) -> (r: i32)
    ensures
        r == top_voice(notes@, staff),
{
    let ghost ns = notes@;
    let mut low: Option<i32> = None;
    let mut k: usize = 0;
    while k < notes.len()
        invariant
            ns == notes@,
            k <= ns.len(),
            low == lowest_voice(ns.take(k as int), staff),
        decreases ns.len() - k,
    {
        proof {
            assert(ns.take(k + 1).drop_last() == ns.take(k as int));
            assert(ns.take(k + 1).last() == ns[k as int]);
        }
        let n = &notes[k];
        let s = match n.staff {
            Some(s) => s,
            None => 1,
        };
        let v = match n.voice {
            Some(v) => v,
            None => 1,
        };
        if !n.rest && !n.grace && s == staff {
            low = match low {
                Some(w) => Some(if v < w { v } else { w }),
                None => Some(v),
            };
        }
        k = k + 1;
    }
    assert(ns.take(ns.len() as int) == ns);
    match low {
        Some(v) => v,
        None => 1,
    }
}

/// Whether the candidate note `j` is the top of its slot, its staff's top
/// voice being `tv`.
fn slot_top(notes: &Vec<Note>, beats: &Vec<i128>, j: usize, tv: i32) -> (r: bool)
    requires
        beats@.len() == notes@.len(),
        forall|t: int| 0 <= t < beats@.len() ==> beats@[t] == beat_position(notes@, t),
        top_candidate(notes@, j as int),
        tv == top_voice(notes@, voice_key(notes@[j as int]).0),
        forall|t: int|
            0 <= t < notes@.len() ==> match (#[trigger] notes@[t]).pitch {
                Some(p) => midi_in_range(p),
                None => true,
            },
    ensures
        r == is_top_note(notes@, j as int),
{
    let ghost ns = notes@;
    let nj = &notes[j];
    let sj = match nj.staff {
        Some(s) => s,
        None => 1,
    };
    let mj = match &nj.pitch {
        Some(p) => p.to_midi(),
        None => 0,
    };
    let bj = beats[j];
    let mut k: usize = 0;
    while k < notes.len()
        invariant
            ns == notes@,
            k <= ns.len(),
            beats@.len() == ns.len(),
            forall|t: int| 0 <= t < beats@.len() ==> beats@[t] == beat_position(ns, t),
            top_candidate(ns, j as int),
            tv == top_voice(ns, sj),
            sj == voice_key(ns[j as int]).0,
            bj == beat_position(ns, j as int),
            mj == note_midi(ns[j as int]),
            forall|t: int|
                0 <= t < ns.len() ==> match (#[trigger] ns[t]).pitch {
                    Some(p) => midi_in_range(p),
                    None => true,
                },
            forall|t: int|
                0 <= t < k && top_candidate(ns, t) && same_slot(ns, j as int, t) ==> note_midi(ns[t]) < note_midi(
                    ns[j as int],
                ) || (note_midi(ns[t]) == note_midi(ns[j as int]) && t <= j),
        decreases ns.len() - k,
    {
        let n = &notes[k];
        let s = match n.staff {
            Some(s) => s,
            None => 1,
        };
        let v = match n.voice {
            Some(v) => v,
            None => 1,
        };
        if !n.grace && s == sj && v == tv && beats[k] == bj {
            if let Some(p) = &n.pitch {
                let mk = p.to_midi();
                if mk > mj || (mk == mj && k > j) {
                    assert(top_candidate(ns, k as int));
                    return false;
                }
            }
        }
        k = k + 1;
    }
    true
}

/// The top layer of a measure: for each staff (only `staff_filter` when
/// given) and each beat position, the highest pitched note of the staff's
/// top voice there, ordered by staff and then beat; with whether the
/// measure has several voices or a chord, and its divisions.
pub fn extract_top_layer_from_measure(measure: &Measure, measure_idx: usize, staff_filter: Option<i32>) -> (r: MeasureTopLayer)
    requires
        forall|t: int|
            0 <= t < measure.notes@.len() ==> match (#[trigger] measure.notes@[t]).pitch {
                Some(p) => midi_in_range(p),
                None => true,
            },
    ensures
        measure_top_layer(r, *measure, measure_idx, staff_filter),
{
    let notes = &measure.notes;
    let ghost ns = notes@;
    let divisions: i32 = match &measure.attributes {
        Some(a) => match a.divisions {
            Some(d) => if d < 1 {
                1
            } else {
                d
            },
            None => 1,
        },
        None => 1,
    };
    let beats = beat_positions(notes);
    let has_multiple_voices = measure_has_multiple_voices(measure);
    let has_chord = measure_has_chord(measure);
    let mut top: Vec<TopLayerNote> = Vec::new();
    let mut j: usize = 0;
    while j < notes.len()
        invariant
            ns == notes@,
            ns == measure.notes@,
            j <= ns.len(),
            beats@.len() == ns.len(),
            forall|t: int| 0 <= t < beats@.len() ==> beats@[t] == beat_position(ns, t),
            forall|t: int|
                0 <= t < ns.len() ==> match (#[trigger] ns[t]).pitch {
                    Some(p) => midi_in_range(p),
                    None => true,
                },
            forall|i: int|
                0 <= i < top@.len() ==> {
                    let t = (#[trigger] top@[i]).note_index as int;
                    &&& t < j
                    &&& is_top_note(ns, t)
                    &&& on_staff(ns[t], staff_filter)
                    &&& describes_note(top@[i], ns, t, measure_idx)
                },
            forall|t: int|
                0 <= t < j && is_top_note(ns, t) && on_staff(ns[t], staff_filter) ==> exists|i: int|
                    0 <= i < top@.len() && (#[trigger] top@[i]).note_index == t,
            slots_ordered(top@),
        decreases ns.len() - j,
    {
        let n = &notes[j];
        let s = match n.staff {
            Some(s) => s,
            None => 1,
        };
        let v = match n.voice {
            Some(v) => v,
            None => 1,
        };
        let keep = match staff_filter {
            Some(f) => s == f,
            None => true,
        };
        let mut added = false;
        if !n.grace && keep {
            if let Some(p) = &n.pitch {
                let tv = staff_top_voice(notes, s);
                if v == tv && slot_top(notes, &beats, j, tv) {
                    let b = beats[j];
                    let e = TopLayerNote {
                        measure_idx,
                        staff: s,
                        beat_position: b,
                        pitch_name: pitch_to_name(p),
                        midi: p.to_midi(),
                        note_index: j,
                    };
                    let mut q: usize = 0;
                    while q < top.len() && (top[q].staff < s || (top[q].staff == s && top[q].beat_position < b))
                        invariant
                            q <= top@.len(),
                            e.staff == s,
                            e.beat_position == b,
                            forall|i: int| 0 <= i < q ==> slot_before(#[trigger] top@[i], e),
                        decreases top@.len() - q,
                    {
                        q = q + 1;
                    }
                    let ghost old_top = top@;
                    proof {
                        assert forall|i: int| q <= i < old_top.len() implies slot_before(e, #[trigger] old_top[i]) by {
                            let tq = old_top[q as int].note_index as int;
                            if old_top[q as int].staff == s && old_top[q as int].beat_position == b {
                                assert(same_slot(ns, j as int, tq));
                                lemma_top_unique(ns, j as int, tq);
                            }
                            if i > q {
                                assert(slot_before(old_top[q as int], old_top[i]));
                            }
                        }
                    }
                    top.insert(q, e);
                    added = true;
                    proof {
                        assert forall|a: int, c: int| 0 <= a < c < top@.len() implies slot_before(
                            #[trigger] top@[a],
                            #[trigger] top@[c],
                        ) by {
                            if c < q {
                                assert(slot_before(old_top[a], old_top[c]));
                            } else if c == q {
                                assert(slot_before(old_top[a], e));
                            } else if a < q {
                                assert(slot_before(old_top[a], e));
                                assert(slot_before(e, old_top[c - 1]));
                            } else if a == q {
                                assert(slot_before(e, old_top[c - 1]));
                            } else {
                                assert(slot_before(old_top[a - 1], old_top[c - 1]));
                            }
                        }
                        assert forall|i: int| 0 <= i < top@.len() implies {
                            let t = (#[trigger] top@[i]).note_index as int;
                            &&& t < j + 1
                            &&& is_top_note(ns, t)
                            &&& on_staff(ns[t], staff_filter)
                            &&& describes_note(top@[i], ns, t, measure_idx)
                        } by {
                            if i < q {
                                assert(top@[i] == old_top[i]);
                            } else if i > q {
                                assert(top@[i] == old_top[i - 1]);
                            }
                        }
                        assert forall|t: int|
                            0 <= t < j + 1 && is_top_note(ns, t) && on_staff(ns[t], staff_filter) implies exists|i: int|
                            0 <= i < top@.len() && (#[trigger] top@[i]).note_index == t by {
                            if t < j {
                                let i0 = choose|i: int| 0 <= i < old_top.len() && (#[trigger] old_top[i]).note_index == t;
                                if i0 < q {
                                    assert(top@[i0].note_index == t);
                                } else {
                                    assert(top@[i0 + 1].note_index == t);
                                }
                            } else {
                                assert(top@[q as int].note_index == t);
                            }
                        }
                    }
                }
            }
        }
        if !added {
            proof {
                if is_top_note(ns, j as int) && on_staff(ns[j as int], staff_filter) {
                    assert(false);
                }
            }
        }
        j = j + 1;
    }
    MeasureTopLayer { measure_idx, has_multiple_voices, has_chord, divisions, top_notes: top }
}

/// The top layer of every measure of a part, in measure order (see
/// `extract_top_layer_from_measure`).
pub fn extract_top_layer_from_part(part: &Part, staff_filter: Option<i32>) -> (r: Vec<MeasureTopLayer>)
    requires
        forall|i: int, t: int|
            0 <= i < part.measures@.len() && 0 <= t < part.measures@[i].notes@.len() ==> match (#[trigger] part.measures@[i].notes@[t]).pitch {
                Some(p) => midi_in_range(p),
                None => true,
            },
    ensures
        r@.len() == part.measures@.len(),
        forall|i: int|
            0 <= i < r@.len() ==> measure_top_layer(#[trigger] r@[i], part.measures@[i], i as usize, staff_filter),
{
    let mut out: Vec<MeasureTopLayer> = Vec::new();
    let mut i: usize = 0;
    while i < part.measures.len()
        invariant
            i <= part.measures@.len(),
            out@.len() == i,
            forall|k: int|
                0 <= k < i ==> measure_top_layer(#[trigger] out@[k], part.measures@[k], k as usize, staff_filter),
            forall|a: int, t: int|
                0 <= a < part.measures@.len() && 0 <= t < part.measures@[a].notes@.len() ==> match (#[trigger] part.measures@[a].notes@[t]).pitch {
                    Some(p) => midi_in_range(p),
                    None => true,
                },
        decreases part.measures@.len() - i,
    {
        let m = &part.measures[i];
        proof {
            assert forall|t: int| 0 <= t < m.notes@.len() implies match (#[trigger] m.notes@[t]).pitch {
                Some(p) => midi_in_range(p),
                None => true,
            } by {
                assert(m.notes@[t] == part.measures@[i as int].notes@[t]);
            }
        }
        let layer = extract_top_layer_from_measure(m, i, staff_filter);
        out.push(layer);
        i = i + 1;
    }
    out
}

// ─── Simplification for jianpu ────────────────────────────────────────────

/// Whether jianpu keeps a note: on the given staff, in voice 1 (staves and
/// voices default to 1) and not a chord member.
pub open spec fn kept_for_jianpu(n: Note, staff: i32) -> bool {
    voice_key(n).0 == staff && voice_key(n).1 == 1 && !n.chord
}

/// Notes kept for jianpu, with the grace notes waiting for the note they
/// ornament: (kept, waiting). Grace notes are kept only when the next
/// note that is not a grace note is kept too.
pub open spec fn jianpu_scan(ns: Seq<Note>, staff: i32) -> (Seq<Note>, Seq<Note>)
    decreases ns.len(),
{
    if ns.len() == 0 {
        (Seq::empty(), Seq::empty())
    } else {
        let (out, waiting) = jianpu_scan(ns.drop_last(), staff);
        let n = ns.last();
        if !kept_for_jianpu(n, staff) {
            if n.grace {
                (out, waiting)
            } else {
                (out, Seq::empty())
            }
        } else if n.grace {
            (out, waiting.push(n))
        } else {
            (out + waiting.push(n), Seq::empty())
        }
    }
}

/// The notes jianpu shows of a measure's notes (see `jianpu_scan`).
pub open spec fn jianpu_notes(ns: Seq<Note>, staff: i32) -> Seq<Note> {
    jianpu_scan(ns, staff).0
}

fn keeps(n: &Note, staff: i32) -> (r: bool)
    ensures
        r == kept_for_jianpu(*n, staff),
{
    let s = match n.staff {
        Some(s) => s,
        None => 1,
    };
    let v = match n.voice {
        Some(v) => v,
        None => 1,
    };
    s == staff && v == 1 && !n.chord
}

/// The notes of a measure that jianpu shows: voice 1 of one staff without
/// chord members, each grace note only before a kept note (see
/// `jianpu_notes`). The measure is consumed.
pub fn simplify_measure_for_jianpu(measure: Measure, staff_filter: i32) -> (r: Vec<Note>)
    ensures
        r@ == jianpu_notes(measure.notes@, staff_filter),
{
    simplify_notes(measure.notes, staff_filter)
}

fn simplify_notes(notes: Vec<Note>, staff_filter: i32) -> (r: Vec<Note>)
    ensures
        r@ == jianpu_notes(notes@, staff_filter),
{
    let ghost ns = notes@;
    let mut notes = notes;
    let mut reversed: Vec<Note> = Vec::new();
    while notes.len() > 0
        invariant
            ns == notes@ + reversed@.reverse(),
        decreases notes@.len(),
    {
        let ghost before = notes@;
        match notes.pop() {
            Some(n) => {
                proof {
                    assert(before == notes@.push(n));
                    assert(reversed@.push(n).reverse() =~= seq![n] + reversed@.reverse());
                }
                reversed.push(n);
            },
            None => {},
        }
    }
    assert(notes@ + reversed@.reverse() =~= reversed@.reverse());
    let mut out: Vec<Note> = Vec::new();
    let mut waiting: Vec<Note> = Vec::new();
    let mut k: usize = 0;
    let total = reversed.len();
    while reversed.len() > 0
        invariant
            k + reversed@.len() == total,
            total == ns.len(),
            ns == ns.take(k as int) + reversed@.reverse(),
            (out@, waiting@) == jianpu_scan(ns.take(k as int), staff_filter),
        decreases reversed@.len(),
    {
        let ghost rest = reversed@;
        match reversed.pop() {
            Some(n) => {
                proof {
                    assert(rest == reversed@.push(n));
                    assert(rest.reverse() =~= seq![n] + reversed@.reverse());
                    assert(ns[k as int] == n) by {
                        assert((ns.take(k as int) + rest.reverse())[k as int] == rest.reverse()[0]);
                    }
                    assert(ns.take(k + 1).drop_last() == ns.take(k as int));
                    assert(ns.take(k + 1).last() == n);
                    assert(ns =~= ns.take(k + 1) + reversed@.reverse());
                }
                if !keeps(&n, staff_filter) {
                    if !n.grace {
                        waiting = Vec::new();
                    }
                } else if n.grace {
                    waiting.push(n);
                } else {
                    out.append(&mut waiting);
                    out.push(n);
                }
                k = k + 1;
            },
            None => {},
        }
    }
    proof {
        assert(ns.take(k as int) == ns);
    }
    out
}

/// A part simplified for jianpu: each measure keeps only the notes jianpu
/// shows (see `simplify_measure_for_jianpu`); the rest of the part is
/// unchanged. The part is consumed.
pub fn simplify_part_for_jianpu(part: Part, staff_filter: i32) -> (r: Part)
    ensures
        r.id == part.id,
        r.name == part.name,
        r.abbreviation == part.abbreviation,
        r.midi_program == part.midi_program,
        r.midi_channel == part.midi_channel,
        r.measures@.len() == part.measures@.len(),
        forall|i: int|
            0 <= i < r.measures@.len() ==> (#[trigger] r.measures@[i]).notes@ == jianpu_notes(
                part.measures@[i].notes@,
                staff_filter,
            ) && r.measures@[i].number == part.measures@[i].number && r.measures@[i].attributes
                == part.measures@[i].attributes && r.measures@[i].harmonies == part.measures@[i].harmonies
                && r.measures@[i].barlines == part.measures@[i].barlines && r.measures@[i].directions
                == part.measures@[i].directions,
{
    let ghost ms = part.measures@;
    let Part { id, name, abbreviation, midi_program, midi_channel, measures } = part;
    let mut src = measures;
    let mut reversed: Vec<Measure> = Vec::new();
    while src.len() > 0
        invariant
            ms == src@ + reversed@.reverse(),
        decreases src@.len(),
    {
        let ghost before = src@;
        match src.pop() {
            Some(m) => {
                proof {
                    assert(before == src@.push(m));
                    assert(reversed@.push(m).reverse() =~= seq![m] + reversed@.reverse());
                }
                reversed.push(m);
            },
            None => {},
        }
    }
    assert(src@ + reversed@.reverse() =~= reversed@.reverse());
    let mut out: Vec<Measure> = Vec::new();
    let total = reversed.len();
    while reversed.len() > 0
        invariant
            out@.len() + reversed@.len() == total,
            total == ms.len(),
            ms == ms.take(out@.len() as int) + reversed@.reverse(),
            forall|i: int|
                0 <= i < out@.len() ==> (#[trigger] out@[i]).notes@ == jianpu_notes(ms[i].notes@, staff_filter)
                    && out@[i].number == ms[i].number && out@[i].attributes == ms[i].attributes
                    && out@[i].harmonies == ms[i].harmonies && out@[i].barlines == ms[i].barlines
                    && out@[i].directions == ms[i].directions,
        decreases reversed@.len(),
    {
        let ghost rest = reversed@;
        let ghost k = out@.len() as int;
        match reversed.pop() {
            Some(m) => {
                proof {
                    assert(rest == reversed@.push(m));
                    assert(rest.reverse() =~= seq![m] + reversed@.reverse());
                    assert(ms[k] == m) by {
                        assert((ms.take(k) + rest.reverse())[k] == rest.reverse()[0]);
                    }
                    assert(ms =~= ms.take(k + 1) + reversed@.reverse());
                }
                let Measure {
                    number,
                    implicit,
                    attributes,
                    notes,
                    harmonies,
                    barlines,
                    directions,
                    new_system,
                    new_page,
                } = m;
                let kept = simplify_notes(notes, staff_filter);
                out.push(
                    Measure {
                        number,
                        implicit,
                        attributes,
                        notes: kept,
                        harmonies,
                        barlines,
                        directions,
                        new_system,
                        new_page,
                    },
                );
            },
            None => {},
        }
    }
    proof {
        assert(ms.take(out@.len() as int) == ms);
    }
    Part { id, name, abbreviation, midi_program, midi_channel, measures: out }
}

/// Number of staves drawn for a part (see `staves_drawn`).
pub open spec fn part_staves(p: Part) -> nat {
    staves_drawn(p.measures@, p.measures@.len() as int)
}

/// The (part index, 1-based staff) of global staff `g` (0-based, counting
/// the staves of all parts from top to bottom).
pub open spec fn global_staff(ps: Seq<Part>, g: int) -> Option<(int, int)>
    decreases ps.len(),
{
    if ps.len() == 0 || g < 0 {
        None
    } else if g < part_staves(ps[0]) {
        Some((0, g + 1))
    } else {
        match global_staff(ps.drop_first(), g - part_staves(ps[0])) {
            Some((p, st)) => Some((p + 1, st)),
            None => None,
        }
    }
}

/// The staff jianpu shows: the first of the requested global staves (1-based,
/// the first staff when none is requested), or the first staff when that
/// one does not exist.
pub open spec fn jianpu_staff(ps: Seq<Part>, requested: Option<Seq<usize>>) -> Option<(int, int)> {
    let one_based: int = match requested {
        Some(l) => if l.len() > 0 {
            l[0] as int
        } else {
            1
        },
        None => 1,
    };
    let g = if one_based >= 1 {
        one_based - 1
    } else {
        0
    };
    match global_staff(ps, g) {
        Some(x) => Some(x),
        None => global_staff(ps, 0),
    }
}

fn find_global_staff(parts: &Vec<Part>, g: usize) -> (r: Option<(usize, usize)>)
    ensures
        match r {
            Some((p, st)) => global_staff(parts@, g as int) == Some((p as int, st as int)) && p < parts@.len(),
            None => global_staff(parts@, g as int) is None,
        },
{
    let ghost ps = parts@;
    let mut i: usize = 0;
    let mut rest: usize = g;
    proof {
        assert(ps.skip(0) == ps);
    }
    while i < parts.len()
        invariant
            ps == parts@,
            i <= ps.len(),
            global_staff(ps, g as int) == match global_staff(ps.skip(i as int), rest as int) {
                Some((p, st)) => Some((p + i, st)),
                None => None::<(int, int)>,
            },
        decreases ps.len() - i,
    {
        proof {
            assert(ps.skip(i as int)[0] == ps[i as int]);
            assert(ps.skip(i as int).drop_first() == ps.skip(i + 1));
        }
        let n = detect_staves(&parts[i]);
        if rest < n {
            return Some((i, rest + 1));
        }
        rest = rest - n;
        i = i + 1;
    }
    None
}

/// A score simplified for jianpu: the part holding the staff jianpu shows
/// (see `jianpu_staff`) keeps only that staff's voice-1 principal notes;
/// the other parts are unchanged. A score without staves is returned as
/// is. The score is consumed.
pub fn simplify_score_for_jianpu(score: Score, staff_indices_1based: Option<&[usize]>) -> (r: Score)
    ensures
        r.title == score.title && r.subtitle == score.subtitle && r.composer == score.composer
            && r.arranger == score.arranger && r.version == score.version && r.software
            == score.software,
        r.parts@.len() == score.parts@.len(),
        match jianpu_staff(score.parts@, match staff_indices_1based {
            Some(l) => Some(l@),
            None => None,
        }) {
            Some((p, st)) => forall|i: int|
                0 <= i < r.parts@.len() ==> if i == p {
                    (#[trigger] r.parts@[i]).measures@.len() == score.parts@[i].measures@.len()
                        && forall|j: int|
                        0 <= j < r.parts@[i].measures@.len() ==> (#[trigger] r.parts@[i].measures@[j]).notes@
                            == jianpu_notes(score.parts@[i].measures@[j].notes@, st as i32)
                } else {
                    r.parts@[i] == score.parts@[i]
                },
            None => r.parts@ == score.parts@,
        },
{
    let one_based: usize = match staff_indices_1based {
        Some(l) => if l.len() > 0 {
            l[0]
        } else {
            1
        },
        None => 1,
    };
    let g: usize = if one_based >= 1 { one_based - 1 } else { 0 };
    let chosen = match find_global_staff(&score.parts, g) {
        Some(x) => Some(x),
        None => find_global_staff(&score.parts, 0),
    };
    match chosen {
        None => score,
        Some((pidx, staff)) => {
            let ghost old_parts = score.parts@;
            let Score { title, subtitle, composer, arranger, version, software, parts } = score;
            let mut parts = parts;
            let part = parts.remove(pidx);
            let simplified = simplify_part_for_jianpu(part, staff as i32);
            parts.insert(pidx, simplified);
            proof {
                assert forall|i: int| 0 <= i < parts@.len() && i != pidx implies parts@[i] == old_parts[i] by {}
            }
            Score { title, subtitle, composer, arranger, version, software, parts }
        },
    }
}

// ─── Staff selection ─────────────────────────────────────────────────────

/// The global staff named by a 1-based request, when it exists.
pub open spec fn requested_staff(ps: Seq<Part>, one_based: usize) -> Option<(int, int)> {
    if one_based >= 1 {
        global_staff(ps, one_based - 1)
    } else {
        None
    }
}

/// Some request of `l` names staff `st` of part `p`.
pub open spec fn is_requested(ps: Seq<Part>, l: Seq<usize>, p: int, st: int) -> bool {
    exists|k: int| 0 <= k < l.len() && requested_staff(ps, l[k]) == Some((p, st))
}

/// The requested staves among staves `1..=n` of part `p`, in order.
pub open spec fn requested_staves_upto(ps: Seq<Part>, l: Seq<usize>, p: int, n: int) -> Seq<usize>
    decreases n,
{
    if n <= 0 {
        Seq::empty()
    } else if is_requested(ps, l, p, n) {
        requested_staves_upto(ps, l, p, n - 1).push(n as usize)
    } else {
        requested_staves_upto(ps, l, p, n - 1)
    }
}

/// Parts among the first `i` with the staves requested of each, in part
/// order; parts with no requested staff are left out.
pub open spec fn requested_parts_upto(ps: Seq<Part>, l: Seq<usize>, i: int) -> Seq<(usize, Seq<usize>)>
    decreases i,
{
    if i <= 0 {
        Seq::empty()
    } else {
        let sts = requested_staves_upto(ps, l, i - 1, part_staves(ps[i - 1]) as int);
        if sts.len() > 0 {
            requested_parts_upto(ps, l, i - 1).push(((i - 1) as usize, sts))
        } else {
            requested_parts_upto(ps, l, i - 1)
        }
    }
}

/// All staves of every part.
pub open spec fn all_staves(ps: Seq<Part>) -> Seq<(usize, Seq<usize>)> {
    Seq::new(ps.len(), |p: int| (p as usize, Seq::new(part_staves(ps[p]), |j: int| (j + 1) as usize)))
}

/// The staves a score is drawn with, part by part (part index, 1-based
/// staff numbers): `None` for a score without parts. Jianpu draws one
/// staff (see `jianpu_staff`). Otherwise, with no or an empty request every
/// staff; else the requested staves that exist, grouped by part in part
/// and staff order without repeats, and the first staff when none of the
/// requested ones exists.
pub open spec fn staff_selection(ps: Seq<Part>, requested: Option<Seq<usize>>, use_jianpu: bool) -> Option<
    Seq<(usize, Seq<usize>)>,
> {
    if ps.len() == 0 {
        None
    } else if use_jianpu {
        match jianpu_staff(ps, requested) {
            Some((p, st)) => Some(seq![(p as usize, seq![st as usize])]),
            None => None,
        }
    } else {
        match requested {
            Some(l) => if l.len() == 0 {
                Some(all_staves(ps))
            } else {
                let g = requested_parts_upto(ps, l, ps.len() as int);
                if g.len() > 0 {
                    Some(g)
                } else {
                    match global_staff(ps, 0) {
                        Some((p, st)) => Some(seq![(p as usize, seq![st as usize])]),
                        None => None,
                    }
                }
            },
            None => Some(all_staves(ps)),
        }
    }
}

pub open spec fn selection_view(v: Seq<(usize, Vec<usize>)>) -> Seq<(usize, Seq<usize>)> {
    v.map_values(|e: (usize, Vec<usize>)| (e.0, e.1@))
}

pub open spec fn opt_selection_view(r: Option<Vec<(usize, Vec<usize>)>>) -> Option<Seq<(usize, Seq<usize>)>> {
    match r {
        Some(v) => Some(selection_view(v@)),
        None => None,
    }
}

fn one_staff(p: usize, st: usize) -> (r: Vec<(usize, Vec<usize>)>)
    ensures
        selection_view(r@) == seq![(p, seq![st])],
{
    let mut sts: Vec<usize> = Vec::new();
    sts.push(st);
    let mut r: Vec<(usize, Vec<usize>)> = Vec::new();
    r.push((p, sts));
    assert(selection_view(r@) =~= seq![(p, seq![st])]);
    r
}

fn staff_range(n: usize) -> (r: Vec<usize>)
    ensures
        r@ == Seq::new(n as nat, |j: int| (j + 1) as usize),
{
    let mut r: Vec<usize> = Vec::new();
    let mut j: usize = 0;
    while j < n
        invariant
            j <= n,
            r@ == Seq::new(j as nat, |t: int| (t + 1) as usize),
        decreases n - j,
    {
        r.push(j + 1);
        j = j + 1;
        assert(r@ =~= Seq::new(j as nat, |t: int| (t + 1) as usize));
    }
    r
}

/// `sel[k]` is the global staff that request `l[k]` names.
pub open spec fn requests_resolved(ps: Seq<Part>, sel: Seq<Option<(usize, usize)>>, l: Seq<usize>) -> bool {
    &&& sel.len() == l.len()
    &&& forall|k: int|
        0 <= k < l.len() ==> match #[trigger] sel[k] {
            Some((a, b)) => requested_staff(ps, l[k]) == Some((a as int, b as int)),
            None => requested_staff(ps, l[k]) is None,
        }
}

/// The requested staves of part `p`, in staff order.
fn requested_staves_of(
    parts: &Vec<Part>,
    sel: &Vec<Option<(usize, usize)>>,
    Ghost(l): Ghost<Seq<usize>>,
    p: usize,
    n: usize,
) -> (r: Vec<usize>)
    requires
        requests_resolved(parts@, sel@, l),
        n <= MAX_STAVES,
    ensures
        r@ == requested_staves_upto(parts@, l, p as int, n as int),
{
    let mut r: Vec<usize> = Vec::new();
    let mut st: usize = 1;
    while st <= n
        invariant
            1 <= st <= n + 1,
            n <= MAX_STAVES,
            requests_resolved(parts@, sel@, l),
            r@ == requested_staves_upto(parts@, l, p as int, st - 1),
        decreases n + 1 - st,
    {
        let mut found = false;
        let mut k: usize = 0;
        while k < sel.len()
            invariant
                k <= sel@.len(),
                found <==> exists|t: int| 0 <= t < k && #[trigger] sel@[t] == Some((p, st)),
            decreases sel@.len() - k,
        {
            match sel[k] {
                Some((a, b)) => {
                    if a == p && b == st {
                        found = true;
                    }
                },
                None => {},
            }
            k = k + 1;
        }
        proof {
            if found {
                let t = choose|t: int| 0 <= t < sel@.len() && #[trigger] sel@[t] == Some((p, st));
                assert(requested_staff(parts@, l[t]) == Some((p as int, st as int)));
                assert(is_requested(parts@, l, p as int, st as int));
            } else {
                if is_requested(parts@, l, p as int, st as int) {
                    let t = choose|t: int| 0 <= t < l.len() && requested_staff(parts@, l[t]) == Some((p as int, st as int));
                    match sel@[t] {
                        Some((a, b)) => {
                            assert(sel@[t] == Some((p, st)));
                        },
                        None => {},
                    }
                    assert(false);
                }
            }
        }
        if found {
            r.push(st);
        }
        st = st + 1;
    }
    r
}

/// The staves to draw (see `staff_selection`).
pub fn select_staves(parts: &Vec<Part>, staff_indices_1based: Option<&[usize]>, use_jianpu: bool) -> (r: Option<
    Vec<(usize, Vec<usize>)>,
>)
    ensures
        opt_selection_view(r) == staff_selection(parts@, match staff_indices_1based {
            Some(l) => Some(l@),
            None => None,
        }, use_jianpu),
{
    let ghost req = match staff_indices_1based {
        Some(l) => Some(l@),
        None => None,
    };
    if parts.len() == 0 {
        return None;
    }
    if use_jianpu {
        let one_based: usize = match staff_indices_1based {
            Some(l) => if l.len() > 0 {
                l[0]
            } else {
                1
            },
            None => 1,
        };
        let g: usize = if one_based >= 1 { one_based - 1 } else { 0 };
        let chosen = match find_global_staff(parts, g) {
            Some(x) => Some(x),
            None => find_global_staff(parts, 0),
        };
        return match chosen {
            Some((p, st)) => Some(one_staff(p, st)),
            None => None,
        };
    }
    let l: &[usize] = match staff_indices_1based {
        Some(l) => l,
        None => {
            return Some(all_staves_exec(parts));
        },
    };
    if l.len() == 0 {
        return Some(all_staves_exec(parts));
    }
    let mut sel: Vec<Option<(usize, usize)>> = Vec::new();
    let mut k: usize = 0;
    while k < l.len()
        invariant
            k <= l@.len(),
            sel@.len() == k,
            forall|t: int|
                0 <= t < k ==> match #[trigger] sel@[t] {
                    Some((a, b)) => requested_staff(parts@, l@[t]) == Some((a as int, b as int)),
                    None => requested_staff(parts@, l@[t]) is None,
                },
        decreases l@.len() - k,
    {
        let e = if l[k] >= 1 {
            find_global_staff(parts, l[k] - 1)
        } else {
            None
        };
        sel.push(e);
        k = k + 1;
    }
    let mut out: Vec<(usize, Vec<usize>)> = Vec::new();
    let mut i: usize = 0;
    while i < parts.len()
        invariant
            i <= parts@.len(),
            requests_resolved(parts@, sel@, l@),
            selection_view(out@) == requested_parts_upto(parts@, l@, i as int),
        decreases parts@.len() - i,
    {
        let n = detect_staves(&parts[i]);
        let sts = requested_staves_of(parts, &sel, Ghost(l@), i, n);
        assert(sts@ == requested_staves_upto(parts@, l@, i as int, n as int));
        let ghost prev = out@;
        if sts.len() > 0 {
            out.push((i, sts));
            assert(selection_view(out@) =~= selection_view(prev).push((i, requested_staves_upto(parts@, l@, i as int, n as int))));
        }
        i = i + 1;
    }
    if out.len() > 0 {
        return Some(out);
    }
    match find_global_staff(parts, 0) {
        Some((p, st)) => Some(one_staff(p, st)),
        None => None,
    }
}

fn all_staves_exec(parts: &Vec<Part>) -> (r: Vec<(usize, Vec<usize>)>)
    ensures
        selection_view(r@) == all_staves(parts@),
{
    let mut out: Vec<(usize, Vec<usize>)> = Vec::new();
    let mut i: usize = 0;
    while i < parts.len()
        invariant
            i <= parts@.len(),
            selection_view(out@) == all_staves(parts@).take(i as int),
            out@.len() == i,
        decreases parts@.len() - i,
    {
        let n = detect_staves(&parts[i]);
        let sts = staff_range(n);
        let ghost prev = out@;
        out.push((i, sts));
        proof {
            assert(n == part_staves(parts@[i as int]));
            assert(all_staves(parts@)[i as int] == (i, sts@));
            assert(selection_view(out@)[i as int] == (i, sts@));
            assert(selection_view(out@).take(i as int) =~= selection_view(prev));
            assert forall|t: int| 0 <= t < i + 1 implies #[trigger] selection_view(out@)[t] == all_staves(parts@).take(i + 1)[t] by {
                if t < i {
                    assert(selection_view(out@)[t] == selection_view(prev)[t]);
                }
            }
        }
        assert(selection_view(out@) =~= all_staves(parts@).take(i + 1));
        i = i + 1;
    }
    assert(all_staves(parts@).take(parts@.len() as int) =~= all_staves(parts@));
    out
}

proof fn lemma_raise_by_clefs_grows(clefs: Seq<Clef>, k: int, acc: nat)
    ensures
        raise_by_clefs(clefs, k, acc) >= acc,
    decreases k,
{
    if k > 0 {
        lemma_raise_by_clefs_grows(clefs, k - 1, acc);
    }
}

proof fn lemma_raise_by_notes_grows(notes: Seq<Note>, k: int, acc: nat)
    ensures
        raise_by_notes(notes, k, acc) >= acc,
    decreases k,
{
    if k > 0 {
        lemma_raise_by_notes_grows(notes, k - 1, acc);
    }
}

proof fn lemma_staves_drawn_positive(ms: Seq<Measure>, k: int)
    ensures
        staves_drawn(ms, k) >= 1,
    decreases k,
{
    if k > 0 {
        lemma_staves_drawn_positive(ms, k - 1);
        let m = ms[k - 1];
        let acc = staves_drawn(ms, k - 1);
        match m.attributes {
            Some(attrs) => {
                let b = match attrs.staves {
                    Some(s) => raise_staff(acc, s),
                    None => acc,
                };
                lemma_raise_by_clefs_grows(attrs.clefs@, attrs.clefs@.len() as int, b);
                lemma_raise_by_notes_grows(
                    m.notes@,
                    m.notes@.len() as int,
                    raise_by_clefs(attrs.clefs@, attrs.clefs@.len() as int, b),
                );
            },
            None => {
                lemma_raise_by_notes_grows(m.notes@, m.notes@.len() as int, acc);
            },
        }
    }
}

proof fn lemma_global_staff_bounds(ps: Seq<Part>, g: int)
    ensures
        global_staff(ps, g) matches Some((p, st)) ==> 0 <= p < ps.len() && 1 <= st <= part_staves(ps[p]),
    decreases ps.len(),
{
    if ps.len() > 0 && g >= 0 && g >= part_staves(ps[0]) {
        lemma_global_staff_bounds(ps.drop_first(), g - part_staves(ps[0]));
        match global_staff(ps.drop_first(), g - part_staves(ps[0])) {
            Some((p, st)) => {
                assert(ps.drop_first()[p] == ps[p + 1]);
            },
            None => {},
        }
    }
}

proof fn lemma_staves_upto_contains(ps: Seq<Part>, l: Seq<usize>, p: int, n: int, st: int)
    requires
        1 <= st <= n,
        is_requested(ps, l, p, st),
    ensures
        requested_staves_upto(ps, l, p, n).contains(st as usize),
    decreases n,
{
    if st < n {
        lemma_staves_upto_contains(ps, l, p, n - 1, st);
        let prev = requested_staves_upto(ps, l, p, n - 1);
        let k = choose|k: int| 0 <= k < prev.len() && prev[k] == st as usize;
        if is_requested(ps, l, p, n) {
            assert(prev.push(n as usize)[k] == st as usize);
        }
    } else {
        let prev = requested_staves_upto(ps, l, p, n - 1);
        assert(prev.push(n as usize)[prev.len() as int] == st as usize);
    }
}

proof fn lemma_parts_upto_contains(ps: Seq<Part>, l: Seq<usize>, i: int, p: int, st: int)
    requires
        0 <= p < i,
        requested_staves_upto(ps, l, p, part_staves(ps[p]) as int).contains(st as usize),
    ensures
        exists|j: int|
            0 <= j < requested_parts_upto(ps, l, i).len() && (#[trigger] requested_parts_upto(ps, l, i)[j]).0
                == p as usize && requested_parts_upto(ps, l, i)[j].1.contains(st as usize),
    decreases i,
{
    let prev = requested_parts_upto(ps, l, i - 1);
    let sts = requested_staves_upto(ps, l, i - 1, part_staves(ps[i - 1]) as int);
    let cur = requested_parts_upto(ps, l, i);
    if p < i - 1 {
        lemma_parts_upto_contains(ps, l, i - 1, p, st);
        let j = choose|j: int|
            0 <= j < prev.len() && (#[trigger] prev[j]).0 == p as usize && prev[j].1.contains(st as usize);
        if sts.len() > 0 {
            assert(cur == prev.push(((i - 1) as usize, sts)));
            assert(cur[j] == prev[j]);
        } else {
            assert(cur == prev);
        }
        assert(0 <= j < cur.len() && cur[j].0 == p as usize && cur[j].1.contains(st as usize));
    } else {
        let w = choose|w: int| 0 <= w < sts.len() && sts[w] == st as usize;
        assert(sts.len() > 0);
        assert(cur == prev.push(((i - 1) as usize, sts)));
        let j = prev.len() as int;
        assert(cur[j] == ((i - 1) as usize, sts));
        assert(0 <= j < cur.len() && cur[j].0 == p as usize && cur[j].1.contains(st as usize));
    }
}

/// Every requested staff that exists is drawn: it stands in the entry of
/// its part.
pub proof fn lemma_requested_staff_drawn(ps: Seq<Part>, l: Seq<usize>, k: int, p: int, st: int)
    requires
        0 <= k < l.len(),
        requested_staff(ps, l[k]) == Some((p, st)),
    ensures
        staff_selection(ps, Some(l), false) == Some(requested_parts_upto(ps, l, ps.len() as int)),
        exists|j: int|
            0 <= j < requested_parts_upto(ps, l, ps.len() as int).len() && (#[trigger] requested_parts_upto(
                ps,
                l,
                ps.len() as int,
            )[j]).0 == p as usize && requested_parts_upto(ps, l, ps.len() as int)[j].1.contains(st as usize),
{
    lemma_global_staff_bounds(ps, l[k] - 1);
    assert(is_requested(ps, l, p, st));
    lemma_staves_upto_contains(ps, l, p, part_staves(ps[p]) as int, st);
    lemma_parts_upto_contains(ps, l, ps.len() as int, p, st);
    let g = requested_parts_upto(ps, l, ps.len() as int);
    let j = choose|j: int|
        0 <= j < g.len() && (#[trigger] g[j]).0 == p as usize && g[j].1.contains(st as usize);
    assert(g.len() > 0);
    assert(staff_selection(ps, Some(l), false) == Some(g));
    assert(0 <= j < g.len() && g[j].0 == p as usize && g[j].1.contains(st as usize));
    assert(exists|j: int| 0 <= j < g.len() && (#[trigger] g[j]).0 == p as usize && g[j].1.contains(st as usize));
}

proof fn lemma_nothing_requested(ps: Seq<Part>, l: Seq<usize>, i: int)
    requires
        forall|k: int| 0 <= k < l.len() ==> #[trigger] requested_staff(ps, l[k]) is None,
    ensures
        requested_parts_upto(ps, l, i).len() == 0,
    decreases i,
{
    if i > 0 {
        lemma_nothing_requested(ps, l, i - 1);
        lemma_no_staff_requested(ps, l, i - 1, part_staves(ps[i - 1]) as int);
    }
}

proof fn lemma_no_staff_requested(ps: Seq<Part>, l: Seq<usize>, p: int, n: int)
    requires
        forall|k: int| 0 <= k < l.len() ==> #[trigger] requested_staff(ps, l[k]) is None,
    ensures
        requested_staves_upto(ps, l, p, n).len() == 0,
    decreases n,
{
    if n > 0 {
        lemma_no_staff_requested(ps, l, p, n - 1);
        if is_requested(ps, l, p, n) {
            let k = choose|k: int| 0 <= k < l.len() && requested_staff(ps, l[k]) == Some((p, n));
            assert(requested_staff(ps, l[k]) is None);
        }
    }
}

/// When none of the requested staves exists, the first staff of the first
/// part is drawn.
pub proof fn lemma_first_staff_when_none_exists(ps: Seq<Part>, l: Seq<usize>)
    requires
        ps.len() > 0,
        l.len() > 0,
        forall|k: int| 0 <= k < l.len() ==> #[trigger] requested_staff(ps, l[k]) is None,
    ensures
        staff_selection(ps, Some(l), false) == Some(seq![(0usize, seq![1usize])]),
{
    lemma_nothing_requested(ps, l, ps.len() as int);
    lemma_staves_drawn_positive(ps[0].measures@, ps[0].measures@.len() as int);
}

/// Every note jianpu shows is on the chosen staff, in voice 1, and no
/// chord member.
pub proof fn lemma_jianpu_notes_kept(ns: Seq<Note>, staff: i32)
    ensures
        forall|i: int|
            0 <= i < jianpu_notes(ns, staff).len() ==> kept_for_jianpu(#[trigger] jianpu_notes(ns, staff)[i], staff),
        forall|i: int|
            0 <= i < jianpu_scan(ns, staff).1.len() ==> kept_for_jianpu(#[trigger] jianpu_scan(ns, staff).1[i], staff),
    decreases ns.len(),
{
    if ns.len() > 0 {
        let prev = ns.drop_last();
        lemma_jianpu_notes_kept(prev, staff);
        let out = jianpu_scan(prev, staff).0;
        let waiting = jianpu_scan(prev, staff).1;
        assert(out == jianpu_notes(prev, staff));
        let n = ns.last();
        assert forall|i: int| 0 <= i < jianpu_notes(ns, staff).len() implies kept_for_jianpu(
            #[trigger] jianpu_notes(ns, staff)[i],
            staff,
        ) by {
            if i < out.len() {
                assert(kept_for_jianpu(jianpu_notes(prev, staff)[i], staff));
            } else if i - out.len() < waiting.len() {
                assert(kept_for_jianpu(jianpu_scan(prev, staff).1[i - out.len()], staff));
            }
        }
        assert forall|i: int| 0 <= i < jianpu_scan(ns, staff).1.len() implies kept_for_jianpu(
            #[trigger] jianpu_scan(ns, staff).1[i],
            staff,
        ) by {
            if i < waiting.len() {
                assert(kept_for_jianpu(jianpu_scan(prev, staff).1[i], staff));
            }
        }
    }
}

} // verus!
