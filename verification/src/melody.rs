//! The melody of a part in play order, as note-on and note-off events
//! placed in score time: a measure's position in the play order and an
//! onset in divisions from the start of that measure. Each (staff, voice)
//! keeps its own clock; chord members sound with their voice's last note;
//! tied notes sound once, from the first note of the tie to the last.
use vstd::prelude::*;
use crate::model::{Part, Measure, Note, Pitch, midi_of, midi_in_range};
use crate::unroller::UnrolledMeasure;
use crate::chords::{order_of, order_in_part, pitches_in_range};

verus! {

/// A melody event in score time.
#[derive(Debug, Clone, Copy, PartialEq, Eq, Structural)]
pub struct MelodyEvent {
    /// Position of the measure in the play order
    pub position: usize,
    /// Onset of the note, in divisions from the start of the measure
    pub onset: i128,
    /// Duration of the note in divisions; a note-off sounds at onset + duration
    pub duration: i32,
    /// MIDI note number (0–127)
    pub note: u8,
    /// Note-on (true) or note-off (false)
    pub on: bool,
}

/// The (staff, voice) a note belongs to; staff and voice default to 1.
pub open spec fn voice_key(n: Note) -> (i32, i32) {
    (
        match n.staff {
            Some(s) => s,
            None => 1,
        },
        match n.voice {
            Some(v) => v,
            None => 1,
        },
    )
}

/// Whether a note moves its voice's clock: neither a grace note nor a chord member.
pub open spec fn advances(n: Note) -> bool {
    !n.grace && !n.chord
}

/// Whether a note starts a sounding onset of its voice: it advances, is
/// not a rest and has a pitch.
pub open spec fn starts_onset(n: Note) -> bool {
    advances(n) && !n.rest && n.pitch is Some
}

/// The clock of voice `vk` after notes `ns`: the durations of its notes
/// that advance.
pub open spec fn voice_position(ns: Seq<Note>, vk: (i32, i32)) -> int
    decreases ns.len(),
{
    if ns.len() == 0 {
        0
    } else {
        voice_position(ns.drop_last(), vk) + if advances(ns.last()) && voice_key(ns.last()) == vk {
            ns.last().duration as int
        } else {
            0
        }
    }
}

/// The onset of the last sounding note of voice `vk` among `ns` (0 without one).
pub open spec fn voice_onset(ns: Seq<Note>, vk: (i32, i32)) -> int
    decreases ns.len(),
{
    if ns.len() == 0 {
        0
    } else if starts_onset(ns.last()) && voice_key(ns.last()) == vk {
        voice_position(ns.drop_last(), vk)
    } else {
        voice_onset(ns.drop_last(), vk)
    }
}

/// MIDI note of a pitch clamped to 0–127.
pub open spec fn clamped_note(p: Pitch) -> u8 {
    let m = midi_of(p);
    (if m < 0 {
        0
    } else if m > 127 {
        127
    } else {
        m
    }) as u8
}

/// Whether a note is on the staff kept (all staves without a filter).
pub open spec fn on_staff(n: Note, staff_filter: Option<i32>) -> bool {
    match staff_filter {
        Some(s) => voice_key(n).0 == s,
        None => true,
    }
}

/// The events of note `n` after the measure's notes `before`: a sounding
/// note on the staff kept gives a note-on unless it ends a tie and a
/// note-off unless it starts one, at its voice's clock (a chord member at
/// its voice's last onset).
pub open spec fn note_events(before: Seq<Note>, n: Note, position: int, staff_filter: Option<i32>) -> Seq<MelodyEvent> {
    if n.grace || n.rest || n.pitch is None || !on_staff(n, staff_filter) {
        Seq::empty()
    } else {
        let vk = voice_key(n);
        let onset = if n.chord {
            voice_onset(before, vk)
        } else {
            voice_position(before, vk)
        };
        let note = clamped_note(n.pitch->0);
        let on = MelodyEvent {
            position: position as usize,
            onset: onset as i128,
            duration: n.duration,
            note,
            on: true,
        };
        let off = MelodyEvent { on: false, ..on };
        (if !n.tie_stop {
            seq![on]
        } else {
            Seq::empty()
        }) + (if !n.tie_start {
            seq![off]
        } else {
            Seq::empty()
        })
    }
}

/// The events of a measure's notes, in note order.
pub open spec fn measure_events(ns: Seq<Note>, position: int, staff_filter: Option<i32>) -> Seq<MelodyEvent>
    decreases ns.len(),
{
    if ns.len() == 0 {
        Seq::empty()
    } else {
        measure_events(ns.drop_last(), position, staff_filter) + note_events(
            ns.drop_last(),
            ns.last(),
            position,
            staff_filter,
        )
    }
}

/// The melody events of measures `ms` played in order `order`.
pub open spec fn melody_events(ms: Seq<Measure>, order: Seq<usize>, staff_filter: Option<i32>) -> Seq<MelodyEvent>
    decreases order.len(),
{
    if order.len() == 0 {
        Seq::empty()
    } else {
        melody_events(ms, order.drop_last(), staff_filter) + measure_events(
            ms[order.last() as int].notes@,
            order.len() - 1,
            staff_filter,
        )
    }
}

pub proof fn lemma_voice_bounds(ns: Seq<Note>, vk: (i32, i32))
    ensures
        -(ns.len() as int) * 0x8000_0000 <= voice_position(ns, vk) <= (ns.len() as int) * 0x8000_0000,
        -(ns.len() as int) * 0x8000_0000 <= voice_onset(ns, vk) <= (ns.len() as int) * 0x8000_0000,
    decreases ns.len(),
{
    if ns.len() > 0 {
        lemma_voice_bounds(ns.drop_last(), vk);
    }
}

proof fn lemma_unseen_voice(ns: Seq<Note>, vk: (i32, i32))
    requires
        forall|t: int| 0 <= t < ns.len() && !ns[t].grace ==> voice_key(#[trigger] ns[t]) != vk,
    ensures
        voice_position(ns, vk) == 0,
        voice_onset(ns, vk) == 0,
    decreases ns.len(),
{
    if ns.len() > 0 {
        assert forall|t: int| 0 <= t < ns.drop_last().len() && !ns.drop_last()[t].grace implies voice_key(
            #[trigger] ns.drop_last()[t],
        ) != vk by {
            assert(ns.drop_last()[t] == ns[t]);
        }
        lemma_unseen_voice(ns.drop_last(), vk);
        assert(ns.last() == ns[ns.len() - 1]);
    }
}

/// A voice's clock: its key, position and last onset.
type Clock = ((i32, i32), i128, i128);

pub open spec fn has_key(cs: Seq<Clock>, vk: (i32, i32)) -> bool {
    exists|i: int| 0 <= i < cs.len() && (#[trigger] cs[i]).0 == vk
}

fn find_clock(cs: &Vec<Clock>, vk: (i32, i32)) -> (r: Option<usize>)
    ensures
        match r {
            Some(i) => i < cs@.len() && cs@[i as int].0 == vk,
            None => !has_key(cs@, vk),
        },
{
    let mut k: usize = 0;
    while k < cs.len()
        invariant
            k <= cs@.len(),
            forall|i: int| 0 <= i < k ==> (#[trigger] cs@[i]).0 != vk,
        decreases cs@.len() - k,
    {
        let e = cs[k];
        if e.0.0 == vk.0 && e.0.1 == vk.1 {
            return Some(k);
        }
        k = k + 1;
    }
    None
}

fn note_key(n: &Note) -> (k: (i32, i32))
    ensures
        k == voice_key(*n),
{
    let s = match n.staff {
        Some(s) => s,
        None => 1,
    };
    let v = match n.voice {
        Some(v) => v,
        None => 1,
    };
    (s, v)
}

fn clamp_note(p: &Pitch) -> (n: u8)
    requires
        midi_in_range(*p),
    ensures
        n == clamped_note(*p),
{
    let m = p.to_midi();
    if m < 0 {
        0
    } else if m > 127 {
        127
    } else {
        m as u8
    }
}

/// Melody events of one measure at play-order position `position`.
pub fn measure_melody(notes: &Vec<Note>, position: usize, staff_filter: Option<i32>) -> (r: Vec<MelodyEvent>)
    requires
        forall|j: int|
            0 <= j < notes@.len() ==> match (#[trigger] notes@[j]).pitch {
                Some(p) => midi_in_range(p),
                None => true,
            },
    ensures
        r@ == measure_events(notes@, position as int, staff_filter),
{
    let ghost ns = notes@;
    let mut events: Vec<MelodyEvent> = Vec::new();
    let mut clocks: Vec<Clock> = Vec::new();
    let mut j: usize = 0;
    while j < notes.len()
        invariant
            ns == notes@,
            j <= ns.len(),
            forall|t: int|
                0 <= t < ns.len() ==> match (#[trigger] ns[t]).pitch {
                    Some(p) => midi_in_range(p),
                    None => true,
                },
            events@ == measure_events(ns.take(j as int), position as int, staff_filter),
            forall|i: int|
                0 <= i < clocks@.len() ==> (#[trigger] clocks@[i]).1 == voice_position(
                    ns.take(j as int),
                    clocks@[i].0,
                ) && clocks@[i].2 == voice_onset(ns.take(j as int), clocks@[i].0),
            forall|i: int, i2: int|
                0 <= i < clocks@.len() && 0 <= i2 < clocks@.len() && i != i2 ==> (#[trigger] clocks@[i]).0
                    != (#[trigger] clocks@[i2]).0,
            forall|t: int| 0 <= t < j && !ns[t].grace ==> has_key(clocks@, voice_key(#[trigger] ns[t])),
        decreases ns.len() - j,
    {
        let ghost before = ns.take(j as int);
        let ghost after = ns.take(j + 1);
        let ghost old_clocks = clocks@;
        proof {
            assert(after.drop_last() == before);
            assert(after.last() == ns[j as int]);
            lemma_voice_bounds(before, voice_key(ns[j as int]));
        }
        let n = &notes[j];
        if !n.grace {
            let vk = note_key(n);
            let idx = match find_clock(&clocks, vk) {
                Some(i) => i,
                None => {
                    proof {
                        assert forall|t: int| 0 <= t < before.len() && !before[t].grace implies voice_key(
                            #[trigger] before[t],
                        ) != vk by {
                            assert(before[t] == ns[t]);
                            if voice_key(ns[t]) == vk {
                                assert(has_key(clocks@, voice_key(ns[t])));
                            }
                        }
                        lemma_unseen_voice(before, vk);
                    }
                    clocks.push((vk, 0, 0));
                    clocks.len() - 1
                },
            };
            let ghost mid_clocks = clocks@;
            let (_, pos, last) = clocks[idx];
            assert(pos == voice_position(before, vk) && last == voice_onset(before, vk));
            let emit = match staff_filter {
                Some(s) => vk.0 == s,
                None => true,
            };
            if n.chord {
                if emit && !n.rest {
                    if let Some(ref p) = n.pitch {
                        let note = clamp_note(p);
                        if !n.tie_stop {
                            events.push(
                                MelodyEvent { position, onset: last, duration: n.duration, note, on: true },
                            );
                        }
                        if !n.tie_start {
                            events.push(
                                MelodyEvent { position, onset: last, duration: n.duration, note, on: false },
                            );
                        }
                    }
                }
                proof {
                    assert forall|i: int| 0 <= i < clocks@.len() implies (#[trigger] clocks@[i]).1
                        == voice_position(after, clocks@[i].0) && clocks@[i].2 == voice_onset(
                        after,
                        clocks@[i].0,
                    ) by {
                        assert(voice_position(after, clocks@[i].0) == voice_position(before, clocks@[i].0));
                        assert(voice_onset(after, clocks@[i].0) == voice_onset(before, clocks@[i].0));
                    }
                }
            } else {
                let mut new_last = last;
                if !n.rest {
                    if let Some(ref p) = n.pitch {
                        new_last = pos;
                        if emit {
                            let note = clamp_note(p);
                            if !n.tie_stop {
                                events.push(
                                    MelodyEvent { position, onset: pos, duration: n.duration, note, on: true },
                                );
                            }
                            if !n.tie_start {
                                events.push(
                                    MelodyEvent { position, onset: pos, duration: n.duration, note, on: false },
                                );
                            }
                        }
                    }
                }
                clocks.set(idx, (vk, pos + n.duration as i128, new_last));
                proof {
                    assert forall|i: int| 0 <= i < clocks@.len() implies (#[trigger] clocks@[i]).1
                        == voice_position(after, clocks@[i].0) && clocks@[i].2 == voice_onset(
                        after,
                        clocks@[i].0,
                    ) by {
                        if i != idx {
                            assert(clocks@[i] == mid_clocks[i]);
                            assert(mid_clocks[i].0 != mid_clocks[idx as int].0);
                        }
                    }
                    assert forall|i: int, i2: int|
                        0 <= i < clocks@.len() && 0 <= i2 < clocks@.len() && i != i2 implies (#[trigger] clocks@[i]).0
                            != (#[trigger] clocks@[i2]).0 by {
                        assert(clocks@[i].0 == mid_clocks[i].0);
                        assert(clocks@[i2].0 == mid_clocks[i2].0);
                    }
                }
            }
            proof {
                assert forall|t: int| 0 <= t < j + 1 && !ns[t].grace implies has_key(
                    clocks@,
                    voice_key(#[trigger] ns[t]),
                ) by {
                    if t < j {
                        let w = choose|w: int| 0 <= w < old_clocks.len() && (#[trigger] old_clocks[w]).0
                            == voice_key(ns[t]);
                        assert(clocks@[w].0 == old_clocks[w].0);
                    } else {
                        assert(clocks@[idx as int].0 == vk);
                    }
                }
            }
        } else {
            proof {
                assert forall|i: int| 0 <= i < clocks@.len() implies (#[trigger] clocks@[i]).1
                    == voice_position(after, clocks@[i].0) && clocks@[i].2 == voice_onset(
                    after,
                    clocks@[i].0,
                ) by {
                    assert(voice_position(after, clocks@[i].0) == voice_position(before, clocks@[i].0));
                    assert(voice_onset(after, clocks@[i].0) == voice_onset(before, clocks@[i].0));
                }
            }
        }
        proof {
            assert(events@ =~= measure_events(after, position as int, staff_filter));
        }
        j = j + 1;
    }
    proof {
        assert(ns.take(ns.len() as int) == ns);
    }
    events
}

/// Melody events of a part played in the order `unrolled`, for one staff
/// (`Some(n)`) or all (`None`), in the order the notes are read (see
/// `melody_events`).
pub fn extract_melody(part: &Part, unrolled: &[UnrolledMeasure], staff_filter: Option<i32>) -> (r: Vec<MelodyEvent>)
    requires
        order_in_part(part.measures@, unrolled@),
        pitches_in_range(part.measures@),
    ensures
        r@ == melody_events(part.measures@, order_of(unrolled@), staff_filter),
{
    let ghost ms = part.measures@;
    let ghost order = order_of(unrolled@);
    let mut events: Vec<MelodyEvent> = Vec::new();
    let mut i: usize = 0;
    while i < unrolled.len()
        invariant
            ms == part.measures@,
            order == order_of(unrolled@),
            order_in_part(ms, unrolled@),
            pitches_in_range(ms),
            i <= unrolled@.len(),
            events@ == melody_events(ms, order.take(i as int), staff_filter),
        decreases unrolled@.len() - i,
    {
        proof {
            assert(order.take(i + 1).drop_last() == order.take(i as int));
            assert(order.take(i + 1).last() == unrolled@[i as int].original_index);
        }
        let idx = unrolled[i].original_index;
        assert(idx < ms.len());
        let measure = &part.measures[idx];
        proof {
            assert forall|j: int| 0 <= j < measure.notes@.len() implies match (#[trigger] measure.notes@[j]).pitch {
                Some(p) => midi_in_range(p),
                None => true,
            } by {
                assert(ms[idx as int].notes@[j] == measure.notes@[j]);
            }
        }
        let mut evs = measure_melody(&measure.notes, i, staff_filter);
        events.append(&mut evs);
        i = i + 1;
    }
    proof {
        assert(order.take(unrolled@.len() as int) == order);
    }
    events
}

/// The events of `evs` whose play-order position is `k`, in order.
pub open spec fn events_at(evs: Seq<MelodyEvent>, k: int) -> Seq<MelodyEvent>
    decreases evs.len(),
{
    if evs.len() == 0 {
        Seq::empty()
    } else {
        events_at(evs.drop_last(), k) + if evs.last().position as int == k {
            seq![evs.last()]
        } else {
            Seq::empty()
        }
    }
}

proof fn lemma_events_at_add(a: Seq<MelodyEvent>, b: Seq<MelodyEvent>, k: int)
    ensures
        events_at(a + b, k) == events_at(a, k) + events_at(b, k),
    decreases b.len(),
{
    if b.len() == 0 {
        assert(a + b == a);
        assert(events_at(a, k) + events_at(b, k) == events_at(a, k));
    } else {
        lemma_events_at_add(a, b.drop_last(), k);
        assert((a + b).drop_last() == a + b.drop_last());
        assert((a + b).last() == b.last());
    }
}

proof fn lemma_events_at_all(evs: Seq<MelodyEvent>, k: int)
    requires
        forall|i: int| 0 <= i < evs.len() ==> (#[trigger] evs[i]).position as int == k,
    ensures
        events_at(evs, k) == evs,
    decreases evs.len(),
{
    if evs.len() > 0 {
        lemma_events_at_all(evs.drop_last(), k);
        assert(evs.drop_last().push(evs.last()) == evs);
    }
}

proof fn lemma_events_at_none(evs: Seq<MelodyEvent>, k: int)
    requires
        forall|i: int| 0 <= i < evs.len() ==> (#[trigger] evs[i]).position as int != k,
    ensures
        events_at(evs, k) == Seq::<MelodyEvent>::empty(),
    decreases evs.len(),
{
    if evs.len() > 0 {
        lemma_events_at_none(evs.drop_last(), k);
    }
}

proof fn lemma_measure_events_position(ns: Seq<Note>, position: int, staff_filter: Option<i32>)
    ensures
        forall|i: int|
            0 <= i < measure_events(ns, position, staff_filter).len() ==> (#[trigger] measure_events(
                ns,
                position,
                staff_filter,
            )[i]).position == position as usize,
    decreases ns.len(),
{
    if ns.len() > 0 {
        lemma_measure_events_position(ns.drop_last(), position, staff_filter);
        let a = measure_events(ns.drop_last(), position, staff_filter);
        let b = note_events(ns.drop_last(), ns.last(), position, staff_filter);
        assert forall|i: int| 0 <= i < (a + b).len() implies (#[trigger] (a + b)[i]).position == position as usize by {
            if i < a.len() {
                assert((a + b)[i] == a[i]);
            } else {
                assert((a + b)[i] == b[i - a.len()]);
            }
        }
    }
}

/// Law: the melody of a part played in order `order` is placed by play
/// order. Every event carries the position in the play order of the
/// measure it comes from (which indexes the timemap), never its index in
/// the score: positions stay below the length of the play order and never
/// decrease, and the events at position `k` are exactly those of the
/// `k`-th measure played.
pub proof fn lemma_melody_placed_by_play_order(ms: Seq<Measure>, order: Seq<usize>, staff_filter: Option<i32>)
    requires
        order.len() <= usize::MAX,
    ensures
        forall|i: int|
            0 <= i < melody_events(ms, order, staff_filter).len() ==> (#[trigger] melody_events(
                ms,
                order,
                staff_filter,
            )[i]).position < order.len(),
        forall|i: int, j: int|
            0 <= i <= j < melody_events(ms, order, staff_filter).len() ==> (#[trigger] melody_events(
                ms,
                order,
                staff_filter,
            )[i]).position <= (#[trigger] melody_events(ms, order, staff_filter)[j]).position,
        forall|k: int|
            0 <= k < order.len() ==> #[trigger] events_at(melody_events(ms, order, staff_filter), k)
                == measure_events(ms[order[k] as int].notes@, k, staff_filter),
    decreases order.len(),
{
    if order.len() > 0 {
        let n = order.len() - 1;
        let pre = order.drop_last();
        lemma_melody_placed_by_play_order(ms, pre, staff_filter);
        let a = melody_events(ms, pre, staff_filter);
        let b = measure_events(ms[order.last() as int].notes@, n, staff_filter);
        lemma_measure_events_position(ms[order.last() as int].notes@, n, staff_filter);
        assert(melody_events(ms, order, staff_filter) == a + b);
        assert forall|i: int| 0 <= i < (a + b).len() implies (#[trigger] (a + b)[i]).position < order.len() by {
            if i < a.len() {
                assert((a + b)[i] == a[i]);
            } else {
                assert((a + b)[i] == b[i - a.len()]);
            }
        }
        assert forall|i: int, j: int| 0 <= i <= j < (a + b).len() implies (#[trigger] (a + b)[i]).position
            <= (#[trigger] (a + b)[j]).position by {
            if j < a.len() {
                assert((a + b)[i] == a[i]);
                assert((a + b)[j] == a[j]);
            } else if i < a.len() {
                assert((a + b)[i] == a[i]);
                assert((a + b)[j] == b[j - a.len()]);
            } else {
                assert((a + b)[i] == b[i - a.len()]);
                assert((a + b)[j] == b[j - a.len()]);
            }
        }
        assert forall|k: int| 0 <= k < order.len() implies #[trigger] events_at(a + b, k) == measure_events(
            ms[order[k] as int].notes@,
            k,
            staff_filter,
        ) by {
            lemma_events_at_add(a, b, k);
            if k < n {
                assert(pre[k] == order[k]);
                assert forall|i: int| 0 <= i < b.len() implies (#[trigger] b[i]).position as int != k by {}
                lemma_events_at_none(b, k);
                assert(events_at(a, k) + Seq::<MelodyEvent>::empty() == events_at(a, k));
            } else {
                assert forall|i: int| 0 <= i < a.len() implies (#[trigger] a[i]).position as int != k by {}
                lemma_events_at_none(a, k);
                lemma_events_at_all(b, k);
                assert(Seq::<MelodyEvent>::empty() + b == b);
            }
        }
    }
}

} // verus!
