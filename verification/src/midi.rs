//! Standard MIDI File (SMF, Type 1) encoding: variable-length quantities,
//! track chunks with delta times, the file header, and the options that
//! select which tracks a rendering includes.
use vstd::prelude::*;
use crate::model::{Part, Measure, Note};
use vstd::string::StringSliceAdditionalSpecFns;

verus! {

/// Energy level for accompaniment velocity scaling.
#[derive(Clone, Copy, PartialEq, Eq, Structural, Debug)]
pub enum Energy {
    Soft,
    Medium,
    Strong,
}

impl Default for Energy {
    fn default() -> (r: Self)
        ensures
            r == Energy::Medium,
    {
        Energy::Medium
    }
}

/// Options controlling which MIDI tracks to generate.
#[derive(Debug, Clone)]
pub struct MidiOptions {
    pub include_melody: bool,
    pub include_piano: bool,
    pub include_bass: bool,
    pub include_strings: bool,
    pub include_drums: bool,
    pub include_metronome: bool,
    pub melody_channel: u8,
    pub energy: Energy,
    /// Transposition in semitones (applied to the score before generation).
    pub transpose: i32,
    /// Global melody track numbers to include (1-based); `None` = all,
    /// `Some(empty)` = none.
    pub melody_tracks: Option<Vec<i32>>,
}

/// The default options: melody and metronome, medium energy, no transposition.
pub open spec fn default_options(o: MidiOptions) -> bool {
    &&& o.include_melody
    &&& !o.include_piano
    &&& !o.include_bass
    &&& !o.include_strings
    &&& !o.include_drums
    &&& o.include_metronome
    &&& o.melody_channel == 0
    &&& o.energy == Energy::Medium
    &&& o.transpose == 0
    &&& o.melody_tracks is None
}

impl Default for MidiOptions {
    fn default() -> (o: Self)
        ensures
            default_options(o),
    {
        MidiOptions {
            include_melody: true,
            include_piano: false,
            include_bass: false,
            include_strings: false,
            include_drums: false,
            include_metronome: true,
            melody_channel: 0,
            energy: Energy::Medium,
            transpose: 0,
            melody_tracks: None,
        }
    }
}

/// A single MIDI event at an absolute tick.
#[derive(Debug, Clone)]
pub struct MidiEvent {
    /// Absolute time in ticks from the start of the track
    pub tick: u32,
    /// Raw MIDI message bytes (status + data)
    pub bytes: Vec<u8>,
}

/// Ticks per quarter note in the MIDI output.
pub const TICKS_PER_QUARTER: u16 = 480;

// ─── Variable-length quantities ───────────────────────────────────────────

/// VLQ bytes of `v`, most significant group first; `last` marks the group
/// that ends the quantity (high bit clear).
pub open spec fn vlq_rec(v: nat, last: bool) -> Seq<u8>
    decreases v,
{
    let byte = (v % 128 + if last { 0nat } else { 128nat }) as u8;
    if v < 128 {
        seq![byte]
    } else {
        vlq_rec(v / 128, false) + seq![byte]
    }
}

/// The variable-length quantity encoding of `v`.
pub open spec fn vlq(v: nat) -> Seq<u8> {
    vlq_rec(v, true)
}

/// Value of VLQ bytes: seven payload bits per byte, most significant first.
pub open spec fn vlq_value(bytes: Seq<u8>) -> nat
    decreases bytes.len(),
{
    if bytes.len() == 0 {
        0
    } else {
        vlq_value(bytes.drop_last()) * 128 + (bytes.last() % 128) as nat
    }
}

proof fn lemma_vlq_rec(v: nat, last: bool)
    ensures
        vlq_value(vlq_rec(v, last)) == v,
        vlq_rec(v, last).len() >= 1,
        forall|k: int|
            0 <= k < vlq_rec(v, last).len() - 1 ==> #[trigger] vlq_rec(v, last)[k] >= 128,
        (vlq_rec(v, last).last() >= 128) == !last,
        v < 0x80 ==> vlq_rec(v, last).len() == 1,
        v < 0x4000 ==> vlq_rec(v, last).len() <= 2,
        v < 0x20_0000 ==> vlq_rec(v, last).len() <= 3,
        v < 0x1000_0000 ==> vlq_rec(v, last).len() <= 4,
        v < 0x8_0000_0000 ==> vlq_rec(v, last).len() <= 5,
    decreases v,
{
    let byte = (v % 128 + if last { 0nat } else { 128nat }) as u8;
    assert(byte % 128 == v % 128);
    if v >= 128 {
        vstd::arithmetic::div_mod::lemma_fundamental_div_mod(v as int, 128);
        lemma_vlq_rec(v / 128, false);
        let r = vlq_rec(v, last);
        assert(r.drop_last() == vlq_rec(v / 128, false));
        assert(r.last() == byte);
        assert(vlq_value(r) == vlq_value(r.drop_last()) * 128 + (r.last() % 128) as nat);
        assert(vlq_value(r) == (v / 128) * 128 + v % 128);
        assert forall|k: int| 0 <= k < r.len() - 1 implies #[trigger] r[k] >= 128 by {
            assert(r[k] == vlq_rec(v / 128, false)[k]);
        }
    } else {
        let r = vlq_rec(v, last);
        assert(r.drop_last() =~= Seq::<u8>::empty());
        assert(vlq_value(r) == vlq_value(r.drop_last()) * 128 + (r.last() % 128) as nat);
    }
}

/// Law: a VLQ decodes to the value it encodes; every byte but the last has
/// its high bit set; a 32-bit value takes at most five bytes.
pub proof fn lemma_vlq_roundtrip(v: nat)
    ensures
        vlq_value(vlq(v)) == v,
        1 <= vlq(v).len(),
        forall|k: int| 0 <= k < vlq(v).len() - 1 ==> #[trigger] vlq(v)[k] >= 128,
        vlq(v).last() < 128,
        v < 0x1_0000_0000 ==> vlq(v).len() <= 5,
{
    lemma_vlq_rec(v, true);
}

fn push_vlq(out: &mut Vec<u8>, v: u32, last: bool)
    ensures
        final(out)@ == old(out)@ + vlq_rec(v as nat, last),
    decreases v,
{
    if v >= 128 {
        push_vlq(out, v / 128, false);
    }
    let byte: u8 = if last {
        (v % 128) as u8
    } else {
        (v % 128 + 128) as u8
    };
    out.push(byte);
    proof {
        if v >= 128 {
            assert(final(out)@ =~= old(out)@ + vlq_rec(v as nat, last));
        } else {
            assert(final(out)@ =~= old(out)@ + vlq_rec(v as nat, last));
        }
    }
}

/// Append the variable-length quantity encoding of `value`.
pub fn write_vlq(out: &mut Vec<u8>, value: u32)
    ensures
        final(out)@ == old(out)@ + vlq(value as nat),
{
    push_vlq(out, value, true);
}

// ─── Stable sort by tick ─────────────────────────────────────────────────

/// Insert `x` after every element whose tick is not greater than its own.
pub open spec fn insert_by_tick(s: Seq<(u32, Seq<u8>)>, x: (u32, Seq<u8>)) -> Seq<(u32, Seq<u8>)>
    decreases s.len(),
{
    if s.len() == 0 || s.last().0 <= x.0 {
        s.push(x)
    } else {
        insert_by_tick(s.drop_last(), x).push(s.last())
    }
}

/// Stable sort by tick: equal ticks keep their original order.
pub open spec fn sort_by_tick(s: Seq<(u32, Seq<u8>)>) -> Seq<(u32, Seq<u8>)>
    decreases s.len(),
{
    if s.len() == 0 {
        s
    } else {
        insert_by_tick(sort_by_tick(s.drop_last()), s.last())
    }
}

/// The (tick, bytes) view of events.
pub open spec fn events_view(evs: Seq<MidiEvent>) -> Seq<(u32, Seq<u8>)> {
    evs.map_values(|e: MidiEvent| (e.tick, e.bytes@))
}

pub open spec fn sorted_by_tick(s: Seq<(u32, Seq<u8>)>) -> bool {
    forall|i: int, j: int| 0 <= i <= j < s.len() ==> s[i].0 <= s[j].0
}

proof fn lemma_insert_bounded(s: Seq<(u32, Seq<u8>)>, x: (u32, Seq<u8>), b: u32)
    requires
        forall|k: int| 0 <= k < s.len() ==> #[trigger] s[k].0 <= b,
        x.0 <= b,
    ensures
        forall|k: int| 0 <= k < insert_by_tick(s, x).len() ==> #[trigger] insert_by_tick(s, x)[k].0 <= b,
        insert_by_tick(s, x).len() == s.len() + 1,
    decreases s.len(),
{
    if !(s.len() == 0 || s.last().0 <= x.0) {
        lemma_insert_bounded(s.drop_last(), x, b);
    }
}

proof fn lemma_insert_sorted(s: Seq<(u32, Seq<u8>)>, x: (u32, Seq<u8>))
    requires
        sorted_by_tick(s),
    ensures
        sorted_by_tick(insert_by_tick(s, x)),
        insert_by_tick(s, x).to_multiset() == s.to_multiset().insert(x),
    decreases s.len(),
{
    broadcast use vstd::seq_lib::group_to_multiset_ensures;
    if s.len() == 0 || s.last().0 <= x.0 {
    } else {
        let t = s.drop_last();
        let l = s.last();
        lemma_insert_sorted(t, x);
        lemma_insert_bounded(t, x, l.0);
        assert(s == t.push(l));
    }
}

/// Law: sorting by tick yields a tick-ordered permutation of the events.
pub proof fn lemma_sort_by_tick(s: Seq<(u32, Seq<u8>)>)
    ensures
        sorted_by_tick(sort_by_tick(s)),
        sort_by_tick(s).to_multiset() == s.to_multiset(),
    decreases s.len(),
{
    broadcast use vstd::seq_lib::group_to_multiset_ensures;
    if s.len() > 0 {
        lemma_sort_by_tick(s.drop_last());
        lemma_insert_sorted(sort_by_tick(s.drop_last()), s.last());
        assert(s == s.drop_last().push(s.last()));
    }
}

/// Position at which `insert_by_tick` places `x`.
proof fn lemma_insert_at(s: Seq<(u32, Seq<u8>)>, x: (u32, Seq<u8>), p: int)
    requires
        0 <= p <= s.len(),
        p == 0 || s[p - 1].0 <= x.0,
        forall|k: int| p <= k < s.len() ==> #[trigger] s[k].0 > x.0,
    ensures
        insert_by_tick(s, x) == s.insert(p, x),
    decreases s.len(),
{
    if s.len() == 0 || s.last().0 <= x.0 {
        assert(p == s.len());
        assert(s.insert(p, x) =~= s.push(x));
    } else {
        let t = s.drop_last();
        lemma_insert_at(t, x, p);
        assert(t.insert(p, x).push(s.last()) =~= s.insert(p, x));
    }
}

/// Append `b` to `out`.
pub fn append_bytes(out: &mut Vec<u8>, b: &[u8])
    ensures
        final(out)@ == old(out)@ + b@,
{
    let mut k: usize = 0;
    while k < b.len()
        invariant
            k <= b@.len(),
            out@ == old(out)@ + b@.take(k as int),
        decreases b@.len() - k,
    {
        out.push(b[k]);
        k = k + 1;
        proof {
            assert(out@ =~= old(out)@ + b@.take(k as int));
        }
    }
    proof {
        assert(b@.take(b@.len() as int) == b@);
    }
}

/// Delta time of the last event after the one before it (from tick 0).
pub open spec fn last_delta(s: Seq<(u32, Seq<u8>)>) -> nat {
    let prev: u32 = if s.len() >= 2 {
        s[s.len() - 2].0
    } else {
        0
    };
    if s.last().0 >= prev {
        (s.last().0 - prev) as nat
    } else {
        0
    }
}

/// Ticks elapsed after the delta times of events `s`: the sum of their deltas.
pub open spec fn elapsed(s: Seq<(u32, Seq<u8>)>) -> nat
    decreases s.len(),
{
    if s.len() == 0 {
        0
    } else {
        elapsed(s.drop_last()) + last_delta(s)
    }
}

proof fn lemma_elapsed_sorted(s: Seq<(u32, Seq<u8>)>)
    requires
        sorted_by_tick(s),
        s.len() > 0,
    ensures
        elapsed(s) == s.last().0,
    decreases s.len(),
{
    if s.len() >= 2 {
        let t = s.drop_last();
        assert(sorted_by_tick(t));
        lemma_elapsed_sorted(t);
        assert(t.last() == s[s.len() - 2]);
        assert(s[s.len() - 2].0 <= s[s.len() - 1].0);
    } else {
        assert(s.drop_last().len() == 0);
        assert(elapsed(s.drop_last()) == 0);
    }
}

/// Law: reading an encoded track back, the delta times written before each
/// event add up to that event's tick (events are written in tick order).
pub proof fn lemma_deltas_recover_ticks(evs: Seq<(u32, Seq<u8>)>)
    ensures
        sort_by_tick(evs).len() == evs.len(),
        forall|i: int|
            0 <= i < evs.len() ==> elapsed(#[trigger] sort_by_tick(evs).take(i + 1)) == sort_by_tick(evs)[i].0,
{
    lemma_sort_by_tick(evs);
    let s = sort_by_tick(evs);
    assert(s.len() == evs.len()) by {
        broadcast use vstd::seq_lib::group_to_multiset_ensures;
        assert(s.to_multiset().len() == s.len());
        assert(evs.to_multiset().len() == evs.len());
    }
    assert forall|i: int| 0 <= i < evs.len() implies elapsed(#[trigger] sort_by_tick(evs).take(i + 1))
        == sort_by_tick(evs)[i].0 by {
        let p = s.take(i + 1);
        assert(sorted_by_tick(p));
        lemma_elapsed_sorted(p);
        assert(p.last() == s[i]);
    }
}

/// Delta-time encoded events: each event's VLQ delta then its bytes.
pub open spec fn events_bytes(s: Seq<(u32, Seq<u8>)>) -> Seq<u8>
    decreases s.len(),
{
    if s.len() == 0 {
        Seq::empty()
    } else {
        events_bytes(s.drop_last()) + vlq(last_delta(s)) + s.last().1
    }
}

/// Bytes of an MTrk chunk body: track-name meta event, the events sorted
/// by tick with delta times, end-of-track meta event.
pub open spec fn track_bytes(evs: Seq<(u32, Seq<u8>)>, name: Seq<u8>) -> Seq<u8> {
    seq![0x00u8, 0xFFu8, 0x03u8] + vlq((name.len() as u32) as nat) + name + events_bytes(
        sort_by_tick(evs),
    ) + seq![0x00u8, 0xFFu8, 0x2Fu8, 0x00u8]
}

/// Encode a track's events (with a track-name meta event) into raw MTrk
/// body bytes, events ordered by tick (ties keep their order).
pub fn encode_track(events: &[MidiEvent], name: &str) -> (data: Vec<u8>)
    ensures
        data@ == track_bytes(events_view(events@), name.spec_bytes()),
{
    let mut data: Vec<u8> = Vec::new();
    let name_bytes = name.as_bytes();
    data.push(0x00);
    data.push(0xFF);
    data.push(0x03);
    write_vlq(&mut data, name_bytes.len() as u32);
    append_bytes(&mut data, name_bytes);
    let ghost head = data@;
    assert(head == seq![0x00u8, 0xFFu8, 0x03u8] + vlq((name.spec_bytes().len() as u32) as nat)
        + name.spec_bytes());

    // Stable insertion sort of the event indices by tick.
    let ghost ev = events_view(events@);
    let n = events.len();
    let mut order: Vec<usize> = Vec::new();
    let mut k: usize = 0;
    while k < n
        invariant
            k <= n,
            n == events@.len(),
            ev == events_view(events@),
            forall|j: int| 0 <= j < order@.len() ==> #[trigger] order@[j] < n,
            order@.map_values(|i: usize| ev[i as int]) == sort_by_tick(ev.take(k as int)),
        decreases n - k,
    {
        let tick = events[k].tick;
        let mut p: usize = order.len();
        while p > 0 && events[order[p - 1]].tick > tick
            invariant
                p <= order@.len(),
                n == events@.len(),
                k < n,
                ev == events_view(events@),
                forall|j: int| 0 <= j < order@.len() ==> #[trigger] order@[j] < n,
                forall|j: int| p <= j < order@.len() ==> #[trigger] ev[order@[j] as int].0 > tick,
            decreases p,
        {
            p = p - 1;
        }
        let ghost before = order@;
        order.insert(p, k);
        proof {
            let sv = before.map_values(|i: usize| ev[i as int]);
            assert(ev[k as int].0 == tick);
            lemma_insert_at(sv, ev[k as int], p as int);
            assert(order@.map_values(|i: usize| ev[i as int]) =~= sv.insert(p as int, ev[k as int]));
            assert(ev.take(k + 1).drop_last() == ev.take(k as int));
            assert(ev.take(k + 1).last() == ev[k as int]);
        }
        k = k + 1;
    }
    proof {
        assert(ev.take(n as int) == ev);
    }
    let ghost sorted = sort_by_tick(ev);

    let mut last_tick: u32 = 0;
    let mut j: usize = 0;
    while j < order.len()
        invariant
            j <= order@.len(),
            n == events@.len(),
            ev == events_view(events@),
            forall|t: int| 0 <= t < order@.len() ==> #[trigger] order@[t] < n,
            order@.map_values(|i: usize| ev[i as int]) == sorted,
            data@ == head + events_bytes(sorted.take(j as int)),
            last_tick == (if j == 0 { 0u32 } else { sorted[j - 1].0 }),
        decreases order@.len() - j,
    {
        let e = &events[order[j]];
        let delta = e.tick.saturating_sub(last_tick);
        write_vlq(&mut data, delta);
        append_bytes(&mut data, e.bytes.as_slice());
        last_tick = e.tick;
        proof {
            let sj = sorted.take(j + 1);
            assert(sorted[j as int] == ev[order@[j as int] as int]);
            assert(sj.drop_last() == sorted.take(j as int));
            assert(sj.last() == sorted[j as int]);
            if j >= 1 {
                assert(sj[sj.len() - 2] == sorted[j - 1]);
            }
            assert(delta == last_delta(sj));
            assert(data@ =~= head + events_bytes(sj));
        }
        j = j + 1;
    }
    proof {
        assert(sorted.take(order@.len() as int) == sorted);
    }
    data.push(0x00);
    data.push(0xFF);
    data.push(0x2F);
    data.push(0x00);
    proof {
        assert(data@ =~= track_bytes(ev, name.spec_bytes()));
    }
    data
}

/// Big-endian bytes of a 16-bit value.
pub open spec fn be16(x: u16) -> Seq<u8> {
    seq![(x / 256) as u8, (x % 256) as u8]
}

/// Big-endian bytes of a 32-bit value.
pub open spec fn be32(x: u32) -> Seq<u8> {
    seq![(x / 0x100_0000) as u8, ((x / 0x1_0000) % 256) as u8, ((x / 256) % 256) as u8, (x % 256) as u8]
}

fn push_be16(out: &mut Vec<u8>, x: u16)
    ensures
        final(out)@ == old(out)@ + be16(x),
{
    out.push((x / 256) as u8);
    out.push((x % 256) as u8);
    assert(out@ =~= old(out)@ + be16(x));
}

fn push_be32(out: &mut Vec<u8>, x: u32)
    ensures
        final(out)@ == old(out)@ + be32(x),
{
    out.push((x / 0x100_0000) as u8);
    out.push(((x / 0x1_0000) % 256) as u8);
    out.push(((x / 256) % 256) as u8);
    out.push((x % 256) as u8);
    assert(out@ =~= old(out)@ + be32(x));
}

/// "MThd" then header length 6, format 1, track count, 480 ticks per quarter.
pub open spec fn smf_header(ntracks: u16) -> Seq<u8> {
    seq![0x4Du8, 0x54u8, 0x68u8, 0x64u8] + be32(6) + be16(1) + be16(ntracks) + be16(
        TICKS_PER_QUARTER,
    )
}

/// "MTrk", its length, then its body, for each track in order.
pub open spec fn track_chunks(tracks: Seq<Seq<u8>>) -> Seq<u8>
    decreases tracks.len(),
{
    if tracks.len() == 0 {
        Seq::empty()
    } else {
        track_chunks(tracks.drop_last()) + seq![0x4Du8, 0x54u8, 0x72u8, 0x6Bu8] + be32(
            tracks.last().len() as u32,
        ) + tracks.last()
    }
}

pub open spec fn bytes_views(tracks: Seq<Vec<u8>>) -> Seq<Seq<u8>> {
    tracks.map_values(|t: Vec<u8>| t@)
}

/// Build the complete Standard MIDI File bytes from track bodies.
pub fn build_smf(tracks: &[Vec<u8>]) -> (out: Vec<u8>)
    ensures
        out@ == smf_header(tracks@.len() as u16) + track_chunks(bytes_views(tracks@)),
{
    let mut out: Vec<u8> = Vec::new();
    out.push(0x4D);
    out.push(0x54);
    out.push(0x68);
    out.push(0x64);
    push_be32(&mut out, 6);
    push_be16(&mut out, 1);
    push_be16(&mut out, tracks.len() as u16);
    push_be16(&mut out, TICKS_PER_QUARTER);
    let ghost head = out@;
    assert(head =~= smf_header(tracks@.len() as u16));
    let ghost tv = bytes_views(tracks@);
    let mut k: usize = 0;
    while k < tracks.len()
        invariant
            k <= tracks@.len(),
            tv == bytes_views(tracks@),
            out@ == head + track_chunks(tv.take(k as int)),
        decreases tracks@.len() - k,
    {
        let t = &tracks[k];
        out.push(0x4D);
        out.push(0x54);
        out.push(0x72);
        out.push(0x6B);
        push_be32(&mut out, t.len() as u32);
        append_bytes(&mut out, t.as_slice());
        proof {
            let tk = tv.take(k + 1);
            assert(tk.drop_last() == tv.take(k as int));
            assert(tk.last() == t@);
            assert(out@ =~= head + track_chunks(tk));
        }
        k = k + 1;
    }
    proof {
        assert(tv.take(tracks@.len() as int) == tv);
    }
    out
}

/// Largest staff number named by `staves` attributes and note staff
/// numbers (as unsigned values), at least 1.
pub open spec fn max_staff_in_measure(m: Measure, acc: nat) -> nat {
    let a = match m.attributes {
        Some(attrs) => match attrs.staves {
            Some(s) => if (s as usize) > acc { (s as usize) as nat } else { acc },
            None => acc,
        },
        None => acc,
    };
    max_staff_notes(m.notes@, m.notes@.len() as int, a)
}

pub open spec fn max_staff_notes(notes: Seq<Note>, k: int, acc: nat) -> nat
    decreases k,
{
    if k <= 0 {
        acc
    } else {
        let a = max_staff_notes(notes, k - 1, acc);
        match notes[k - 1].staff {
            Some(s) => if (s as usize) > a { (s as usize) as nat } else { a },
            None => a,
        }
    }
}

pub open spec fn max_staff_measures(ms: Seq<Measure>, k: int) -> nat
    decreases k,
{
    if k <= 0 {
        1
    } else {
        max_staff_in_measure(ms[k - 1], max_staff_measures(ms, k - 1))
    }
}

/// Number of staves of a part: the largest staff number in its `staves`
/// attributes and note staff numbers, at least 1.
pub fn detect_staves(part: &Part) -> (n: usize)
    ensures
        n == max_staff_measures(part.measures@, part.measures@.len() as int),
{
    let mut max_staff: usize = 1;
    let mut i: usize = 0;
    while i < part.measures.len()
        invariant
            i <= part.measures@.len(),
            max_staff == max_staff_measures(part.measures@, i as int),
        decreases part.measures@.len() - i,
    {
        let m = &part.measures[i];
        match m.attributes {
            Some(ref attrs) => match attrs.staves {
                Some(s) => {
                    if s as usize > max_staff {
                        max_staff = s as usize;
                    }
                },
                None => {},
            },
            None => {},
        }
        let mut k: usize = 0;
        let ghost start = max_staff as nat;
        while k < m.notes.len()
            invariant
                k <= m.notes@.len(),
                max_staff == max_staff_notes(m.notes@, k as int, start),
            decreases m.notes@.len() - k,
        {
            match m.notes[k].staff {
                Some(s) => {
                    if s as usize > max_staff {
                        max_staff = s as usize;
                    }
                },
                None => {},
            }
            k = k + 1;
        }
        i = i + 1;
    }
    max_staff
}

/// MIDI channel of the melody track for staff `staff_index` (0-based) of a
/// multi-staff part: the melody channel, then 7, 8, 11, 12, ... up to 15
/// (avoiding the accompaniment channels 1–3 and the drum channel 9).
pub open spec fn staff_channel_spec(staff_index: u8, melody_channel: u8) -> u8 {
    if staff_index == 0 {
        melody_channel
    } else if staff_index == 1 {
        7
    } else if staff_index == 2 {
        8
    } else if staff_index == 3 {
        11
    } else if 12 + staff_index - 4 < 15 {
        (12 + staff_index - 4) as u8
    } else {
        15
    }
}

pub fn staff_channel(staff_index: u8, melody_channel: u8) -> (c: u8)
    requires
        staff_index <= 243,
    ensures
        c == staff_channel_spec(staff_index, melody_channel),
{
    if staff_index == 0 {
        melody_channel
    } else if staff_index == 1 {
        7
    } else if staff_index == 2 {
        8
    } else if staff_index == 3 {
        11
    } else {
        let c = 12 + staff_index - 4;
        if c < 15 {
            c
        } else {
            15
        }
    }
}

/// Program number of a part clamped to 0–127.
pub fn midi_program_byte(program: Option<i32>) -> (b: u8)
    ensures
        b as int == (match program {
            Some(p) => if p < 0 { 0 } else if p > 127 { 127 } else { p as int },
            None => 0,
        }),
{
    let p = match program {
        Some(p) => p,
        None => 0,
    };
    let p = if p < 0 { 0 } else { p };
    let p = if p > 127 { 127 } else { p };
    p as u8
}

/// One melody track of the file: its channel, the staff it plays (all
/// staves without one) and its name.
pub struct MelodyTrack {
    pub channel: u8,
    pub staff: Option<i32>,
    pub name: &'static str,
}

/// The melody tracks of a part with `num_staves` staves: one "Melody"
/// track on the melody channel for a single staff; otherwise one track per
/// staff ("Treble" for the first, "Bass" for the others) on the staff's
/// channel (see `staff_channel_spec`).
pub open spec fn melody_track_ok(num_staves: int, melody_channel: u8, k: int, t: MelodyTrack) -> bool {
    if num_staves <= 1 {
        t.channel == melody_channel && t.staff is None && t.name@ == "Melody"@
    } else {
        &&& t.channel == staff_channel_spec(k as u8, melody_channel)
        &&& t.staff == Some((k + 1) as i32)
        &&& t.name@ == (if k == 0 {
            "Treble"@
        } else {
            "Bass"@
        })
    }
}

/// The melody tracks of a part (see `melody_track_ok`).
pub fn melody_tracks(num_staves: usize, melody_channel: u8) -> (r: Vec<MelodyTrack>)
    requires
        num_staves <= 244,
    ensures
        r@.len() == if num_staves <= 1 {
            1
        } else {
            num_staves as int
        },
        forall|k: int| 0 <= k < r@.len() ==> melody_track_ok(num_staves as int, melody_channel, k, #[trigger] r@[k]),
{
    let mut r: Vec<MelodyTrack> = Vec::new();
    if num_staves <= 1 {
        r.push(MelodyTrack { channel: melody_channel, staff: None, name: "Melody" });
        return r;
    }
    let mut k: usize = 0;
    while k < num_staves
        invariant
            2 <= num_staves <= 244,
            k <= num_staves,
            r@.len() == k,
            forall|i: int| 0 <= i < k ==> melody_track_ok(num_staves as int, melody_channel, i, #[trigger] r@[i]),
        decreases num_staves - k,
    {
        let channel = staff_channel(k as u8, melody_channel);
        let name: &'static str = if k == 0 { "Treble" } else { "Bass" };
        r.push(MelodyTrack { channel, staff: Some((k + 1) as i32), name });
        k = k + 1;
    }
    r
}

/// The program change that starts a track: `0xC0 | channel`, program.
pub fn program_change(channel: u8, program: u8) -> (e: MidiEvent)
    ensures
        e.tick == 0,
        e.bytes@ == seq![0xC0u8 | channel, program],
{
    let b = vec![0xC0u8 | channel, program];
    MidiEvent { tick: 0, bytes: b }
}

/// The melody channels of the staves after the first never use the
/// accompaniment channels (1–3) or the drum channel (9), and stay within
/// the sixteen MIDI channels.
pub proof fn lemma_staff_channels_avoid_accompaniment(staff_index: u8, melody_channel: u8)
    requires
        1 <= staff_index <= 243,
    ensures
        ({
            let c = staff_channel_spec(staff_index, melody_channel);
            &&& c != 1 && c != 2 && c != 3 && c != 9
            &&& c <= 15
        }),
{
}


/// Law: the first eight staves of a part play on distinct channels, so that
/// notes of one staff never end notes of another, when the melody channel
/// is not one of the channels the other staves take (7, 8, 11–15).
pub proof fn lemma_staff_channels_distinct(a: u8, b: u8, melody_channel: u8)
    requires
        a < b < 8,
        melody_channel != 7 && melody_channel != 8 && !(11 <= melody_channel <= 15),
    ensures
        staff_channel_spec(a, melody_channel) != staff_channel_spec(b, melody_channel),
{
}

} // verus!
