//! Engraving decisions of the staff renderer that do not depend on
//! coordinates: how many staves a part needs, key-signature accidental
//! positions and cancellations, note-head filling, navigation texts and
//! octave-shift sizes, beam groups.
use vstd::prelude::*;
use vstd::string::StringExecFns;
use crate::model::{Part, Measure, Note, Clef};
use crate::text::{trim, lowercase, str_to_chars, trim_vec, chars_to_string, to_lowercase, str_eq, eq_str};
use crate::model::Beam;

verus! {

/// Most staves a part is drawn with.
pub const MAX_STAVES: usize = 8;

/// A positive staff number, capped at `MAX_STAVES`.
pub open spec fn capped_staff(s: i32) -> nat {
    if s as int > MAX_STAVES as int {
        MAX_STAVES as nat
    } else {
        s as nat
    }
}

/// `acc` raised to the capped staff number `s` when `s` is positive.
pub open spec fn raise_staff(acc: nat, s: i32) -> nat {
    if s > 0 && capped_staff(s) > acc {
        capped_staff(s)
    } else {
        acc
    }
}

pub open spec fn raise_by_clefs(clefs: Seq<Clef>, k: int, acc: nat) -> nat
    decreases k,
{
    if k <= 0 {
        acc
    } else {
        raise_staff(raise_by_clefs(clefs, k - 1, acc), clefs[k - 1].number)
    }
}

pub open spec fn raise_by_notes(notes: Seq<Note>, k: int, acc: nat) -> nat
    decreases k,
{
    if k <= 0 {
        acc
    } else {
        let a = raise_by_notes(notes, k - 1, acc);
        match notes[k - 1].staff {
            Some(s) => raise_staff(a, s),
            None => a,
        }
    }
}

pub open spec fn raise_by_measure(m: Measure, acc: nat) -> nat {
    let a = match m.attributes {
        Some(attrs) => {
            let b = match attrs.staves {
                Some(s) => raise_staff(acc, s),
                None => acc,
            };
            raise_by_clefs(attrs.clefs@, attrs.clefs@.len() as int, b)
        },
        None => acc,
    };
    raise_by_notes(m.notes@, m.notes@.len() as int, a)
}

/// Staves drawn for measures `ms[..k]`: the largest positive staff number
/// of `staves` attributes, clefs and notes, capped at `MAX_STAVES`, at least 1.
pub open spec fn staves_drawn(ms: Seq<Measure>, k: int) -> nat
    decreases k,
{
    if k <= 0 {
        1
    } else {
        raise_by_measure(ms[k - 1], staves_drawn(ms, k - 1))
    }
}

fn raise(acc: usize, s: i32) -> (r: usize)
    requires
        1 <= acc <= MAX_STAVES,
    ensures
        r == raise_staff(acc as nat, s),
        1 <= r <= MAX_STAVES,
{
    if s > 0 {
        let c: usize = if s as usize > MAX_STAVES { MAX_STAVES } else { s as usize };
        if c > acc {
            c
        } else {
            acc
        }
    } else {
        acc
    }
}

/// Number of staves to draw for a part (see `staves_drawn`); malformed
/// staff numbers never yield more than `MAX_STAVES`.
pub fn detect_staves(part: &Part) -> (n: usize)
    ensures
        n == staves_drawn(part.measures@, part.measures@.len() as int),
        1 <= n <= MAX_STAVES,
{
    let mut max_staff: usize = 1;
    let mut i: usize = 0;
    while i < part.measures.len()
        invariant
            i <= part.measures@.len(),
            max_staff == staves_drawn(part.measures@, i as int),
            1 <= max_staff <= MAX_STAVES,
        decreases part.measures@.len() - i,
    {
        let m = &part.measures[i];
        match m.attributes {
            Some(ref attrs) => {
                match attrs.staves {
                    Some(s) => {
                        max_staff = raise(max_staff, s);
                    },
                    None => {},
                }
                let ghost start = max_staff as nat;
                let mut c: usize = 0;
                while c < attrs.clefs.len()
                    invariant
                        c <= attrs.clefs@.len(),
                        max_staff == raise_by_clefs(attrs.clefs@, c as int, start),
                        1 <= max_staff <= MAX_STAVES,
                    decreases attrs.clefs@.len() - c,
                {
                    max_staff = raise(max_staff, attrs.clefs[c].number);
                    c = c + 1;
                }
            },
            None => {},
        }
        let ghost start = max_staff as nat;
        let mut k: usize = 0;
        while k < m.notes.len()
            invariant
                k <= m.notes@.len(),
                max_staff == raise_by_notes(m.notes@, k as int, start),
                1 <= max_staff <= MAX_STAVES,
            decreases m.notes@.len() - k,
        {
            match m.notes[k].staff {
                Some(s) => {
                    max_staff = raise(max_staff, s);
                },
                None => {},
            }
            k = k + 1;
        }
        i = i + 1;
    }
    max_staff
}

// ─── Key signatures ───────────────────────────────────────────────────────

pub open spec fn abs_int(x: int) -> int {
    if x < 0 {
        -x
    } else {
        x
    }
}

/// Naturals needed to cancel the old key signature when the key changes:
/// none from C; in the same direction, the accidentals dropped; otherwise
/// all the old accidentals.
pub open spec fn naturals_needed(old_fifths: int, new_fifths: int) -> int {
    if old_fifths == 0 {
        0
    } else if (old_fifths > 0 && new_fifths > 0) || (old_fifths < 0 && new_fifths < 0) {
        if abs_int(new_fifths) >= abs_int(old_fifths) {
            0
        } else {
            abs_int(old_fifths) - abs_int(new_fifths)
        }
    } else {
        abs_int(old_fifths)
    }
}

/// Number of naturals that cancel the old key signature (see `naturals_needed`).
pub fn cancellation_natural_count(old_fifths: i32, new_fifths: i32) -> (n: u32)
    ensures
        n == naturals_needed(old_fifths as int, new_fifths as int),
{
    if old_fifths == 0 {
        return 0;
    }
    let same_direction = (old_fifths > 0 && new_fifths > 0) || (old_fifths < 0 && new_fifths < 0);
    let old_abs: u32 = if old_fifths < 0 { (-(old_fifths as i64)) as u32 } else { old_fifths as u32 };
    let new_abs: u32 = if new_fifths < 0 { (-(new_fifths as i64)) as u32 } else { new_fifths as u32 };
    if same_direction {
        if new_abs >= old_abs {
            0
        } else {
            old_abs - new_abs
        }
    } else {
        old_abs
    }
}

/// Whether a clef draws key signatures as on the treble staff (no clef, or a G clef).
pub open spec fn treble_like(clef: Option<Clef>) -> bool {
    match clef {
        Some(c) => c.sign@ == "G"@,
        None => true,
    }
}

/// Staff positions (half-spaces) of the sharps of a key signature.
pub open spec fn sharp_steps(treble: bool) -> Seq<i32> {
    if treble {
        seq![0i32, 3i32, -1i32, 2i32, 5i32, 1i32, 4i32]
    } else {
        seq![2i32, 5i32, 1i32, 4i32, 7i32, 3i32, 6i32]
    }
}

/// Staff positions (half-spaces) of the flats of a key signature.
pub open spec fn flat_steps(treble: bool) -> Seq<i32> {
    if treble {
        seq![4i32, 1i32, 5i32, 2i32, 6i32, 3i32, 7i32]
    } else {
        seq![6i32, 3i32, 7i32, 4i32, 8i32, 5i32, 9i32]
    }
}

fn is_treble(clef: Option<&Clef>) -> (r: bool)
    ensures
        r == treble_like(match clef {
            Some(c) => Some(*c),
            None => None,
        }),
{
    match clef {
        Some(c) => str_eq(c.sign.as_str(), "G"),
        None => true,
    }
}

/// Staff positions of the sharps of a key signature in a clef.
pub fn sharp_positions(clef: Option<&Clef>) -> (v: Vec<i32>)
    ensures
        v@ == sharp_steps(treble_like(match clef {
            Some(c) => Some(*c),
            None => None,
        })),
{
    let v = if is_treble(clef) {
        vec![0, 3, -1, 2, 5, 1, 4]
    } else {
        vec![2, 5, 1, 4, 7, 3, 6]
    };
    assert(v@ =~= sharp_steps(treble_like(match clef {
        Some(c) => Some(*c),
        None => None,
    })));
    v
}

/// Staff positions of the flats of a key signature in a clef.
pub fn flat_positions(clef: Option<&Clef>) -> (v: Vec<i32>)
    ensures
        v@ == flat_steps(treble_like(match clef {
            Some(c) => Some(*c),
            None => None,
        })),
{
    let v = if is_treble(clef) {
        vec![4, 1, 5, 2, 6, 3, 7]
    } else {
        vec![6, 3, 7, 4, 8, 5, 9]
    };
    assert(v@ =~= flat_steps(treble_like(match clef {
        Some(c) => Some(*c),
        None => None,
    })));
    v
}

// ─── Note heads, navigation text, octave shifts ───────────────────────────

/// Whether a note of this type has a filled head (all but whole and half notes).
pub fn is_filled_note(note_type: Option<&str>) -> (r: bool)
    ensures
        r == match note_type {
            Some(t) => t@ != "whole"@ && t@ != "half"@,
            None => true,
        },
{
    match note_type {
        Some(t) => !str_eq(t, "whole") && !str_eq(t, "half"),
        None => true,
    }
}

pub open spec fn has_prefix(s: Seq<char>, p: Seq<char>) -> bool {
    p.len() <= s.len() && s.take(p.len() as int) == p
}

/// Whether lower-cased, trimmed words are a navigation instruction
/// (D.C., D.S., Fine, To Coda, Coda, Segno, Da Capo, Dal Segno).
pub open spec fn jump_words(l: Seq<char>) -> bool {
    has_prefix(l, "d.c."@) || has_prefix(l, "d.s."@) || has_prefix(l, "d. c."@) || has_prefix(
        l,
        "d. s."@,
    ) || l == "fine"@ || has_prefix(l, "to coda"@) || has_prefix(l, "tocoda"@) || l == "coda"@ || l
        == "segno"@ || has_prefix(l, "da capo"@) || has_prefix(l, "dal segno"@)
}

fn starts_with_str(s: &Vec<char>, p: &str) -> (r: bool)
    ensures
        r == has_prefix(s@, p@),
{
    let pv = str_to_chars(p);
    crate::text::starts_with_chars(s, &pv)
}

/// Whether a text is a jump or navigation instruction (see `jump_words`).
pub fn is_jump_text(text: &str) -> (r: bool)
    ensures
        r == jump_words(lowercase(trim(text@))),
{
    let cs = str_to_chars(text);
    let t = trim_vec(&cs);
    let ts = chars_to_string(&t);
    let lower = to_lowercase(ts.as_str());
    let l = str_to_chars(lower.as_str());
    starts_with_str(&l, "d.c.") || starts_with_str(&l, "d.s.") || starts_with_str(&l, "d. c.")
        || starts_with_str(&l, "d. s.") || str_eq(lower.as_str(), "fine") || starts_with_str(
        &l,
        "to coda",
    ) || starts_with_str(&l, "tocoda") || str_eq(lower.as_str(), "coda") || str_eq(
        lower.as_str(),
        "segno",
    ) || starts_with_str(&l, "da capo") || starts_with_str(&l, "dal segno")
}

/// Octaves moved by an octave-shift line of the given size: 8 → 1,
/// 15 → 2, 22 → 3, other sizes (|size| + 1) / 8, at least 1.
pub open spec fn octaves_of_shift(size: int) -> int {
    if size == 8 {
        1
    } else if size == 15 {
        2
    } else if size == 22 {
        3
    } else if (abs_int(size) + 1) / 8 >= 1 {
        (abs_int(size) + 1) / 8
    } else {
        1
    }
}

/// Octaves moved by an octave-shift line (see `octaves_of_shift`).
pub fn octave_shift_amount(size: i32) -> (n: i32)
    ensures
        n == octaves_of_shift(size as int),
{
    if size == 8 {
        1
    } else if size == 15 {
        2
    } else if size == 22 {
        3
    } else {
        let a: i64 = if size < 0 { -(size as i64) } else { size as i64 };
        let q: i64 = (a + 1) / 8;
        if q >= 1 {
            q as i32
        } else {
            1
        }
    }
}

// ─── Placeholder document ─────────────────────────────────────────────────

/// An SVG document that shows a message (used when there is nothing to draw).
pub open spec fn message_svg(message: Seq<char>) -> Seq<char> {
    "<svg xmlns=\"http://www.w3.org/2000/svg\" viewBox=\"0 0 400 100\"><text x=\"200\" y=\"50\" text-anchor=\"middle\" font-size=\"14\" fill=\"gray\">"@
        + message + "</text></svg>"@
}

/// An SVG document showing `message` in grey (see `message_svg`).
pub fn empty_svg(message: &str) -> (s: String)
    ensures
        s@ == message_svg(message@),
{
    let mut s = String::from_str(
        "<svg xmlns=\"http://www.w3.org/2000/svg\" viewBox=\"0 0 400 100\"><text x=\"200\" y=\"50\" text-anchor=\"middle\" font-size=\"14\" fill=\"gray\">",
    );
    s.append(message);
    s.append("</text></svg>");
    s
}


// ─── Beam groups ──────────────────────────────────────────────────────────

/// Whether a note's primary beam (number 1) has the given type.
pub open spec fn has_primary_beam(n: Note, kind: Seq<char>) -> bool {
    exists|i: int| 0 <= i < n.beams@.len() && (#[trigger] n.beams@[i]).number == 1 && n.beams@[i].beam_type@ == kind
}

/// Whether a note takes part in beaming on the drawn staff: a principal
/// sounding note (no chord member, rest or grace note) of that staff.
pub open spec fn beamable(n: Note, staff_filter: Option<i32>) -> bool {
    &&& !n.chord
    &&& !n.rest
    &&& !n.grace
    &&& match staff_filter {
        Some(s) => (match n.staff {
            Some(t) => t,
            None => 1,
        }) == s,
        None => true,
    }
}

/// Beam groups of the notes `ns` as (closed groups, open group): a primary
/// beam "begin" opens a group, "continue" extends it, "end" closes it; a
/// closed group of at least two notes is kept.
pub open spec fn beam_scan(ns: Seq<Note>, staff_filter: Option<i32>) -> (Seq<Seq<usize>>, Seq<usize>)
    decreases ns.len(),
{
    if ns.len() == 0 {
        (Seq::empty(), Seq::empty())
    } else {
        let (groups, current) = beam_scan(ns.drop_last(), staff_filter);
        let n = ns.last();
        let i = (ns.len() - 1) as usize;
        if !beamable(n, staff_filter) {
            (groups, current)
        } else if has_primary_beam(n, "begin"@) {
            (groups, seq![i])
        } else if has_primary_beam(n, "continue"@) {
            (groups, current.push(i))
        } else if has_primary_beam(n, "end"@) {
            let closed = current.push(i);
            (if closed.len() >= 2 {
                groups.push(closed)
            } else {
                groups
            }, Seq::empty())
        } else {
            (groups, current)
        }
    }
}

fn primary_beam(beams: &Vec<Beam>, kind: &str) -> (r: bool)
    ensures
        r == exists|i: int| 0 <= i < beams@.len() && (#[trigger] beams@[i]).number == 1 && beams@[i].beam_type@ == kind@,
{
    let mut k: usize = 0;
    while k < beams.len()
        invariant
            k <= beams@.len(),
            forall|i: int| 0 <= i < k ==> !((#[trigger] beams@[i]).number == 1 && beams@[i].beam_type@ == kind@),
        decreases beams@.len() - k,
    {
        if beams[k].number == 1 && eq_str(&beams[k].beam_type, kind) {
            return true;
        }
        k = k + 1;
    }
    false
}

/// The beam groups of a measure on the drawn staff: runs of note indices
/// from a primary beam's "begin" to its "end", of two notes or more (see
/// `beam_scan`).
pub fn find_beam_groups(measure: &Measure, staff_filter: Option<i32>) -> (r: Vec<Vec<usize>>)
    ensures
        r@.len() == beam_scan(measure.notes@, staff_filter).0.len(),
        forall|g: int| 0 <= g < r@.len() ==> (#[trigger] r@[g])@ == beam_scan(measure.notes@, staff_filter).0[g],
{
    let ghost ns = measure.notes@;
    let mut groups: Vec<Vec<usize>> = Vec::new();
    let mut current: Vec<usize> = Vec::new();
    let mut k: usize = 0;
    while k < measure.notes.len()
        invariant
            ns == measure.notes@,
            k <= ns.len(),
            groups@.len() == beam_scan(ns.take(k as int), staff_filter).0.len(),
            forall|g: int| 0 <= g < groups@.len() ==> (#[trigger] groups@[g])@ == beam_scan(ns.take(k as int), staff_filter).0[g],
            current@ == beam_scan(ns.take(k as int), staff_filter).1,
        decreases ns.len() - k,
    {
        proof {
            assert(ns.take(k + 1).drop_last() == ns.take(k as int));
            assert(ns.take(k + 1).last() == ns[k as int]);
        }
        let n = &measure.notes[k];
        let on_staff = match staff_filter {
            Some(s) => (match n.staff {
                Some(t) => t,
                None => 1,
            }) == s,
            None => true,
        };
        if !n.chord && !n.rest && !n.grace && on_staff {
            if primary_beam(&n.beams, "begin") {
                current = Vec::new();
                current.push(k);
            } else if primary_beam(&n.beams, "continue") {
                current.push(k);
            } else if primary_beam(&n.beams, "end") {
                current.push(k);
                if current.len() >= 2 {
                    let closed = current.clone();
                    groups.push(closed);
                }
                current = Vec::new();
            }
        }
        k = k + 1;
    }
    assert(ns.take(ns.len() as int) == ns);
    groups
}

} // verus!
