//! Unroll a part into play order by expanding repeats and navigation jumps:
//! forward/backward repeat barlines, volta brackets (1st, 2nd, ... endings),
//! D.S. and D.C. jumps, Fine, To Coda / Coda; repeats are not taken again
//! after a D.S./D.C. jump.
use vstd::prelude::*;
use crate::model::{Score, Part, Measure, Barline, Direction};
use crate::text::{
    trim, split, seq_find, occurs_at, parse_i32, lowercase, seq_contains, str_to_chars, split_chars,
    trim_vec, sub_vec, find_chars, parse_i32_chars, to_lowercase, contains_str, eq_str,
};

verus! {

/// One entry in the play-order sequence.
#[derive(Debug, Clone, Copy)]
pub struct UnrolledMeasure {
    /// Index into `Part.measures` of the measure played.
    pub original_index: usize,
}

// ─── Volta numbers ────────────────────────────────────────────────────────

/// The integers `a..=b` (empty when `b < a`).
pub open spec fn int_range(a: int, b: int) -> Seq<i32> {
    Seq::new(if b >= a { (b - a + 1) as nat } else { 0 }, |k: int| (a + k) as i32)
}

/// The numbers denoted by one trimmed, non-empty piece of an ending label:
/// a range `a-b`, a single number, or nothing.
#[verifier::opaque]
pub open spec fn ending_piece(t: Seq<char>) -> Seq<i32> {
    let single = match parse_i32(t) {
        Some(n) => seq![n as i32],
        None => Seq::empty(),
    };
    match seq_find(t, seq!['-']) {
        Some(d) => if d > 0 && parse_i32(t.take(d)) is Some && parse_i32(t.skip(d + 1)) is Some {
            int_range(parse_i32(t.take(d))->0, parse_i32(t.skip(d + 1))->0)
        } else {
            single
        },
        None => single,
    }
}

/// Numbers of all pieces, in order.
pub open spec fn ending_pieces(ps: Seq<Seq<char>>) -> Seq<i32>
    decreases ps.len(),
{
    if ps.len() == 0 {
        Seq::empty()
    } else {
        let t = trim(ps.last());
        ending_pieces(ps.drop_last()) + if t.len() == 0 {
            Seq::<i32>::empty()
        } else {
            ending_piece(t)
        }
    }
}

/// Ending numbers of a volta label such as "1", "1, 2" or "1-3"; a
/// non-blank label from which nothing parses denotes ending 1.
pub open spec fn ending_numbers(s: Seq<char>) -> Seq<i32> {
    let r = ending_pieces(split(s, ',', ' '));
    if r.len() == 0 && trim(s).len() != 0 {
        seq![1i32]
    } else {
        r
    }
}

/// The number a piece denotes on its own, if it parses.
pub open spec fn single_number(t: Seq<char>) -> Seq<i32> {
    match parse_i32(t) {
        Some(n) => seq![n as i32],
        None => Seq::empty(),
    }
}

fn parse_single(t: &Vec<char>) -> (r: Vec<i32>)
    ensures
        r@ == single_number(t@),
{
    let mut r: Vec<i32> = Vec::new();
    match parse_i32_chars(t) {
        Some(n) => {
            r.push(n);
        },
        None => {},
    }
    proof {
        assert(r@ =~= single_number(t@));
    }
    r
}

/// The integers `start..=end`.
fn range_inclusive(start: i32, end: i32) -> (r: Vec<i32>)
    ensures
        r@ == int_range(start as int, end as int),
{
    let mut r: Vec<i32> = Vec::new();
    let mut v: i64 = start as i64;
    while v <= end as i64
        invariant
            start <= v <= (if end >= start { end as int + 1 } else { start as int }),
            r@ == int_range(start as int, v - 1),
        decreases end as int + 1 - v,
    {
        r.push(v as i32);
        v = v + 1;
        proof {
            assert(r@ =~= int_range(start as int, v - 1));
        }
    }
    proof {
        assert(r@ =~= int_range(start as int, end as int));
    }
    r
}

/// Numbers of one trimmed, non-empty piece.
fn parse_ending_piece(t: &Vec<char>) -> (r: Vec<i32>)
    ensures
        r@ == ending_piece(t@),
{
    let dash = vec!['-'];
    proof {
        assert(dash@ == seq!['-']);
        reveal(ending_piece);
    }
    match find_chars(t, &dash) {
        Some(d) => {
            assert(occurs_at(t@, dash@, d as int));
            let tl = t.len();
            assert(d + 1 <= tl);
            if d > 0 {
                let left = sub_vec(t, 0, d);
                let right = sub_vec(t, d + 1, t.len());
                proof {
                    assert(left@ == t@.take(d as int));
                    assert(right@ == t@.skip(d + 1));
                }
                let a = parse_i32_chars(&left);
                let b = parse_i32_chars(&right);
                match (a, b) {
                    (Some(start), Some(end)) => {
                        return range_inclusive(start, end);
                    },
                    _ => {},
                }
            }
        },
        None => {},
    }
    parse_single(t)
}

/// Parse an ending label like "1", "2", "1, 2" or "1-3" into its numbers.
pub fn parse_ending_numbers(s: &str) -> (r: Vec<i32>)
    ensures
        r@ == ending_numbers(s@),
{
    let chars = str_to_chars(s);
    let pieces = split_chars(&chars, ',', ' ');
    let ghost ps = split(s@, ',', ' ');
    let mut result: Vec<i32> = Vec::new();
    let mut k: usize = 0;
    while k < pieces.len()
        invariant
            k <= pieces@.len(),
            pieces@.len() == ps.len(),
            forall|j: int| 0 <= j < pieces@.len() ==> #[trigger] pieces@[j]@ == ps[j],
            result@ == ending_pieces(ps.take(k as int)),
        decreases pieces@.len() - k,
    {
        let t = trim_vec(&pieces[k]);
        proof {
            assert(ps.take(k + 1).drop_last() == ps.take(k as int));
            assert(ps.take(k + 1).last() == ps[k as int]);
        }
        if t.len() > 0 {
            let nums = parse_ending_piece(&t);
            let mut j: usize = 0;
            let ghost base = result@;
            while j < nums.len()
                invariant
                    j <= nums@.len(),
                    result@ == base + nums@.take(j as int),
                decreases nums@.len() - j,
            {
                result.push(nums[j]);
                j = j + 1;
                proof {
                    assert(result@ =~= base + nums@.take(j as int));
                }
            }
            proof {
                assert(nums@.take(nums@.len() as int) == nums@);
            }
        } else {
            proof {
                assert(result@ =~= ending_pieces(ps.take(k + 1)));
            }
        }
        k = k + 1;
    }
    proof {
        assert(ps.take(ps.len() as int) == ps);
    }
    if result.len() == 0 {
        let tr = trim_vec(&chars);
        if tr.len() != 0 {
            result.push(1);
            proof {
                assert(result@ =~= seq![1i32]);
            }
        }
    }
    result
}

// ─── Fine markers ─────────────────────────────────────────────────────────

/// A direction marks "Fine": `<sound fine>`, or words containing "fine"
/// (any case) that are not a "D.S. ..." / "D.C. ..." instruction.
pub open spec fn direction_is_fine(d: Direction) -> bool {
    ||| d.sound_fine
    ||| match d.words {
        Some(w) => {
            let lower = lowercase(w@);
            &&& seq_contains(lower, "fine"@)
            &&& !seq_contains(lower, "d.s."@)
            &&& !seq_contains(lower, "d.c."@)
        },
        None => false,
    }
}

/// Whether some direction of the measure marks "Fine".
pub open spec fn fine_marker(m: Measure) -> bool {
    exists|k: int| 0 <= k < m.directions@.len() && direction_is_fine(#[trigger] m.directions@[k])
}

fn direction_has_fine(d: &Direction) -> (r: bool)
    ensures
        r == direction_is_fine(*d),
{
    if d.sound_fine {
        return true;
    }
    match d.words {
        Some(ref w) => {
            let lower = to_lowercase(w.as_str());
            let lv = str_to_chars(lower.as_str());
            contains_str(&lv, "fine") && !contains_str(&lv, "d.s.") && !contains_str(&lv, "d.c.")
        },
        None => false,
    }
}

/// Whether a measure contains a Fine marker.
pub fn measure_has_fine(m: &Measure) -> (r: bool)
    ensures
        r == fine_marker(*m),
{
    let mut k: usize = 0;
    while k < m.directions.len()
        invariant
            k <= m.directions@.len(),
            forall|j: int| 0 <= j < k ==> !direction_is_fine(#[trigger] m.directions@[j]),
        decreases m.directions@.len() - k,
    {
        if direction_has_fine(&m.directions[k]) {
            return true;
        }
        k = k + 1;
    }
    false
}

// ─── Per-measure structure ───────────────────────────────────────────────

/// A left barline with a forward repeat sign.
pub open spec fn is_forward_left(bl: Barline) -> bool {
    bl.location@ == "left"@ && match bl.repeat {
        Some(r) => r.direction@ == "forward"@,
        None => false,
    }
}

/// A right barline with a backward repeat sign.
pub open spec fn is_backward_right(bl: Barline) -> bool {
    bl.location@ == "right"@ && match bl.repeat {
        Some(r) => r.direction@ == "backward"@,
        None => false,
    }
}

pub open spec fn has_forward_left(m: Measure) -> bool {
    exists|k: int| 0 <= k < m.barlines@.len() && is_forward_left(#[trigger] m.barlines@[k])
}

pub open spec fn has_backward_right(m: Measure) -> bool {
    exists|k: int| 0 <= k < m.barlines@.len() && is_backward_right(#[trigger] m.barlines@[k])
}

pub open spec fn has_segno(m: Measure) -> bool {
    exists|k: int| 0 <= k < m.directions@.len() && (#[trigger] m.directions@[k]).segno
}

pub open spec fn has_coda(m: Measure) -> bool {
    exists|k: int| 0 <= k < m.directions@.len() && (#[trigger] m.directions@[k]).coda
}

pub open spec fn has_tocoda(m: Measure) -> bool {
    exists|k: int| 0 <= k < m.directions@.len() && (#[trigger] m.directions@[k]).sound_tocoda
}

/// Target of the first D.S. (when a segno exists) or D.C. among directions.
pub open spec fn dir_jump(dirs: Seq<Direction>, segno: Option<int>) -> Option<int>
    decreases dirs.len(),
{
    if dirs.len() == 0 {
        None
    } else if dirs[0].sound_dalsegno && segno is Some {
        segno
    } else if dirs[0].sound_dacapo {
        Some(0)
    } else {
        dir_jump(dirs.drop_first(), segno)
    }
}

/// Last measure before index `i` that satisfies `has_segno`.
pub open spec fn segno_before(ms: Seq<Measure>, i: int) -> Option<int>
    decreases i,
{
    if i <= 0 {
        None
    } else if has_segno(ms[i - 1]) {
        Some(i - 1)
    } else {
        segno_before(ms, i - 1)
    }
}

/// Last measure before index `i` that satisfies `has_coda`.
pub open spec fn coda_before(ms: Seq<Measure>, i: int) -> Option<int>
    decreases i,
{
    if i <= 0 {
        None
    } else if has_coda(ms[i - 1]) {
        Some(i - 1)
    } else {
        coda_before(ms, i - 1)
    }
}

/// Measure of the (last) segno sign.
pub open spec fn segno_index(ms: Seq<Measure>) -> Option<int> {
    segno_before(ms, ms.len() as int)
}

/// Measure of the (last) coda sign.
pub open spec fn coda_index(ms: Seq<Measure>) -> Option<int> {
    coda_before(ms, ms.len() as int)
}

/// Jump taken at measure `i` on the first pass (D.S. or D.C.), if any.
pub open spec fn jump_of(ms: Seq<Measure>, i: int) -> Option<int> {
    dir_jump(ms[i].directions@, segno_index(ms))
}

// ─── Volta brackets ──────────────────────────────────────────────────────

/// Effect of one barline on (open ending numbers, ending of this measure).
pub open spec fn volta_step(
    state: (Option<Seq<i32>>, Option<Seq<i32>>),
    bl: Barline,
) -> (Option<Seq<i32>>, Option<Seq<i32>>) {
    match bl.ending {
        Some(e) => if e.ending_type@ == "start"@ {
            let nums = ending_numbers(e.number@);
            (Some(nums), Some(nums))
        } else if e.ending_type@ == "stop"@ || e.ending_type@ == "discontinue"@ {
            (None, if state.1 is None { state.0 } else { state.1 })
        } else {
            state
        },
        None => state,
    }
}

/// Effect of the first `k` barlines.
pub open spec fn volta_fold(
    bls: Seq<Barline>,
    k: int,
    start: (Option<Seq<i32>>, Option<Seq<i32>>),
) -> (Option<Seq<i32>>, Option<Seq<i32>>)
    decreases k,
{
    if k <= 0 {
        start
    } else {
        volta_step(volta_fold(bls, k - 1, start), bls[k - 1])
    }
}

/// (open ending after the measure, ending numbers of the measure).
pub open spec fn measure_volta(m: Measure, open: Option<Seq<i32>>) -> (
    Option<Seq<i32>>,
    Option<Seq<i32>>,
) {
    let st = volta_fold(m.barlines@, m.barlines@.len() as int, (open, None));
    (st.0, if st.1 is None { st.0 } else { st.1 })
}

/// Open ending before measure `i`.
pub open spec fn volta_open(ms: Seq<Measure>, i: int) -> Option<Seq<i32>>
    decreases i,
{
    if i <= 0 {
        None
    } else {
        measure_volta(ms[i - 1], volta_open(ms, i - 1)).0
    }
}

/// Ending numbers of measure `i`: the passes on which it is played.
pub open spec fn volta(ms: Seq<Measure>, i: int) -> Option<Seq<i32>> {
    if 0 <= i < ms.len() {
        measure_volta(ms[i], volta_open(ms, i)).1
    } else {
        None
    }
}

/// Largest of `e` and the numbers in `nums`.
pub open spec fn max_with(e: int, nums: Seq<i32>) -> int
    decreases nums.len(),
{
    if nums.len() == 0 {
        e
    } else {
        let m = max_with(e, nums.drop_last());
        if nums.last() > m {
            nums.last() as int
        } else {
            m
        }
    }
}

/// (current forward-repeat position, passes per section) after the first
/// `i` measures.
pub open spec fn passes_scan(ms: Seq<Measure>, i: int) -> (int, Seq<Option<int>>)
    decreases i,
{
    if i <= 0 {
        (0, Seq::new(ms.len(), |k: int| None))
    } else {
        let prev = passes_scan(ms, i - 1);
        let cf = if has_forward_left(ms[i - 1]) {
            i - 1
        } else {
            prev.0
        };
        match volta(ms, i - 1) {
            Some(nums) => {
                let base = match prev.1[cf] {
                    Some(x) => x,
                    None => 2,
                };
                (cf, prev.1.update(cf, Some(max_with(base, nums))))
            },
            None => (cf, prev.1),
        }
    }
}

/// Number of passes of the repeat section starting at `start`: the
/// highest ending number in it (at least 2), or 2 without endings.
pub open spec fn section_passes(ms: Seq<Measure>, start: int) -> int {
    let t = passes_scan(ms, ms.len() as int).1;
    if 0 <= start < t.len() {
        match t[start] {
            Some(x) => x,
            None => 2,
        }
    } else {
        2
    }
}

// ─── The walk ─────────────────────────────────────────────────────────────

/// Play order produced from position `pos` with the given repeat start,
/// pass number and jump flag, within `fuel` steps.
pub open spec fn walk(ms: Seq<Measure>, pos: int, rs: int, rp: int, jt: bool, fuel: nat) -> Seq<usize>
    decreases fuel,
{
    if pos < 0 || pos >= ms.len() || fuel == 0 {
        Seq::empty()
    } else {
        let m = ms[pos];
        let rs1 = if has_forward_left(m) && rp == 1 {
            pos
        } else {
            rs
        };
        let skip = match volta(ms, pos) {
            Some(nums) => !nums.contains(rp as i32),
            None => false,
        };
        if skip {
            walk(ms, pos + 1, rs1, rp, jt, (fuel - 1) as nat)
        } else if jt && fine_marker(m) {
            seq![pos as usize]
        } else if jt && has_tocoda(m) && coda_index(ms) is Some {
            walk(ms, coda_index(ms)->0, rs1, rp, false, (fuel - 1) as nat)
        } else if !jt && has_backward_right(m) && rp < section_passes(ms, rs1) {
            seq![pos as usize] + walk(ms, rs1, rs1, rp + 1, jt, (fuel - 1) as nat)
        } else if !jt && jump_of(ms, pos) is Some {
            seq![pos as usize] + walk(ms, jump_of(ms, pos)->0, rs1, 1, true, (fuel - 1) as nat)
        } else {
            let reset = rp > 1 && has_backward_right(m) && volta(ms, pos + 1) is None;
            seq![pos as usize] + walk(
                ms,
                pos + 1,
                if reset {
                    pos + 1
                } else {
                    rs1
                },
                if reset {
                    1
                } else {
                    rp
                },
                jt,
                (fuel - 1) as nat,
            )
        }
    }
}

/// The play order of a part's measures: at most fifty steps per measure.
pub open spec fn play_order(ms: Seq<Measure>) -> Seq<usize> {
    walk(ms, 0, 0, 1, false, (ms.len() * 50) as nat)
}

// ─── Tables ──────────────────────────────────────────────────────────────

fn barline_has(bl: &Barline, loc: &str, dir: &str) -> (r: bool)
    ensures
        r == (bl.location@ == loc@ && match bl.repeat {
            Some(rep) => rep.direction@ == dir@,
            None => false,
        }),
{
    if !eq_str(&bl.location, loc) {
        return false;
    }
    match bl.repeat {
        Some(ref rep) => eq_str(&rep.direction, dir),
        None => false,
    }
}

/// (has a forward repeat on a left barline, has a backward repeat on a right barline).
fn barline_flags(m: &Measure) -> (r: (bool, bool))
    ensures
        r.0 == has_forward_left(*m),
        r.1 == has_backward_right(*m),
{
    let mut fwd = false;
    let mut bwd = false;
    let mut k: usize = 0;
    while k < m.barlines.len()
        invariant
            k <= m.barlines@.len(),
            fwd == exists|j: int| 0 <= j < k && is_forward_left(#[trigger] m.barlines@[j]),
            bwd == exists|j: int| 0 <= j < k && is_backward_right(#[trigger] m.barlines@[j]),
        decreases m.barlines@.len() - k,
    {
        let bl = &m.barlines[k];
        if barline_has(bl, "left", "forward") {
            fwd = true;
        }
        if barline_has(bl, "right", "backward") {
            bwd = true;
        }
        k = k + 1;
    }
    (fwd, bwd)
}

/// (segno, coda, to-coda) flags of a measure's directions.
fn direction_flags(m: &Measure) -> (r: (bool, bool, bool))
    ensures
        r.0 == has_segno(*m),
        r.1 == has_coda(*m),
        r.2 == has_tocoda(*m),
{
    let mut seg = false;
    let mut cod = false;
    let mut toc = false;
    let mut k: usize = 0;
    while k < m.directions.len()
        invariant
            k <= m.directions@.len(),
            seg == exists|j: int| 0 <= j < k && (#[trigger] m.directions@[j]).segno,
            cod == exists|j: int| 0 <= j < k && (#[trigger] m.directions@[j]).coda,
            toc == exists|j: int| 0 <= j < k && (#[trigger] m.directions@[j]).sound_tocoda,
        decreases m.directions@.len() - k,
    {
        let d = &m.directions[k];
        if d.segno {
            seg = true;
        }
        if d.coda {
            cod = true;
        }
        if d.sound_tocoda {
            toc = true;
        }
        k = k + 1;
    }
    (seg, cod, toc)
}

pub open spec fn opt_int(o: Option<usize>) -> Option<int> {
    match o {
        Some(x) => Some(x as int),
        None => None,
    }
}

fn measure_jump(m: &Measure, segno: Option<usize>) -> (r: Option<usize>)
    ensures
        opt_int(r) == dir_jump(m.directions@, opt_int(segno)),
        r matches Some(t) ==> (t == 0 || segno == Some(t)),
{
    let mut k: usize = 0;
    proof {
        assert(m.directions@.skip(0) == m.directions@);
    }
    while k < m.directions.len()
        invariant
            k <= m.directions@.len(),
            dir_jump(m.directions@, opt_int(segno)) == dir_jump(m.directions@.skip(k as int), opt_int(segno)),
        decreases m.directions@.len() - k,
    {
        let d = &m.directions[k];
        proof {
            assert(m.directions@.skip(k as int)[0] == *d);
            assert(m.directions@.skip(k as int).drop_first() == m.directions@.skip(k + 1));
        }
        if d.sound_dalsegno && segno.is_some() {
            return segno;
        }
        if d.sound_dacapo {
            return Some(0);
        }
        k = k + 1;
    }
    None
}

fn copy_nums(v: &Vec<i32>) -> (r: Vec<i32>)
    ensures
        r@ == v@,
{
    let mut r: Vec<i32> = Vec::new();
    let mut k: usize = 0;
    while k < v.len()
        invariant
            k <= v@.len(),
            r@ == v@.take(k as int),
        decreases v@.len() - k,
    {
        r.push(v[k]);
        k = k + 1;
        proof {
            assert(r@ =~= v@.take(k as int));
        }
    }
    proof {
        assert(v@.take(v@.len() as int) == v@);
    }
    r
}

fn copy_opt_nums(o: &Option<Vec<i32>>) -> (r: Option<Vec<i32>>)
    ensures
        opt_view(r) == opt_view(*o),
{
    match o {
        Some(v) => Some(copy_nums(v)),
        None => None,
    }
}

pub open spec fn opt_view(o: Option<Vec<i32>>) -> Option<Seq<i32>> {
    match o {
        Some(v) => Some(v@),
        None => None,
    }
}

/// Ending numbers of a barline's "start" ending, or `None`.
fn volta_step_exec(state: (Option<Vec<i32>>, Option<Vec<i32>>), bl: &Barline) -> (r: (
    Option<Vec<i32>>,
    Option<Vec<i32>>,
))
    ensures
        (opt_view(r.0), opt_view(r.1)) == volta_step((opt_view(state.0), opt_view(state.1)), *bl),
{
    let (cur, entry) = state;
    match bl.ending {
        Some(ref e) => {
            if eq_str(&e.ending_type, "start") {
                let nums = parse_ending_numbers(e.number.as_str());
                let nums2 = copy_nums(&nums);
                (Some(nums), Some(nums2))
            } else if eq_str(&e.ending_type, "stop") || eq_str(&e.ending_type, "discontinue") {
                let new_entry = match entry {
                    Some(x) => Some(x),
                    None => cur,
                };
                (None, new_entry)
            } else {
                (cur, entry)
            }
        },
        None => (cur, entry),
    }
}

/// Ending numbers of every measure.
fn volta_table(ms: &Vec<Measure>) -> (r: Vec<Option<Vec<i32>>>)
    ensures
        r@.len() == ms@.len(),
        forall|i: int| 0 <= i < ms@.len() ==> opt_view(#[trigger] r@[i]) == volta(ms@, i),
{
    let mut table: Vec<Option<Vec<i32>>> = Vec::new();
    let mut open: Option<Vec<i32>> = None;
    let mut i: usize = 0;
    while i < ms.len()
        invariant
            i <= ms@.len(),
            table@.len() == i,
            opt_view(open) == volta_open(ms@, i as int),
            forall|j: int| 0 <= j < i ==> opt_view(#[trigger] table@[j]) == volta(ms@, j),
        decreases ms@.len() - i,
    {
        let m = &ms[i];
        let ghost open0 = opt_view(open);
        let mut state: (Option<Vec<i32>>, Option<Vec<i32>>) = (open, None);
        let mut k: usize = 0;
        while k < m.barlines.len()
            invariant
                k <= m.barlines@.len(),
                (opt_view(state.0), opt_view(state.1)) == volta_fold(
                    m.barlines@,
                    k as int,
                    (open0, None),
                ),
            decreases m.barlines@.len() - k,
        {
            state = volta_step_exec(state, &m.barlines[k]);
            k = k + 1;
        }
        let (cur, entry) = state;
        let e = match entry {
            Some(x) => Some(x),
            None => copy_opt_nums(&cur),
        };
        table.push(e);
        open = cur;
        i = i + 1;
    }
    table
}

fn contains_i32(v: &Vec<i32>, x: i32) -> (r: bool)
    ensures
        r == v@.contains(x),
{
    let mut k: usize = 0;
    while k < v.len()
        invariant
            k <= v@.len(),
            forall|j: int| 0 <= j < k ==> v@[j] != x,
        decreases v@.len() - k,
    {
        if v[k] == x {
            assert(v@[k as int] == x);
            return true;
        }
        k = k + 1;
    }
    false
}

pub open spec fn opt_i32(o: Option<i32>) -> Option<int> {
    match o {
        Some(x) => Some(x as int),
        None => None,
    }
}

/// Largest of `e` and the numbers of `nums`.
fn max_with_exec(e: i32, nums: &Vec<i32>) -> (r: i32)
    ensures
        r == max_with(e as int, nums@),
{
    let mut m = e;
    let mut k: usize = 0;
    while k < nums.len()
        invariant
            k <= nums@.len(),
            m == max_with(e as int, nums@.take(k as int)),
        decreases nums@.len() - k,
    {
        proof {
            assert(nums@.take(k + 1).drop_last() == nums@.take(k as int));
        }
        if nums[k] > m {
            m = nums[k];
        }
        k = k + 1;
    }
    proof {
        assert(nums@.take(nums@.len() as int) == nums@);
    }
    m
}

/// Passes of each repeat section, indexed by the section's start.
fn passes_table(ms: &Vec<Measure>, volta_t: &Vec<Option<Vec<i32>>>, fwd: &Vec<bool>) -> (r: Vec<Option<i32>>)
    requires
        volta_t@.len() == ms@.len(),
        fwd@.len() == ms@.len(),
        forall|i: int| 0 <= i < ms@.len() ==> opt_view(#[trigger] volta_t@[i]) == volta(ms@, i),
        forall|i: int| 0 <= i < ms@.len() ==> #[trigger] fwd@[i] == has_forward_left(ms@[i]),
    ensures
        r@.len() == ms@.len(),
        passes_scan(ms@, ms@.len() as int).1.len() == ms@.len(),
        forall|i: int| 0 <= i < ms@.len() ==> opt_i32(#[trigger] r@[i]) == passes_scan(ms@, ms@.len() as int).1[i],
{
    let n = ms.len();
    let mut t: Vec<Option<i32>> = Vec::new();
    let mut k: usize = 0;
    while k < n
        invariant
            k <= n,
            n == ms@.len(),
            t@.len() == k,
            forall|j: int| 0 <= j < k ==> (#[trigger] t@[j]) is None,
        decreases n - k,
    {
        t.push(None);
        k = k + 1;
    }
    let mut cf: usize = 0;
    let mut i: usize = 0;
    while i < n
        invariant
            i <= n,
            n == ms@.len(),
            volta_t@.len() == n,
            fwd@.len() == n,
            t@.len() == n,
            cf < n || n == 0,
            forall|j: int| 0 <= j < n ==> opt_view(#[trigger] volta_t@[j]) == volta(ms@, j),
            forall|j: int| 0 <= j < n ==> #[trigger] fwd@[j] == has_forward_left(ms@[j]),
            cf as int == passes_scan(ms@, i as int).0,
            passes_scan(ms@, i as int).1.len() == n,
            forall|j: int| 0 <= j < n ==> opt_i32(#[trigger] t@[j]) == passes_scan(ms@, i as int).1[j],
        decreases n - i,
    {
        if fwd[i] {
            cf = i;
        }
        match volta_t[i] {
            Some(ref nums) => {
                let base: i32 = match t[cf] {
                    Some(x) => x,
                    None => 2,
                };
                let mx = max_with_exec(base, nums);
                t.set(cf, Some(mx));
                proof {
                    assert forall|j: int| 0 <= j < n implies opt_i32(#[trigger] t@[j]) == passes_scan(
                        ms@,
                        i + 1,
                    ).1[j] by {}
                }
            },
            None => {},
        }
        i = i + 1;
    }
    t
}

/// Play order of the measures `ms` (indices into `ms`).
pub fn unroll_measures(ms: &Vec<Measure>) -> (r: Vec<usize>)
    requires
        ms@.len() * 50 <= usize::MAX,
    ensures
        r@ == play_order(ms@),
{
    let n = ms.len();
    if n == 0 {
        return Vec::new();
    }
    // Pre-scan: segno and coda positions and per-measure flags.
    let mut segno: Option<usize> = None;
    let mut coda: Option<usize> = None;
    let mut fwd: Vec<bool> = Vec::new();
    let mut bwd: Vec<bool> = Vec::new();
    let mut toc: Vec<bool> = Vec::new();
    let mut fine: Vec<bool> = Vec::new();
    let mut i: usize = 0;
    while i < n
        invariant
            i <= n,
            n == ms@.len(),
            opt_int(segno) == segno_before(ms@, i as int),
            opt_int(coda) == coda_before(ms@, i as int),
            segno matches Some(x) ==> x < n,
            coda matches Some(x) ==> x < n,
            fwd@.len() == i,
            bwd@.len() == i,
            toc@.len() == i,
            fine@.len() == i,
            forall|j: int| 0 <= j < i ==> #[trigger] fwd@[j] == has_forward_left(ms@[j]),
            forall|j: int| 0 <= j < i ==> #[trigger] bwd@[j] == has_backward_right(ms@[j]),
            forall|j: int| 0 <= j < i ==> #[trigger] toc@[j] == has_tocoda(ms@[j]),
            forall|j: int| 0 <= j < i ==> #[trigger] fine@[j] == fine_marker(ms@[j]),
        decreases n - i,
    {
        let m = &ms[i];
        let (f, b) = barline_flags(m);
        let (sg, cd, tc) = direction_flags(m);
        if sg {
            segno = Some(i);
        }
        if cd {
            coda = Some(i);
        }
        fwd.push(f);
        bwd.push(b);
        toc.push(tc);
        fine.push(measure_has_fine(m));
        i = i + 1;
    }
    let mut jump: Vec<Option<usize>> = Vec::new();
    let mut i: usize = 0;
    while i < n
        invariant
            i <= n,
            n == ms@.len(),
            opt_int(segno) == segno_index(ms@),
            segno matches Some(x) ==> x < n,
            jump@.len() == i,
            forall|j: int| 0 <= j < i ==> opt_int(#[trigger] jump@[j]) == jump_of(ms@, j),
            forall|j: int| 0 <= j < i ==> (#[trigger] jump@[j] matches Some(t) ==> t < n),
        decreases n - i,
    {
        let t = measure_jump(&ms[i], segno);
        jump.push(t);
        i = i + 1;
    }
    let volta_t = volta_table(ms);
    let passes = passes_table(ms, &volta_t, &fwd);

    let max_iterations = n * 50;
    let ghost total = play_order(ms@);
    let mut result: Vec<usize> = Vec::new();
    let mut pos: usize = 0;
    let mut rs: usize = 0;
    let mut rp: i32 = 1;
    let mut jt = false;
    let mut iterations: usize = 0;
    let mut done = false;
    while pos < n && iterations < max_iterations && !done
        invariant
            n == ms@.len(),
            max_iterations == n * 50,
            iterations <= max_iterations,
            rs <= n,
            1 <= rp,
            total == play_order(ms@),
            total == result@ + if done {
                Seq::<usize>::empty()
            } else {
                walk(ms@, pos as int, rs as int, rp as int, jt, (max_iterations - iterations) as nat)
            },
            opt_int(coda) == coda_index(ms@),
            coda matches Some(x) ==> x < n,
            fwd@.len() == n,
            bwd@.len() == n,
            toc@.len() == n,
            fine@.len() == n,
            jump@.len() == n,
            volta_t@.len() == n,
            passes@.len() == n,
            passes_scan(ms@, n as int).1.len() == n,
            forall|j: int| 0 <= j < n ==> #[trigger] fwd@[j] == has_forward_left(ms@[j]),
            forall|j: int| 0 <= j < n ==> #[trigger] bwd@[j] == has_backward_right(ms@[j]),
            forall|j: int| 0 <= j < n ==> #[trigger] toc@[j] == has_tocoda(ms@[j]),
            forall|j: int| 0 <= j < n ==> #[trigger] fine@[j] == fine_marker(ms@[j]),
            forall|j: int| 0 <= j < n ==> opt_int(#[trigger] jump@[j]) == jump_of(ms@, j),
            forall|j: int| 0 <= j < n ==> (#[trigger] jump@[j] matches Some(t) ==> t < n),
            forall|j: int| 0 <= j < n ==> opt_view(#[trigger] volta_t@[j]) == volta(ms@, j),
            forall|j: int|
                0 <= j < n ==> opt_i32(#[trigger] passes@[j]) == passes_scan(ms@, n as int).1[j],
        decreases max_iterations - iterations,
    {
        let ghost fuel = (max_iterations - iterations) as nat;
        let ghost (p0, rs0, rp0, jt0) = (pos as int, rs as int, rp as int, jt);
        iterations = iterations + 1;
        if fwd[pos] && rp == 1 {
            rs = pos;
        }
        let skip = match volta_t[pos] {
            Some(ref nums) => !contains_i32(nums, rp),
            None => false,
        };
        if skip {
            pos = pos + 1;
        } else if jt && fine[pos] {
            result.push(pos);
            done = true;
        } else if jt && toc[pos] && coda.is_some() {
            pos = match coda {
                Some(c) => c,
                None => pos,
            };
            jt = false;
        } else {
            result.push(pos);
            let max_pass: i32 = if rs < n {
                match passes[rs] {
                    Some(x) => x,
                    None => 2,
                }
            } else {
                2
            };
            if !jt && bwd[pos] && rp < max_pass {
                rp = rp + 1;
                pos = rs;
            } else if !jt && jump[pos].is_some() {
                pos = match jump[pos] {
                    Some(t) => t,
                    None => pos,
                };
                jt = true;
                rp = 1;
            } else {
                let next_has_volta = pos + 1 < n && volta_t[pos + 1].is_some();
                let reset = rp > 1 && bwd[pos] && !next_has_volta;
                pos = pos + 1;
                if reset {
                    rp = 1;
                    rs = pos;
                }
            }
        }
        proof {
            assert(walk(ms@, p0, rs0, rp0, jt0, fuel) == walk(ms@, p0, rs0, rp0, jt0, fuel));
        }
    }
    result
}

/// Unroll one part of the score into play order. An out-of-range part
/// index gives an empty sequence.
pub fn unroll(score: &Score, part_idx: usize) -> (r: Vec<UnrolledMeasure>)
    requires
        part_idx < score.parts@.len() ==> score.parts@[part_idx as int].measures@.len() * 50
            <= usize::MAX,
    ensures
        part_idx >= score.parts@.len() ==> r@.len() == 0,
        part_idx < score.parts@.len() ==> {
            let order = play_order(score.parts@[part_idx as int].measures@);
            &&& r@.len() == order.len()
            &&& forall|k: int| 0 <= k < r@.len() ==> #[trigger] r@[k].original_index == order[k]
        },
{
    if part_idx >= score.parts.len() {
        return Vec::new();
    }
    let order = unroll_measures(&score.parts[part_idx].measures);
    let mut out: Vec<UnrolledMeasure> = Vec::new();
    let mut k: usize = 0;
    while k < order.len()
        invariant
            k <= order@.len(),
            out@.len() == k,
            forall|j: int| 0 <= j < k ==> #[trigger] out@[j].original_index == order@[j],
        decreases order@.len() - k,
    {
        out.push(UnrolledMeasure { original_index: order[k] });
        k = k + 1;
    }
    out
}

// ─── Laws ─────────────────────────────────────────────────────────────────

proof fn lemma_walk_bounds(ms: Seq<Measure>, pos: int, rs: int, rp: int, jt: bool, fuel: nat)
    ensures
        walk(ms, pos, rs, rp, jt, fuel).len() <= fuel,
        forall|k: int|
            0 <= k < walk(ms, pos, rs, rp, jt, fuel).len() ==> #[trigger] walk(
                ms,
                pos,
                rs,
                rp,
                jt,
                fuel,
            )[k] < ms.len(),
    decreases fuel,
{
    if pos < 0 || pos >= ms.len() || fuel == 0 {
    } else {
        let m = ms[pos];
        let rs1 = if has_forward_left(m) && rp == 1 {
            pos
        } else {
            rs
        };
        let f = (fuel - 1) as nat;
        lemma_walk_bounds(ms, pos + 1, rs1, rp, jt, f);
        if coda_index(ms) is Some {
            lemma_walk_bounds(ms, coda_index(ms)->0, rs1, rp, false, f);
        }
        lemma_walk_bounds(ms, rs1, rs1, rp + 1, jt, f);
        if jump_of(ms, pos) is Some {
            lemma_walk_bounds(ms, jump_of(ms, pos)->0, rs1, 1, true, f);
        }
        lemma_walk_bounds(ms, pos + 1, pos + 1, 1, jt, f);
        let w = walk(ms, pos, rs, rp, jt, fuel);
        assert forall|k: int| 0 <= k < w.len() implies #[trigger] w[k] < ms.len() by {
            if k > 0 {
                let skip = match volta(ms, pos) {
                    Some(nums) => !nums.contains(rp as i32),
                    None => false,
                };
                if !skip && !(jt && fine_marker(m)) && !(jt && has_tocoda(m) && coda_index(
                    ms,
                ) is Some) {
                    if !jt && has_backward_right(m) && rp < section_passes(ms, rs1) {
                        assert(w[k] == walk(ms, rs1, rs1, rp + 1, jt, f)[k - 1]);
                    } else if !jt && jump_of(ms, pos) is Some {
                        assert(w[k] == walk(ms, jump_of(ms, pos)->0, rs1, 1, true, f)[k - 1]);
                    } else {
                        let reset = rp > 1 && has_backward_right(m) && volta(ms, pos + 1) is None;
                        if reset {
                            assert(w[k] == walk(ms, pos + 1, pos + 1, 1, jt, f)[k - 1]);
                        } else {
                            assert(w[k] == walk(ms, pos + 1, rs1, rp, jt, f)[k - 1]);
                        }
                    }
                }
            }
        }
    }
}

/// Law: every entry of the play order is the index of a measure of the
/// part, and the play order has at most fifty entries per measure.
pub proof fn lemma_play_order_in_bounds(ms: Seq<Measure>)
    ensures
        play_order(ms).len() <= ms.len() * 50,
        forall|k: int| 0 <= k < play_order(ms).len() ==> #[trigger] play_order(ms)[k] < ms.len(),
{
    lemma_walk_bounds(ms, 0, 0, 1, false, (ms.len() * 50) as nat);
}

/// The measure has no repeat barline, no volta bracket and no D.S./D.C.
pub open spec fn plain_measure(m: Measure) -> bool {
    &&& forall|k: int| 0 <= k < m.barlines@.len() ==> (#[trigger] m.barlines@[k]).repeat is None
        && m.barlines@[k].ending is None
    &&& forall|k: int|
        0 <= k < m.directions@.len() ==> !(#[trigger] m.directions@[k]).sound_dalsegno
            && !m.directions@[k].sound_dacapo
}

proof fn lemma_plain_volta_fold(bls: Seq<Barline>, k: int)
    requires
        0 <= k <= bls.len(),
        forall|j: int| 0 <= j < bls.len() ==> (#[trigger] bls[j]).ending is None,
    ensures
        volta_fold(bls, k, (None, None)) == (None::<Seq<i32>>, None::<Seq<i32>>),
    decreases k,
{
    if k > 0 {
        lemma_plain_volta_fold(bls, k - 1);
    }
}

proof fn lemma_plain_volta(ms: Seq<Measure>, i: int)
    requires
        0 <= i <= ms.len(),
        forall|j: int| 0 <= j < ms.len() ==> plain_measure(#[trigger] ms[j]),
    ensures
        volta_open(ms, i) is None,
        i < ms.len() ==> volta(ms, i) is None,
    decreases i,
{
    if i > 0 {
        lemma_plain_volta(ms, i - 1);
        let m = ms[i - 1];
        assert(plain_measure(m));
        lemma_plain_volta_fold(m.barlines@, m.barlines@.len() as int);
    }
    if i < ms.len() {
        let m = ms[i];
        assert(plain_measure(m));
        lemma_plain_volta_fold(m.barlines@, m.barlines@.len() as int);
    }
}

proof fn lemma_plain_jump(dirs: Seq<Direction>, segno: Option<int>)
    requires
        forall|k: int| 0 <= k < dirs.len() ==> !(#[trigger] dirs[k]).sound_dalsegno && !dirs[k].sound_dacapo,
    ensures
        dir_jump(dirs, segno) is None,
    decreases dirs.len(),
{
    if dirs.len() > 0 {
        assert(!dirs[0].sound_dalsegno && !dirs[0].sound_dacapo);
        assert forall|k: int| 0 <= k < dirs.drop_first().len() implies !(
        #[trigger] dirs.drop_first()[k]).sound_dalsegno && !dirs.drop_first()[k].sound_dacapo by {
            assert(dirs.drop_first()[k] == dirs[k + 1]);
        }
        lemma_plain_jump(dirs.drop_first(), segno);
    }
}

proof fn lemma_plain_walk(ms: Seq<Measure>, pos: int, rs: int, fuel: nat)
    requires
        0 <= pos <= ms.len(),
        fuel >= ms.len() - pos,
        forall|j: int| 0 <= j < ms.len() ==> plain_measure(#[trigger] ms[j]),
    ensures
        walk(ms, pos, rs, 1, false, fuel) == Seq::new((ms.len() - pos) as nat, |k: int| (pos + k) as usize),
    decreases ms.len() - pos,
{
    if pos < ms.len() {
        let m = ms[pos];
        assert(plain_measure(m));
        lemma_plain_volta(ms, pos);
        lemma_plain_jump(m.directions@, segno_index(ms));
        assert(!has_forward_left(m)) by {
            if has_forward_left(m) {
                let k = choose|k: int| 0 <= k < m.barlines@.len() && is_forward_left(#[trigger] m.barlines@[k]);
                assert(m.barlines@[k].repeat is None);
            }
        }
        assert(!has_backward_right(m)) by {
            if has_backward_right(m) {
                let k = choose|k: int| 0 <= k < m.barlines@.len() && is_backward_right(#[trigger] m.barlines@[k]);
                assert(m.barlines@[k].repeat is None);
            }
        }
        lemma_plain_walk(ms, pos + 1, rs, (fuel - 1) as nat);
        assert(walk(ms, pos, rs, 1, false, fuel) =~= Seq::new(
            (ms.len() - pos) as nat,
            |k: int| (pos + k) as usize,
        ));
    } else {
        assert(walk(ms, pos, rs, 1, false, fuel) =~= Seq::new(
            (ms.len() - pos) as nat,
            |k: int| (pos + k) as usize,
        ));
    }
}

/// Law: a part without repeat barlines, volta brackets or D.S./D.C. jumps
/// is played once, measure by measure, in score order.
pub proof fn lemma_plain_part_plays_in_order(ms: Seq<Measure>)
    requires
        forall|j: int| 0 <= j < ms.len() ==> plain_measure(#[trigger] ms[j]),
    ensures
        play_order(ms) == Seq::new(ms.len(), |k: int| k as usize),
{
    lemma_plain_walk(ms, 0, 0, (ms.len() * 50) as nat);
    assert(play_order(ms) =~= Seq::new(ms.len(), |k: int| k as usize));
}

/// The repeat start a walk keeps after visiting measure `pos`: the measure
/// itself when it opens a forward repeat on a first pass.
pub open spec fn start_after(ms: Seq<Measure>, pos: int, rs: int, rp: int) -> int {
    if has_forward_left(ms[pos]) && rp == 1 {
        pos
    } else {
        rs
    }
}

/// A measure under an ending bracket is skipped on every pass that its
/// ending numbers do not name: the walk goes straight on to the next
/// measure on the same pass.
pub proof fn lemma_ending_skipped_on_other_passes(
    ms: Seq<Measure>,
    pos: int,
    rs: int,
    rp: int,
    jt: bool,
    fuel: nat,
    nums: Seq<i32>,
)
    requires
        0 <= pos < ms.len(),
        volta(ms, pos) == Some(nums),
        !nums.contains(rp as i32),
    ensures
        walk(ms, pos, rs, rp, jt, fuel + 1) == walk(ms, pos + 1, start_after(ms, pos, rs, rp), rp, jt, fuel),
{
}

/// A measure under an ending bracket is played on a pass that its ending
/// numbers name (ending n plays on pass n) when no jump is pending: it
/// comes next in the play order.
pub proof fn lemma_ending_played_on_its_pass(
    ms: Seq<Measure>,
    pos: int,
    rs: int,
    rp: int,
    fuel: nat,
    nums: Seq<i32>,
)
    requires
        0 <= pos < ms.len(),
        volta(ms, pos) == Some(nums),
        nums.contains(rp as i32),
    ensures
        walk(ms, pos, rs, rp, false, fuel + 1).len() >= 1,
        walk(ms, pos, rs, rp, false, fuel + 1)[0] == pos as usize,
{
}

/// A D.C. or D.S. leads to the first measure or to the segno sign.
pub proof fn lemma_jump_target(dirs: Seq<Direction>, segno: Option<int>)
    ensures
        dir_jump(dirs, segno) matches Some(t) ==> (t == 0 || segno == Some(t)),
    decreases dirs.len(),
{
    if dirs.len() > 0 {
        lemma_jump_target(dirs.drop_first(), segno);
    }
}

/// At a D.C. or D.S. reached before any jump, with no repeat left to take
/// at that measure, the measure is played and the walk goes on from the
/// jump's target (the first measure or the segno) on a first pass, with
/// the jump taken.
pub proof fn lemma_jump_taken(ms: Seq<Measure>, pos: int, rs: int, rp: int, fuel: nat)
    requires
        0 <= pos < ms.len(),
        !(volta(ms, pos) matches Some(nums) && !nums.contains(rp as i32)),
        !(has_backward_right(ms[pos]) && rp < section_passes(ms, start_after(ms, pos, rs, rp))),
        jump_of(ms, pos) is Some,
    ensures
        jump_of(ms, pos)->0 == 0 || segno_index(ms) == jump_of(ms, pos),
        walk(ms, pos, rs, rp, false, fuel + 1) == seq![pos as usize] + walk(
            ms,
            jump_of(ms, pos)->0,
            start_after(ms, pos, rs, rp),
            1,
            true,
            fuel,
        ),
{
    lemma_jump_target(ms[pos].directions@, segno_index(ms));
}

/// After a D.C. or D.S. has been taken, a measure marked Fine that is
/// played ends the play order.
pub proof fn lemma_fine_ends_after_jump(ms: Seq<Measure>, pos: int, rs: int, rp: int, fuel: nat)
    requires
        0 <= pos < ms.len(),
        !(volta(ms, pos) matches Some(nums) && !nums.contains(rp as i32)),
        fine_marker(ms[pos]),
    ensures
        walk(ms, pos, rs, rp, true, fuel + 1) == seq![pos as usize],
{
}

/// Measures `a..=b` in score order.
pub open spec fn measure_run(a: int, b: int) -> Seq<usize> {
    Seq::new((b - a + 1) as nat, |k: int| (a + k) as usize)
}

proof fn lemma_passes_scan_no_volta(ms: Seq<Measure>, i: int)
    requires
        0 <= i <= ms.len(),
        forall|t: int| 0 <= t < ms.len() ==> #[trigger] volta(ms, t) is None,
    ensures
        passes_scan(ms, i).1 == Seq::new(ms.len(), |k: int| None::<int>),
    decreases i,
{
    if i > 0 {
        lemma_passes_scan_no_volta(ms, i - 1);
        assert(volta(ms, i - 1) is None);
    }
}

/// In a part without ending brackets every repeat section is played twice.
proof fn lemma_two_passes(ms: Seq<Measure>, start: int)
    requires
        forall|t: int| 0 <= t < ms.len() ==> #[trigger] volta(ms, t) is None,
    ensures
        section_passes(ms, start) == 2,
{
    lemma_passes_scan_no_volta(ms, ms.len() as int);
}

/// A run of measures `j..b` (before the section's last measure) with no
/// repeat sign, bracket or jump that leaves the repeat start unchanged is
/// played in score order.
proof fn lemma_run_in_order(ms: Seq<Measure>, j: int, b: int, rsv: int, rp: int, fuel: nat)
    requires
        0 <= j <= b < ms.len(),
        fuel >= b - j,
        forall|t: int| 0 <= t < ms.len() ==> #[trigger] volta(ms, t) is None,
        forall|t: int| j <= t < b ==> !has_backward_right(#[trigger] ms[t]),
        forall|t: int| j <= t < b ==> #[trigger] jump_of(ms, t) is None,
        forall|t: int| j <= t < b ==> #[trigger] start_after(ms, t, rsv, rp) == rsv,
    ensures
        walk(ms, j, rsv, rp, false, fuel) == Seq::new((b - j) as nat, |k: int| (j + k) as usize) + walk(
            ms,
            b,
            rsv,
            rp,
            false,
            (fuel - (b - j)) as nat,
        ),
    decreases b - j,
{
    if j < b {
        assert(volta(ms, j) is None);
        assert(jump_of(ms, j) is None);
        assert(start_after(ms, j, rsv, rp) == rsv);
        assert(!has_backward_right(ms[j]));
        lemma_run_in_order(ms, j + 1, b, rsv, rp, (fuel - 1) as nat);
        assert(walk(ms, j, rsv, rp, false, fuel) == seq![j as usize] + walk(ms, j + 1, rsv, rp, false, (fuel - 1) as nat));
        assert(seq![j as usize] + Seq::new((b - (j + 1)) as nat, |k: int| (j + 1 + k) as usize) =~= Seq::new(
            (b - j) as nat,
            |k: int| (j + k) as usize,
        ));
    } else {
        assert(Seq::new((b - j) as nat, |k: int| (j + k) as usize) =~= Seq::<usize>::empty());
    }
}

/// Law: a repeated section `a..=b` (a forward repeat at its first measure,
/// a backward repeat at its last, no other repeat sign and no D.C./D.S.
/// inside, in a part without ending brackets), entered on a first pass
/// without a pending jump, is played twice in a row; the walk then goes on
/// at the next measure on a new first pass, so a section that follows is
/// repeated in turn.
pub proof fn lemma_repeated_section_plays_twice(ms: Seq<Measure>, a: int, b: int, rs: int, fuel: nat)
    requires
        0 <= a <= b < ms.len(),
        fuel >= 2 * (b - a + 1),
        forall|t: int| 0 <= t < ms.len() ==> #[trigger] volta(ms, t) is None,
        has_forward_left(ms[a]),
        has_backward_right(ms[b]),
        forall|t: int| a < t <= b ==> !has_forward_left(#[trigger] ms[t]),
        forall|t: int| a <= t < b ==> !has_backward_right(#[trigger] ms[t]),
        forall|t: int| a <= t <= b ==> #[trigger] jump_of(ms, t) is None,
    ensures
        walk(ms, a, rs, 1, false, fuel) == measure_run(a, b) + measure_run(a, b) + walk(
            ms,
            b + 1,
            b + 1,
            1,
            false,
            (fuel - 2 * (b - a + 1)) as nat,
        ),
{
    let len = b - a + 1;
    let body = Seq::new((b - a) as nat, |k: int| (a + k) as usize);
    lemma_two_passes(ms, a);
    assert(volta(ms, a) is None);
    assert(jump_of(ms, a) is None);
    assert(jump_of(ms, b) is None);
    assert(volta(ms, b + 1) is None);
    // the repeat start is `a` from the first measure on
    assert(walk(ms, a, rs, 1, false, fuel) == walk(ms, a, a, 1, false, fuel));
    assert forall|t: int| a <= t < b implies #[trigger] start_after(ms, t, a, 1) == a by {}
    assert forall|t: int| a <= t < b implies #[trigger] start_after(ms, t, a, 2) == a by {}
    // first pass
    lemma_run_in_order(ms, a, b, a, 1, fuel);
    let f1 = (fuel - (b - a)) as nat;
    assert(start_after(ms, b, a, 1) == a);
    assert(walk(ms, b, a, 1, false, f1) == seq![b as usize] + walk(ms, a, a, 2, false, (f1 - 1) as nat));
    // second pass
    let f2 = (f1 - 1) as nat;
    lemma_run_in_order(ms, a, b, a, 2, f2);
    let f3 = (f2 - (b - a)) as nat;
    assert(start_after(ms, b, a, 2) == a);
    assert(walk(ms, b, a, 2, false, f3) == seq![b as usize] + walk(ms, b + 1, b + 1, 1, false, (f3 - 1) as nat));
    assert(body.push(b as usize) =~= measure_run(a, b));
    assert((f3 - 1) as nat == (fuel - 2 * len) as nat);
    let rest = walk(ms, b + 1, b + 1, 1, false, (fuel - 2 * len) as nat);
    assert(body + (seq![b as usize] + (body + (seq![b as usize] + rest))) =~= measure_run(a, b) + measure_run(a, b)
        + rest);
}

} // verus!
