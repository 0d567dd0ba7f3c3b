//! Reading a MusicXML `score-partwise` document into the score model.
//! Within an element, a child that sets a single value overrides earlier
//! ones (the last one counts); repeated children (notes, beams, clefs,
//! ...) are collected in document order.
use vstd::prelude::*;
use vstd::string::StringExecFns;
use crate::model::{Score, Part, Measure, Attributes, Key, TimeSignature, Clef, Transpose, Note, Pitch, Beam, Lyric, SlurEvent, Harmony, HarmonyRoot, Barline, Repeat, Ending, Direction, MetronomeMark};
use crate::xml::{
    XmlElement, xml_parse, root_index, is_element_tree, parse_xml, attr, attr_is, trimmed_text, trimmed_text_or, attribute,
    attribute_is, text_trimmed, text_trimmed_or,
};
use crate::text::{parse_i32, str_to_chars, parse_i32_chars, str_eq};
use crate::decimal::{
    decimal_hundredths, decimal_thousandths, decimal_whole_saturating, parse_hundredths,
    parse_thousandths, parse_whole_saturating,
};

verus! {

// ─── Element names ────────────────────────────────────────────────────────

/// MusicXML element names that the reader distinguishes.
#[derive(Debug, Clone, Copy, PartialEq, Eq, Structural)]
pub enum Tag {
    Work,
    WorkTitle,
    Identification,
    Creator,
    Encoding,
    Software,
    Credit,
    CreditType,
    CreditWords,
    PartList,
    ScorePart,
    PartName,
    PartAbbreviation,
    MidiInstrument,
    MidiChannel,
    MidiProgram,
    Part,
    Measure,
    Attributes,
    Note,
    Harmony,
    Barline,
    Direction,
    Sound,
    Print,
    SystemLayout,
    Divisions,
    Key,
    Time,
    Staves,
    Clef,
    Transpose,
    Fifths,
    Mode,
    Beats,
    BeatType,
    Sign,
    Line,
    ClefOctaveChange,
    Diatonic,
    Chromatic,
    OctaveChange,
    Pitch,
    Duration,
    Voice,
    Staff,
    Type,
    Stem,
    Beam,
    Rest,
    Grace,
    Chord,
    Dot,
    Accidental,
    Tie,
    Notations,
    Slur,
    Lyric,
    Text,
    Syllabic,
    Step,
    Octave,
    Alter,
    Root,
    RootStep,
    RootAlter,
    Kind,
    Bass,
    BassStep,
    BassAlter,
    BarStyle,
    Repeat,
    Ending,
    DirectionType,
    Metronome,
    Words,
    Segno,
    Coda,
    Rehearsal,
    OctaveShift,
    BeatUnit,
    BeatUnitDot,
    PerMinute,
    /// Any other element
    Other,
}

/// The tag of an element name.
pub open spec fn tag_of(name: Seq<char>) -> Tag {
    if name == "work"@ {
        Tag::Work
    } else if name == "work-title"@ {
        Tag::WorkTitle
    } else if name == "identification"@ {
        Tag::Identification
    } else if name == "creator"@ {
        Tag::Creator
    } else if name == "encoding"@ {
        Tag::Encoding
    } else if name == "software"@ {
        Tag::Software
    } else if name == "credit"@ {
        Tag::Credit
    } else if name == "credit-type"@ {
        Tag::CreditType
    } else if name == "credit-words"@ {
        Tag::CreditWords
    } else if name == "part-list"@ {
        Tag::PartList
    } else if name == "score-part"@ {
        Tag::ScorePart
    } else if name == "part-name"@ {
        Tag::PartName
    } else if name == "part-abbreviation"@ {
        Tag::PartAbbreviation
    } else if name == "midi-instrument"@ {
        Tag::MidiInstrument
    } else if name == "midi-channel"@ {
        Tag::MidiChannel
    } else if name == "midi-program"@ {
        Tag::MidiProgram
    } else if name == "part"@ {
        Tag::Part
    } else if name == "measure"@ {
        Tag::Measure
    } else if name == "attributes"@ {
        Tag::Attributes
    } else if name == "note"@ {
        Tag::Note
    } else if name == "harmony"@ {
        Tag::Harmony
    } else if name == "barline"@ {
        Tag::Barline
    } else if name == "direction"@ {
        Tag::Direction
    } else if name == "sound"@ {
        Tag::Sound
    } else if name == "print"@ {
        Tag::Print
    } else if name == "system-layout"@ {
        Tag::SystemLayout
    } else if name == "divisions"@ {
        Tag::Divisions
    } else if name == "key"@ {
        Tag::Key
    } else if name == "time"@ {
        Tag::Time
    } else if name == "staves"@ {
        Tag::Staves
    } else if name == "clef"@ {
        Tag::Clef
    } else if name == "transpose"@ {
        Tag::Transpose
    } else if name == "fifths"@ {
        Tag::Fifths
    } else if name == "mode"@ {
        Tag::Mode
    } else if name == "beats"@ {
        Tag::Beats
    } else if name == "beat-type"@ {
        Tag::BeatType
    } else if name == "sign"@ {
        Tag::Sign
    } else if name == "line"@ {
        Tag::Line
    } else if name == "clef-octave-change"@ {
        Tag::ClefOctaveChange
    } else if name == "diatonic"@ {
        Tag::Diatonic
    } else if name == "chromatic"@ {
        Tag::Chromatic
    } else if name == "octave-change"@ {
        Tag::OctaveChange
    } else if name == "pitch"@ {
        Tag::Pitch
    } else if name == "duration"@ {
        Tag::Duration
    } else if name == "voice"@ {
        Tag::Voice
    } else if name == "staff"@ {
        Tag::Staff
    } else if name == "type"@ {
        Tag::Type
    } else if name == "stem"@ {
        Tag::Stem
    } else if name == "beam"@ {
        Tag::Beam
    } else if name == "rest"@ {
        Tag::Rest
    } else if name == "grace"@ {
        Tag::Grace
    } else if name == "chord"@ {
        Tag::Chord
    } else if name == "dot"@ {
        Tag::Dot
    } else if name == "accidental"@ {
        Tag::Accidental
    } else if name == "tie"@ {
        Tag::Tie
    } else if name == "notations"@ {
        Tag::Notations
    } else if name == "slur"@ {
        Tag::Slur
    } else if name == "lyric"@ {
        Tag::Lyric
    } else if name == "text"@ {
        Tag::Text
    } else if name == "syllabic"@ {
        Tag::Syllabic
    } else if name == "step"@ {
        Tag::Step
    } else if name == "octave"@ {
        Tag::Octave
    } else if name == "alter"@ {
        Tag::Alter
    } else if name == "root"@ {
        Tag::Root
    } else if name == "root-step"@ {
        Tag::RootStep
    } else if name == "root-alter"@ {
        Tag::RootAlter
    } else if name == "kind"@ {
        Tag::Kind
    } else if name == "bass"@ {
        Tag::Bass
    } else if name == "bass-step"@ {
        Tag::BassStep
    } else if name == "bass-alter"@ {
        Tag::BassAlter
    } else if name == "bar-style"@ {
        Tag::BarStyle
    } else if name == "repeat"@ {
        Tag::Repeat
    } else if name == "ending"@ {
        Tag::Ending
    } else if name == "direction-type"@ {
        Tag::DirectionType
    } else if name == "metronome"@ {
        Tag::Metronome
    } else if name == "words"@ {
        Tag::Words
    } else if name == "segno"@ {
        Tag::Segno
    } else if name == "coda"@ {
        Tag::Coda
    } else if name == "rehearsal"@ {
        Tag::Rehearsal
    } else if name == "octave-shift"@ {
        Tag::OctaveShift
    } else if name == "beat-unit"@ {
        Tag::BeatUnit
    } else if name == "beat-unit-dot"@ {
        Tag::BeatUnitDot
    } else if name == "per-minute"@ {
        Tag::PerMinute
    } else {
        Tag::Other
    }
}

/// The tag of an element name (see `tag_of`).
pub fn classify(name: &str) -> (t: Tag)
    ensures
        t == tag_of(name@),
{
    if str_eq(name, "work") {
        Tag::Work
    } else if str_eq(name, "work-title") {
        Tag::WorkTitle
    } else if str_eq(name, "identification") {
        Tag::Identification
    } else if str_eq(name, "creator") {
        Tag::Creator
    } else if str_eq(name, "encoding") {
        Tag::Encoding
    } else if str_eq(name, "software") {
        Tag::Software
    } else if str_eq(name, "credit") {
        Tag::Credit
    } else if str_eq(name, "credit-type") {
        Tag::CreditType
    } else if str_eq(name, "credit-words") {
        Tag::CreditWords
    } else if str_eq(name, "part-list") {
        Tag::PartList
    } else if str_eq(name, "score-part") {
        Tag::ScorePart
    } else if str_eq(name, "part-name") {
        Tag::PartName
    } else if str_eq(name, "part-abbreviation") {
        Tag::PartAbbreviation
    } else if str_eq(name, "midi-instrument") {
        Tag::MidiInstrument
    } else if str_eq(name, "midi-channel") {
        Tag::MidiChannel
    } else if str_eq(name, "midi-program") {
        Tag::MidiProgram
    } else if str_eq(name, "part") {
        Tag::Part
    } else if str_eq(name, "measure") {
        Tag::Measure
    } else if str_eq(name, "attributes") {
        Tag::Attributes
    } else if str_eq(name, "note") {
        Tag::Note
    } else if str_eq(name, "harmony") {
        Tag::Harmony
    } else if str_eq(name, "barline") {
        Tag::Barline
    } else if str_eq(name, "direction") {
        Tag::Direction
    } else if str_eq(name, "sound") {
        Tag::Sound
    } else if str_eq(name, "print") {
        Tag::Print
    } else if str_eq(name, "system-layout") {
        Tag::SystemLayout
    } else if str_eq(name, "divisions") {
        Tag::Divisions
    } else if str_eq(name, "key") {
        Tag::Key
    } else if str_eq(name, "time") {
        Tag::Time
    } else if str_eq(name, "staves") {
        Tag::Staves
    } else if str_eq(name, "clef") {
        Tag::Clef
    } else if str_eq(name, "transpose") {
        Tag::Transpose
    } else if str_eq(name, "fifths") {
        Tag::Fifths
    } else if str_eq(name, "mode") {
        Tag::Mode
    } else if str_eq(name, "beats") {
        Tag::Beats
    } else if str_eq(name, "beat-type") {
        Tag::BeatType
    } else if str_eq(name, "sign") {
        Tag::Sign
    } else if str_eq(name, "line") {
        Tag::Line
    } else if str_eq(name, "clef-octave-change") {
        Tag::ClefOctaveChange
    } else if str_eq(name, "diatonic") {
        Tag::Diatonic
    } else if str_eq(name, "chromatic") {
        Tag::Chromatic
    } else if str_eq(name, "octave-change") {
        Tag::OctaveChange
    } else if str_eq(name, "pitch") {
        Tag::Pitch
    } else if str_eq(name, "duration") {
        Tag::Duration
    } else if str_eq(name, "voice") {
        Tag::Voice
    } else if str_eq(name, "staff") {
        Tag::Staff
    } else if str_eq(name, "type") {
        Tag::Type
    } else if str_eq(name, "stem") {
        Tag::Stem
    } else if str_eq(name, "beam") {
        Tag::Beam
    } else if str_eq(name, "rest") {
        Tag::Rest
    } else if str_eq(name, "grace") {
        Tag::Grace
    } else if str_eq(name, "chord") {
        Tag::Chord
    } else if str_eq(name, "dot") {
        Tag::Dot
    } else if str_eq(name, "accidental") {
        Tag::Accidental
    } else if str_eq(name, "tie") {
        Tag::Tie
    } else if str_eq(name, "notations") {
        Tag::Notations
    } else if str_eq(name, "slur") {
        Tag::Slur
    } else if str_eq(name, "lyric") {
        Tag::Lyric
    } else if str_eq(name, "text") {
        Tag::Text
    } else if str_eq(name, "syllabic") {
        Tag::Syllabic
    } else if str_eq(name, "step") {
        Tag::Step
    } else if str_eq(name, "octave") {
        Tag::Octave
    } else if str_eq(name, "alter") {
        Tag::Alter
    } else if str_eq(name, "root") {
        Tag::Root
    } else if str_eq(name, "root-step") {
        Tag::RootStep
    } else if str_eq(name, "root-alter") {
        Tag::RootAlter
    } else if str_eq(name, "kind") {
        Tag::Kind
    } else if str_eq(name, "bass") {
        Tag::Bass
    } else if str_eq(name, "bass-step") {
        Tag::BassStep
    } else if str_eq(name, "bass-alter") {
        Tag::BassAlter
    } else if str_eq(name, "bar-style") {
        Tag::BarStyle
    } else if str_eq(name, "repeat") {
        Tag::Repeat
    } else if str_eq(name, "ending") {
        Tag::Ending
    } else if str_eq(name, "direction-type") {
        Tag::DirectionType
    } else if str_eq(name, "metronome") {
        Tag::Metronome
    } else if str_eq(name, "words") {
        Tag::Words
    } else if str_eq(name, "segno") {
        Tag::Segno
    } else if str_eq(name, "coda") {
        Tag::Coda
    } else if str_eq(name, "rehearsal") {
        Tag::Rehearsal
    } else if str_eq(name, "octave-shift") {
        Tag::OctaveShift
    } else if str_eq(name, "beat-unit") {
        Tag::BeatUnit
    } else if str_eq(name, "beat-unit-dot") {
        Tag::BeatUnitDot
    } else if str_eq(name, "per-minute") {
        Tag::PerMinute
    } else {
        Tag::Other
    }
}

/// The tag of an element.
pub open spec fn tag(e: XmlElement) -> Tag {
    tag_of(e.name@)
}

/// The last element of `cs` with tag `t`.
pub open spec fn last_tagged(cs: Seq<XmlElement>, t: Tag) -> Option<XmlElement>
    decreases cs.len(),
{
    if cs.len() == 0 {
        None
    } else if tag(cs.last()) == t {
        Some(cs.last())
    } else {
        last_tagged(cs.drop_last(), t)
    }
}

/// The elements of `cs` with tag `t`, in order.
pub open spec fn all_tagged(cs: Seq<XmlElement>, t: Tag) -> Seq<XmlElement>
    decreases cs.len(),
{
    if cs.len() == 0 {
        Seq::empty()
    } else if tag(cs.last()) == t {
        all_tagged(cs.drop_last(), t).push(cs.last())
    } else {
        all_tagged(cs.drop_last(), t)
    }
}

/// Whether some element of `cs` has tag `t`.
pub open spec fn has_tagged(cs: Seq<XmlElement>, t: Tag) -> bool
    decreases cs.len(),
{
    cs.len() > 0 && (tag(cs.last()) == t || has_tagged(cs.drop_last(), t))
}

/// Whether some element of `cs` has tag `t` and attribute `key` equal to `v`.
pub open spec fn has_tagged_with(cs: Seq<XmlElement>, t: Tag, key: Seq<char>, v: Seq<char>) -> bool
    decreases cs.len(),
{
    cs.len() > 0 && ((tag(cs.last()) == t && attr_is(cs.last(), key, v)) || has_tagged_with(
        cs.drop_last(),
        t,
        key,
        v,
    ))
}

/// The tag of an element.
pub fn tag_exec(e: &XmlElement) -> (t: Tag)
    ensures
        t == tag(*e),
{
    classify(e.name.as_str())
}

// ─── Values of text and attributes ────────────────────────────────────────

pub open spec fn opt_str(o: Option<String>) -> Option<Seq<char>> {
    match o {
        Some(s) => Some(s@),
        None => None,
    }
}

pub open spec fn opt_int(o: Option<i32>) -> Option<int> {
    match o {
        Some(v) => Some(v as int),
        None => None,
    }
}

pub open spec fn or_int(o: Option<int>, d: int) -> int {
    match o {
        Some(v) => v,
        None => d,
    }
}

pub open spec fn or_seq(o: Option<Seq<char>>, d: Seq<char>) -> Seq<char> {
    match o {
        Some(v) => v,
        None => d,
    }
}

/// Integer in an element's trimmed text.
pub open spec fn text_i32(e: XmlElement) -> Option<int> {
    match trimmed_text(e) {
        Some(t) => parse_i32(t),
        None => None,
    }
}

/// Integer value of an attribute.
pub open spec fn attr_i32(e: XmlElement, key: Seq<char>) -> Option<int> {
    match attr(e, key) {
        Some(v) => parse_i32(v),
        None => None,
    }
}

/// Optional integer text of the last child with tag `t`.
pub open spec fn last_i32(cs: Seq<XmlElement>, t: Tag) -> Option<int> {
    match last_tagged(cs, t) {
        Some(c) => text_i32(c),
        None => None,
    }
}

/// Integer text of the last child with tag `t`, `d` when absent or invalid.
pub open spec fn last_i32_or(cs: Seq<XmlElement>, t: Tag, d: int) -> int {
    match last_tagged(cs, t) {
        Some(c) => or_int(text_i32(c), d),
        None => d,
    }
}

/// Trimmed text of the last child with tag `t` (`None` without a child or text).
pub open spec fn last_text(cs: Seq<XmlElement>, t: Tag) -> Option<Seq<char>> {
    match last_tagged(cs, t) {
        Some(c) => trimmed_text(c),
        None => None,
    }
}

/// Trimmed text of the last child with tag `t`; `text_default` for a child
/// without text, `absent` without a child.
pub open spec fn last_text_or(cs: Seq<XmlElement>, t: Tag, text_default: Seq<char>, absent: Seq<char>) -> Seq<char> {
    match last_tagged(cs, t) {
        Some(c) => trimmed_text_or(c, text_default),
        None => absent,
    }
}

/// Alteration in hundredths of a semitone written in an element's text.
pub open spec fn text_hundredths(e: XmlElement) -> Option<int> {
    match trimmed_text(e) {
        Some(t) => decimal_hundredths(t),
        None => None,
    }
}

proof fn lemma_take_step(cs: Seq<XmlElement>, k: int)
    requires
        0 <= k < cs.len(),
    ensures
        cs.take(k + 1).drop_last() == cs.take(k),
        cs.take(k + 1).last() == cs[k],
        cs.take(k + 1).len() == k + 1,
{
    assert(cs.take(k + 1).drop_last() =~= cs.take(k));
}

proof fn lemma_take_all(cs: Seq<XmlElement>)
    ensures
        cs.take(cs.len() as int) == cs,
{
    assert(cs.take(cs.len() as int) =~= cs);
}

/// Integer in the element's trimmed text.
pub fn read_i32(e: &XmlElement) -> (r: Option<i32>)
    ensures
        opt_int(r) == text_i32(*e),
{
    match text_trimmed(e) {
        Some(t) => {
            let cs = str_to_chars(t.as_str());
            parse_i32_chars(&cs)
        },
        None => None,
    }
}

/// Integer value of an attribute.
pub fn read_attr_i32(e: &XmlElement, key: &str) -> (r: Option<i32>)
    ensures
        opt_int(r) == attr_i32(*e, key@),
{
    match attribute(e, key) {
        Some(v) => {
            let cs = str_to_chars(v.as_str());
            parse_i32_chars(&cs)
        },
        None => None,
    }
}

/// Alteration in hundredths in the element's trimmed text.
pub fn read_hundredths(e: &XmlElement) -> (r: Option<i32>)
    ensures
        opt_int(r) == text_hundredths(*e),
{
    match text_trimmed(e) {
        Some(t) => {
            let cs = str_to_chars(t.as_str());
            parse_hundredths(&cs)
        },
        None => None,
    }
}

// ─── Pitch ────────────────────────────────────────────────────────────────

/// The pitch written by `<pitch>` children `cs`: step (default C),
/// octave (default 4), alteration in hundredths.
pub open spec fn pitch_read(cs: Seq<XmlElement>, p: Pitch) -> bool {
    &&& p.step@ == last_text_or(cs, Tag::Step, "C"@, "C"@)
    &&& p.octave == last_i32_or(cs, Tag::Octave, 4)
    &&& opt_int(p.alter_cents) == match last_tagged(cs, Tag::Alter) {
        Some(c) => text_hundredths(c),
        None => None,
    }
}

/// Read a `<pitch>` element.
pub fn parse_pitch(e: &XmlElement) -> (p: Pitch)
    ensures
        pitch_read(e.children@, p),
{
    let ghost cs = e.children@;
    let mut p = Pitch { step: String::from_str("C"), octave: 4, alter_cents: None };
    let mut k: usize = 0;
    while k < e.children.len()
        invariant
            cs == e.children@,
            k <= cs.len(),
            pitch_read(cs.take(k as int), p),
        decreases cs.len() - k,
    {
        proof {
            lemma_take_step(cs, k as int);
        }
        let c = &e.children[k];
        match tag_exec(c) {
            Tag::Step => {
                p.step = text_trimmed_or(c, "C");
            },
            Tag::Octave => {
                p.octave = match read_i32(c) {
                    Some(v) => v,
                    None => 4,
                };
            },
            Tag::Alter => {
                p.alter_cents = read_hundredths(c);
            },
            _ => {},
        }
        k = k + 1;
    }
    proof {
        lemma_take_all(cs);
    }
    p
}

// ─── Attributes ───────────────────────────────────────────────────────────

/// The key written by `<key>` children: fifths (default 0) and mode.
pub open spec fn key_read(cs: Seq<XmlElement>, k: Key) -> bool {
    &&& k.fifths == last_i32_or(cs, Tag::Fifths, 0)
    &&& opt_str(k.mode) == last_text(cs, Tag::Mode)
}

/// Read a `<key>` element.
pub fn parse_key(e: &XmlElement) -> (key: Key)
    ensures
        key_read(e.children@, key),
{
    let ghost cs = e.children@;
    let mut key = Key { fifths: 0, mode: None };
    let mut k: usize = 0;
    while k < e.children.len()
        invariant
            cs == e.children@,
            k <= cs.len(),
            key_read(cs.take(k as int), key),
        decreases cs.len() - k,
    {
        proof {
            lemma_take_step(cs, k as int);
        }
        let c = &e.children[k];
        match tag_exec(c) {
            Tag::Fifths => {
                key.fifths = match read_i32(c) {
                    Some(v) => v,
                    None => 0,
                };
            },
            Tag::Mode => {
                key.mode = text_trimmed(c);
            },
            _ => {},
        }
        k = k + 1;
    }
    proof {
        lemma_take_all(cs);
    }
    key
}

/// The time signature written by `<time>` children (default 4/4).
pub open spec fn time_read(cs: Seq<XmlElement>, t: TimeSignature) -> bool {
    &&& t.beats == last_i32_or(cs, Tag::Beats, 4)
    &&& t.beat_type == last_i32_or(cs, Tag::BeatType, 4)
}

/// Read a `<time>` element.
pub fn parse_time(e: &XmlElement) -> (ts: TimeSignature)
    ensures
        time_read(e.children@, ts),
{
    let ghost cs = e.children@;
    let mut ts = TimeSignature { beats: 4, beat_type: 4 };
    let mut k: usize = 0;
    while k < e.children.len()
        invariant
            cs == e.children@,
            k <= cs.len(),
            time_read(cs.take(k as int), ts),
        decreases cs.len() - k,
    {
        proof {
            lemma_take_step(cs, k as int);
        }
        let c = &e.children[k];
        match tag_exec(c) {
            Tag::Beats => {
                ts.beats = match read_i32(c) {
                    Some(v) => v,
                    None => 4,
                };
            },
            Tag::BeatType => {
                ts.beat_type = match read_i32(c) {
                    Some(v) => v,
                    None => 4,
                };
            },
            _ => {},
        }
        k = k + 1;
    }
    proof {
        lemma_take_all(cs);
    }
    ts
}

/// The clef written by a `<clef>` element: staff number (attribute,
/// default 1), sign (default G), line (default 2), octave change.
pub open spec fn clef_read(e: XmlElement, cl: Clef) -> bool {
    let cs = e.children@;
    &&& cl.number == or_int(attr_i32(e, "number"@), 1)
    &&& cl.sign@ == last_text_or(cs, Tag::Sign, "G"@, "G"@)
    &&& cl.line == last_i32_or(cs, Tag::Line, 2)
    &&& opt_int(cl.octave_change) == last_i32(cs, Tag::ClefOctaveChange)
}

/// Read a `<clef>` element.
pub fn parse_clef(e: &XmlElement) -> (cl: Clef)
    ensures
        clef_read(*e, cl),
{
    let ghost cs = e.children@;
    let number = match read_attr_i32(e, "number") {
        Some(v) => v,
        None => 1,
    };
    let mut cl = Clef { number, sign: String::from_str("G"), line: 2, octave_change: None };
    let mut k: usize = 0;
    while k < e.children.len()
        invariant
            cs == e.children@,
            k <= cs.len(),
            cl.number == or_int(attr_i32(*e, "number"@), 1),
            cl.sign@ == last_text_or(cs.take(k as int), Tag::Sign, "G"@, "G"@),
            cl.line == last_i32_or(cs.take(k as int), Tag::Line, 2),
            opt_int(cl.octave_change) == last_i32(cs.take(k as int), Tag::ClefOctaveChange),
        decreases cs.len() - k,
    {
        proof {
            lemma_take_step(cs, k as int);
        }
        let c = &e.children[k];
        match tag_exec(c) {
            Tag::Sign => {
                cl.sign = text_trimmed_or(c, "G");
            },
            Tag::Line => {
                cl.line = match read_i32(c) {
                    Some(v) => v,
                    None => 2,
                };
            },
            Tag::ClefOctaveChange => {
                cl.octave_change = read_i32(c);
            },
            _ => {},
        }
        k = k + 1;
    }
    proof {
        lemma_take_all(cs);
    }
    cl
}

/// The transposition written by `<transpose>` children.
pub open spec fn transpose_read(cs: Seq<XmlElement>, t: Transpose) -> bool {
    &&& t.diatonic == last_i32_or(cs, Tag::Diatonic, 0)
    &&& t.chromatic == last_i32_or(cs, Tag::Chromatic, 0)
    &&& opt_int(t.octave_change) == last_i32(cs, Tag::OctaveChange)
}

/// Read a `<transpose>` element.
pub fn parse_transpose(e: &XmlElement) -> (t: Transpose)
    ensures
        transpose_read(e.children@, t),
{
    let ghost cs = e.children@;
    let mut t = Transpose { diatonic: 0, chromatic: 0, octave_change: None };
    let mut k: usize = 0;
    while k < e.children.len()
        invariant
            cs == e.children@,
            k <= cs.len(),
            transpose_read(cs.take(k as int), t),
        decreases cs.len() - k,
    {
        proof {
            lemma_take_step(cs, k as int);
        }
        let c = &e.children[k];
        match tag_exec(c) {
            Tag::Diatonic => {
                t.diatonic = match read_i32(c) {
                    Some(v) => v,
                    None => 0,
                };
            },
            Tag::Chromatic => {
                t.chromatic = match read_i32(c) {
                    Some(v) => v,
                    None => 0,
                };
            },
            Tag::OctaveChange => {
                t.octave_change = read_i32(c);
            },
            _ => {},
        }
        k = k + 1;
    }
    proof {
        lemma_take_all(cs);
    }
    t
}

/// The attributes written by `<attributes>` children.
pub open spec fn attributes_read(cs: Seq<XmlElement>, a: Attributes) -> bool {
    &&& opt_int(a.divisions) == last_i32(cs, Tag::Divisions)
    &&& match last_tagged(cs, Tag::Key) {
        Some(c) => a.key matches Some(k) && key_read(c.children@, k),
        None => a.key is None,
    }
    &&& match last_tagged(cs, Tag::Time) {
        Some(c) => a.time matches Some(t) && time_read(c.children@, t),
        None => a.time is None,
    }
    &&& opt_int(a.staves) == last_i32(cs, Tag::Staves)
    &&& a.clefs@.len() == all_tagged(cs, Tag::Clef).len()
    &&& forall|i: int|
        0 <= i < a.clefs@.len() ==> clef_read(all_tagged(cs, Tag::Clef)[i], #[trigger] a.clefs@[i])
    &&& match last_tagged(cs, Tag::Transpose) {
        Some(c) => a.transpose matches Some(t) && transpose_read(c.children@, t),
        None => a.transpose is None,
    }
}

/// Read an `<attributes>` element.
pub fn parse_attributes(e: &XmlElement) -> (a: Attributes)
    ensures
        attributes_read(e.children@, a),
{
    let ghost cs = e.children@;
    let mut a = Attributes {
        divisions: None,
        key: None,
        time: None,
        clefs: Vec::new(),
        transpose: None,
        staves: None,
    };
    let mut k: usize = 0;
    while k < e.children.len()
        invariant
            cs == e.children@,
            k <= cs.len(),
            attributes_read(cs.take(k as int), a),
        decreases cs.len() - k,
    {
        proof {
            lemma_take_step(cs, k as int);
        }
        let c = &e.children[k];
        match tag_exec(c) {
            Tag::Divisions => {
                a.divisions = read_i32(c);
            },
            Tag::Key => {
                a.key = Some(parse_key(c));
            },
            Tag::Time => {
                a.time = Some(parse_time(c));
            },
            Tag::Staves => {
                a.staves = read_i32(c);
            },
            Tag::Clef => {
                let cl = parse_clef(c);
                a.clefs.push(cl);
            },
            Tag::Transpose => {
                a.transpose = Some(parse_transpose(c));
            },
            _ => {},
        }
        k = k + 1;
    }
    proof {
        lemma_take_all(cs);
    }
    a
}

// ─── Notes ────────────────────────────────────────────────────────────────

/// A `<beam>`: level (attribute `number`, default 1) and type (text).
pub open spec fn beam_read(e: XmlElement, b: Beam) -> bool {
    &&& b.number == or_int(attr_i32(e, "number"@), 1)
    &&& b.beam_type@ == trimmed_text_or(e, ""@)
}

/// A `<slur>`: type, number (default 1) and placement attributes.
pub open spec fn slur_read(e: XmlElement, sl: SlurEvent) -> bool {
    &&& sl.slur_type@ == or_seq(attr(e, "type"@), ""@)
    &&& sl.number == or_int(attr_i32(e, "number"@), 1)
    &&& opt_str(sl.placement) == attr(e, "placement"@)
}

/// Text of a `<lyric>`: its last `<text>` child, trimmed ("" without).
pub open spec fn lyric_text(e: XmlElement) -> Seq<char> {
    last_text_or(e.children@, Tag::Text, ""@, ""@)
}

/// A `<lyric>`: number (default 1), text and syllabic.
pub open spec fn lyric_read(e: XmlElement, l: Lyric) -> bool {
    &&& l.number == or_int(attr_i32(e, "number"@), 1)
    &&& l.text@ == lyric_text(e)
    &&& opt_str(l.syllabic) == last_text(e.children@, Tag::Syllabic)
}

/// The `<lyric>` children with non-empty text.
pub open spec fn lyric_elems(cs: Seq<XmlElement>) -> Seq<XmlElement>
    decreases cs.len(),
{
    if cs.len() == 0 {
        Seq::empty()
    } else if tag(cs.last()) == Tag::Lyric && lyric_text(cs.last()).len() > 0 {
        lyric_elems(cs.drop_last()).push(cs.last())
    } else {
        lyric_elems(cs.drop_last())
    }
}

/// The `<slur>` elements inside the `<notations>` children, in order.
pub open spec fn slur_elems(cs: Seq<XmlElement>) -> Seq<XmlElement>
    decreases cs.len(),
{
    if cs.len() == 0 {
        Seq::empty()
    } else if tag(cs.last()) == Tag::Notations {
        slur_elems(cs.drop_last()) + all_tagged(cs.last().children@, Tag::Slur)
    } else {
        slur_elems(cs.drop_last())
    }
}

/// The note written by `<note>` children `cs`.
pub open spec fn note_read(cs: Seq<XmlElement>, n: Note) -> bool {
    &&& match last_tagged(cs, Tag::Pitch) {
        Some(c) => n.pitch matches Some(p) && pitch_read(c.children@, p),
        None => n.pitch is None,
    }
    &&& n.duration == last_i32_or(cs, Tag::Duration, 0)
    &&& opt_int(n.voice) == last_i32(cs, Tag::Voice)
    &&& opt_int(n.staff) == last_i32(cs, Tag::Staff)
    &&& opt_str(n.note_type) == last_text(cs, Tag::Type)
    &&& opt_str(n.stem) == last_text(cs, Tag::Stem)
    &&& n.beams@.len() == all_tagged(cs, Tag::Beam).len()
    &&& (forall|i: int|
        0 <= i < n.beams@.len() ==> beam_read(all_tagged(cs, Tag::Beam)[i], #[trigger] n.beams@[i]))
    &&& n.rest == has_tagged(cs, Tag::Rest)
    &&& n.measure_rest == has_tagged_with(cs, Tag::Rest, "measure"@, "yes"@)
    &&& n.grace == has_tagged(cs, Tag::Grace)
    &&& n.grace_slash == has_tagged_with(cs, Tag::Grace, "slash"@, "yes"@)
    &&& n.chord == has_tagged(cs, Tag::Chord)
    &&& n.dot == has_tagged(cs, Tag::Dot)
    &&& opt_str(n.accidental) == last_text(cs, Tag::Accidental)
    &&& n.tie_start == has_tagged_with(cs, Tag::Tie, "type"@, "start"@)
    &&& n.tie_stop == has_tagged_with(cs, Tag::Tie, "type"@, "stop"@)
    &&& n.slurs@.len() == slur_elems(cs).len()
    &&& (forall|i: int|
        0 <= i < n.slurs@.len() ==> slur_read(slur_elems(cs)[i], #[trigger] n.slurs@[i]))
    &&& n.lyrics@.len() == lyric_elems(cs).len()
    &&& (forall|i: int|
        0 <= i < n.lyrics@.len() ==> lyric_read(lyric_elems(cs)[i], #[trigger] n.lyrics@[i]))
}

/// Read a `<beam>` element.
pub fn parse_beam(e: &XmlElement) -> (b: Beam)
    ensures
        beam_read(*e, b),
{
    let number = match read_attr_i32(e, "number") {
        Some(v) => v,
        None => 1,
    };
    Beam { number, beam_type: text_trimmed_or(e, "") }
}

/// Read a `<slur>` element.
pub fn parse_slur(e: &XmlElement) -> (sl: SlurEvent)
    ensures
        slur_read(*e, sl),
{
    let slur_type = match attribute(e, "type") {
        Some(v) => v,
        None => String::from_str(""),
    };
    let number = match read_attr_i32(e, "number") {
        Some(v) => v,
        None => 1,
    };
    SlurEvent { slur_type, number, placement: attribute(e, "placement") }
}

/// Read a `<lyric>` element; `None` when its text is empty.
pub fn parse_lyric(e: &XmlElement) -> (r: Option<Lyric>)
    ensures
        match r {
            Some(l) => lyric_text(*e).len() > 0 && lyric_read(*e, l),
            None => lyric_text(*e).len() == 0,
        },
{
    let ghost cs = e.children@;
    let number = match read_attr_i32(e, "number") {
        Some(v) => v,
        None => 1,
    };
    let mut text = String::from_str("");
    proof {
        reveal_strlit("");
    }
    let mut syllabic: Option<String> = None;
    let mut k: usize = 0;
    while k < e.children.len()
        invariant
            cs == e.children@,
            k <= cs.len(),
            text@ == last_text_or(cs.take(k as int), Tag::Text, ""@, ""@),
            opt_str(syllabic) == last_text(cs.take(k as int), Tag::Syllabic),
        decreases cs.len() - k,
    {
        proof {
            lemma_take_step(cs, k as int);
        }
        let c = &e.children[k];
        match tag_exec(c) {
            Tag::Text => {
                text = text_trimmed_or(c, "");
            },
            Tag::Syllabic => {
                syllabic = text_trimmed(c);
            },
            _ => {},
        }
        k = k + 1;
    }
    proof {
        lemma_take_all(cs);
    }
    if text.as_str().unicode_len() == 0 {
        None
    } else {
        Some(Lyric { number, text, syllabic })
    }
}


/// The slurs of a `<notations>` element, in order.
pub fn parse_notation_slurs(c: &XmlElement) -> (v: Vec<SlurEvent>)
    ensures
        v@.len() == all_tagged(c.children@, Tag::Slur).len(),
        forall|i: int| 0 <= i < v@.len() ==> slur_read(all_tagged(c.children@, Tag::Slur)[i], #[trigger] v@[i]),
{
    let ghost gs = c.children@;
    let mut v: Vec<SlurEvent> = Vec::new();
    let mut j: usize = 0;
    while j < c.children.len()
        invariant
            gs == c.children@,
            j <= gs.len(),
            v@.len() == all_tagged(gs.take(j as int), Tag::Slur).len(),
            forall|i: int|
                0 <= i < v@.len() ==> slur_read(all_tagged(gs.take(j as int), Tag::Slur)[i], #[trigger] v@[i]),
        decreases gs.len() - j,
    {
        proof {
            lemma_take_step(gs, j as int);
        }
        let g = &c.children[j];
        if tag_exec(g) == Tag::Slur {
            let sl = parse_slur(g);
            v.push(sl);
        }
        j = j + 1;
    }
    proof {
        lemma_take_all(gs);
    }
    v
}

/// Read a `<note>` element (see `note_read`).
pub fn parse_note(e: &XmlElement) -> (n: Note)
    ensures
        note_read(e.children@, n),
{
    let ghost cs = e.children@;
    let mut n = Note {
        pitch: None,
        duration: 0,
        voice: None,
        note_type: None,
        stem: None,
        beams: Vec::new(),
        rest: false,
        measure_rest: false,
        chord: false,
        dot: false,
        accidental: None,
        tie_start: false,
        tie_stop: false,
        staff: None,
        lyrics: Vec::new(),
        grace: false,
        grace_slash: false,
        slurs: Vec::new(),
    };
    let mut k: usize = 0;
    while k < e.children.len()
        invariant
            cs == e.children@,
            k <= cs.len(),
            note_read(cs.take(k as int), n),
        decreases cs.len() - k,
    {
        proof {
            lemma_take_step(cs, k as int);
        }
        let c = &e.children[k];
        match tag_exec(c) {
            Tag::Pitch => {
                n.pitch = Some(parse_pitch(c));
            },
            Tag::Duration => {
                n.duration = match read_i32(c) {
                    Some(v) => v,
                    None => 0,
                };
            },
            Tag::Voice => {
                n.voice = read_i32(c);
            },
            Tag::Staff => {
                n.staff = read_i32(c);
            },
            Tag::Type => {
                n.note_type = text_trimmed(c);
            },
            Tag::Stem => {
                n.stem = text_trimmed(c);
            },
            Tag::Beam => {
                let b = parse_beam(c);
                n.beams.push(b);
            },
            Tag::Rest => {
                n.rest = true;
                if attribute_is(c, "measure", "yes") {
                    n.measure_rest = true;
                }
            },
            Tag::Grace => {
                n.grace = true;
                if attribute_is(c, "slash", "yes") {
                    n.grace_slash = true;
                }
            },
            Tag::Chord => {
                n.chord = true;
            },
            Tag::Dot => {
                n.dot = true;
            },
            Tag::Accidental => {
                n.accidental = text_trimmed(c);
            },
            Tag::Tie => {
                proof {
                    reveal_strlit("start");
                    reveal_strlit("stop");
                    assert("start"@.len() != "stop"@.len());
                }
                if attribute_is(c, "type", "start") {
                    n.tie_start = true;
                } else if attribute_is(c, "type", "stop") {
                    n.tie_stop = true;
                }
            },
            Tag::Notations => {
                let mut found = parse_notation_slurs(c);
                n.slurs.append(&mut found);
            },
            Tag::Lyric => {
                match parse_lyric(c) {
                    Some(l) => {
                        n.lyrics.push(l);
                    },
                    None => {},
                }
            },
            _ => {},
        }
        k = k + 1;
    }
    proof {
        lemma_take_all(cs);
    }
    n
}

/// Whether some element of `cs` has tag `t` and an attribute `key`.
pub open spec fn has_tagged_attr(cs: Seq<XmlElement>, t: Tag, key: Seq<char>) -> bool
    decreases cs.len(),
{
    cs.len() > 0 && ((tag(cs.last()) == t && attr(cs.last(), key) is Some) || has_tagged_attr(
        cs.drop_last(),
        t,
        key,
    ))
}

/// The children of the elements of `cs` with tag `t`, concatenated in order.
pub open spec fn grandchildren(cs: Seq<XmlElement>, t: Tag) -> Seq<XmlElement>
    decreases cs.len(),
{
    if cs.len() == 0 {
        Seq::empty()
    } else if tag(cs.last()) == t {
        grandchildren(cs.drop_last(), t) + cs.last().children@
    } else {
        grandchildren(cs.drop_last(), t)
    }
}

/// Alteration of the last element of `cs` with tag `t`, in hundredths.
pub open spec fn last_hundredths(cs: Seq<XmlElement>, t: Tag) -> Option<int> {
    match last_tagged(cs, t) {
        Some(c) => text_hundredths(c),
        None => None,
    }
}

// ─── Chord symbols ────────────────────────────────────────────────────────

/// A `<harmony>` at `offset` divisions into its measure: root step and
/// alteration from the `<root>` children (C without), kind (major
/// without), and bass from the last `<bass>`.
pub open spec fn harmony_read(cs: Seq<XmlElement>, offset: int, h: Harmony) -> bool {
    let rs = grandchildren(cs, Tag::Root);
    &&& h.root.step@ == last_text_or(rs, Tag::RootStep, "C"@, "C"@)
    &&& opt_int(h.root.alter_cents) == last_hundredths(rs, Tag::RootAlter)
    &&& h.kind@ == last_text_or(cs, Tag::Kind, "major"@, "major"@)
    &&& match last_tagged(cs, Tag::Bass) {
        Some(b) => h.bass matches Some(r) && r.step@ == last_text_or(
            b.children@,
            Tag::BassStep,
            "C"@,
            "C"@,
        ) && opt_int(r.alter_cents) == last_hundredths(b.children@, Tag::BassAlter),
        None => h.bass is None,
    }
    &&& h.offset_divisions == offset
}

/// Read a `<bass>` element.
fn parse_bass(e: &XmlElement) -> (r: HarmonyRoot)
    ensures
        r.step@ == last_text_or(e.children@, Tag::BassStep, "C"@, "C"@),
        opt_int(r.alter_cents) == last_hundredths(e.children@, Tag::BassAlter),
{
    let ghost cs = e.children@;
    let mut r = HarmonyRoot { step: String::from_str("C"), alter_cents: None };
    let mut k: usize = 0;
    while k < e.children.len()
        invariant
            cs == e.children@,
            k <= cs.len(),
            r.step@ == last_text_or(cs.take(k as int), Tag::BassStep, "C"@, "C"@),
            opt_int(r.alter_cents) == last_hundredths(cs.take(k as int), Tag::BassAlter),
        decreases cs.len() - k,
    {
        proof {
            lemma_take_step(cs, k as int);
        }
        let c = &e.children[k];
        match tag_exec(c) {
            Tag::BassStep => {
                r.step = text_trimmed_or(c, "C");
            },
            Tag::BassAlter => {
                r.alter_cents = read_hundredths(c);
            },
            _ => {},
        }
        k = k + 1;
    }
    proof {
        lemma_take_all(cs);
    }
    r
}

/// Read a `<harmony>` element found `offset` divisions into its measure.
pub fn parse_harmony(e: &XmlElement, offset: i32) -> (h: Harmony)
    ensures
        harmony_read(e.children@, offset as int, h),
{
    let ghost cs = e.children@;
    let mut h = Harmony {
        root: HarmonyRoot { step: String::from_str("C"), alter_cents: None },
        kind: String::from_str("major"),
        bass: None,
        offset_divisions: offset,
    };
    let mut k: usize = 0;
    while k < e.children.len()
        invariant
            cs == e.children@,
            k <= cs.len(),
            h.offset_divisions == offset,
            h.root.step@ == last_text_or(grandchildren(cs.take(k as int), Tag::Root), Tag::RootStep, "C"@, "C"@),
            opt_int(h.root.alter_cents) == last_hundredths(grandchildren(cs.take(k as int), Tag::Root), Tag::RootAlter),
            h.kind@ == last_text_or(cs.take(k as int), Tag::Kind, "major"@, "major"@),
            match last_tagged(cs.take(k as int), Tag::Bass) {
                Some(b) => h.bass matches Some(r) && r.step@ == last_text_or(
                    b.children@,
                    Tag::BassStep,
                    "C"@,
                    "C"@,
                ) && opt_int(r.alter_cents) == last_hundredths(b.children@, Tag::BassAlter),
                None => h.bass is None,
            },
        decreases cs.len() - k,
    {
        proof {
            lemma_take_step(cs, k as int);
        }
        let c = &e.children[k];
        match tag_exec(c) {
            Tag::Root => {
                let ghost before = grandchildren(cs.take(k as int), Tag::Root);
                let ghost rc = c.children@;
                let ghost kind0 = h.kind;
                let ghost bass0 = h.bass;
                let mut j: usize = 0;
                while j < c.children.len()
                    invariant
                        rc == c.children@,
                        j <= rc.len(),
                        h.kind == kind0,
                        h.bass == bass0,
                        h.offset_divisions == offset,
                        h.root.step@ == last_text_or(before + rc.take(j as int), Tag::RootStep, "C"@, "C"@),
                        opt_int(h.root.alter_cents) == last_hundredths(before + rc.take(j as int), Tag::RootAlter),
                    decreases rc.len() - j,
                {
                    proof {
                        lemma_take_step(rc, j as int);
                        assert((before + rc.take(j + 1)).drop_last() == before + rc.take(j as int));
                        assert((before + rc.take(j + 1)).last() == rc[j as int]);
                    }
                    let g = &c.children[j];
                    match tag_exec(g) {
                        Tag::RootStep => {
                            h.root.step = text_trimmed_or(g, "C");
                        },
                        Tag::RootAlter => {
                            h.root.alter_cents = read_hundredths(g);
                        },
                        _ => {},
                    }
                    j = j + 1;
                }
                proof {
                    lemma_take_all(rc);
                    if rc.len() == 0 {
                        assert(before + rc == before);
                    }
                }
            },
            Tag::Kind => {
                h.kind = text_trimmed_or(c, "major");
            },
            Tag::Bass => {
                h.bass = Some(parse_bass(c));
            },
            _ => {},
        }
        k = k + 1;
    }
    proof {
        lemma_take_all(cs);
    }
    h
}

// ─── Barlines ─────────────────────────────────────────────────────────────

/// A `<barline>`: location (default right), style, repeat sign (direction,
/// default forward) and volta bracket (number default "1", type default
/// "start", text).
pub open spec fn barline_read(e: XmlElement, b: Barline) -> bool {
    let cs = e.children@;
    &&& b.location@ == or_seq(attr(e, "location"@), "right"@)
    &&& opt_str(b.bar_style) == last_text(cs, Tag::BarStyle)
    &&& match last_tagged(cs, Tag::Repeat) {
        Some(c) => b.repeat matches Some(r) && r.direction@ == or_seq(attr(c, "direction"@), "forward"@),
        None => b.repeat is None,
    }
    &&& match last_tagged(cs, Tag::Ending) {
        Some(c) => b.ending matches Some(en) && en.number@ == or_seq(attr(c, "number"@), "1"@)
            && en.ending_type@ == or_seq(attr(c, "type"@), "start"@) && opt_str(en.text)
            == trimmed_text(c),
        None => b.ending is None,
    }
}

fn attribute_or(e: &XmlElement, key: &str, d: &str) -> (r: String)
    ensures
        r@ == or_seq(attr(*e, key@), d@),
{
    match attribute(e, key) {
        Some(v) => v,
        None => String::from_str(d),
    }
}

/// Read a `<barline>` element.
pub fn parse_barline(e: &XmlElement) -> (b: Barline)
    ensures
        barline_read(*e, b),
{
    let ghost cs = e.children@;
    let mut b = Barline {
        location: attribute_or(e, "location", "right"),
        bar_style: None,
        repeat: None,
        ending: None,
    };
    let mut k: usize = 0;
    while k < e.children.len()
        invariant
            cs == e.children@,
            k <= cs.len(),
            b.location@ == or_seq(attr(*e, "location"@), "right"@),
            opt_str(b.bar_style) == last_text(cs.take(k as int), Tag::BarStyle),
            match last_tagged(cs.take(k as int), Tag::Repeat) {
                Some(c) => b.repeat matches Some(r) && r.direction@ == or_seq(
                    attr(c, "direction"@),
                    "forward"@,
                ),
                None => b.repeat is None,
            },
            match last_tagged(cs.take(k as int), Tag::Ending) {
                Some(c) => b.ending matches Some(en) && en.number@ == or_seq(attr(c, "number"@), "1"@)
                    && en.ending_type@ == or_seq(attr(c, "type"@), "start"@) && opt_str(en.text)
                    == trimmed_text(c),
                None => b.ending is None,
            },
        decreases cs.len() - k,
    {
        proof {
            lemma_take_step(cs, k as int);
        }
        let c = &e.children[k];
        match tag_exec(c) {
            Tag::BarStyle => {
                b.bar_style = text_trimmed(c);
            },
            Tag::Repeat => {
                b.repeat = Some(Repeat { direction: attribute_or(c, "direction", "forward") });
            },
            Tag::Ending => {
                b.ending = Some(
                    Ending {
                        number: attribute_or(c, "number", "1"),
                        ending_type: attribute_or(c, "type", "start"),
                        text: text_trimmed(c),
                    },
                );
            },
            _ => {},
        }
        k = k + 1;
    }
    proof {
        lemma_take_all(cs);
    }
    b
}

// ─── Directions ───────────────────────────────────────────────────────────

/// Whole number in an element's trimmed text (saturating, as a
/// float-to-integer conversion).
pub open spec fn text_whole(e: XmlElement) -> Option<int> {
    match trimmed_text(e) {
        Some(t) => decimal_whole_saturating(t),
        None => None,
    }
}

/// A `<metronome>`: beat unit (quarter by default), dotted, and beats per
/// minute (whole part of the number, 120 by default).
pub open spec fn metronome_read(cs: Seq<XmlElement>, m: MetronomeMark) -> bool {
    &&& m.beat_unit@ == last_text_or(cs, Tag::BeatUnit, "quarter"@, "quarter"@)
    &&& m.dotted == has_tagged(cs, Tag::BeatUnitDot)
    &&& m.per_minute == match last_tagged(cs, Tag::PerMinute) {
        Some(c) => or_int(text_whole(c), 120),
        None => 120,
    }
}

/// Read a `<metronome>` element.
pub fn parse_metronome(e: &XmlElement) -> (m: MetronomeMark)
    ensures
        metronome_read(e.children@, m),
{
    let ghost cs = e.children@;
    let mut m = MetronomeMark { beat_unit: String::from_str("quarter"), per_minute: 120, dotted: false };
    let mut k: usize = 0;
    while k < e.children.len()
        invariant
            cs == e.children@,
            k <= cs.len(),
            metronome_read(cs.take(k as int), m),
        decreases cs.len() - k,
    {
        proof {
            lemma_take_step(cs, k as int);
        }
        let c = &e.children[k];
        match tag_exec(c) {
            Tag::BeatUnit => {
                m.beat_unit = text_trimmed_or(c, "quarter");
            },
            Tag::BeatUnitDot => {
                m.dotted = true;
            },
            Tag::PerMinute => {
                let v = match text_trimmed(c) {
                    Some(t) => {
                        let tc = str_to_chars(t.as_str());
                        parse_whole_saturating(&tc)
                    },
                    None => None,
                };
                m.per_minute = match v {
                    Some(x) => x,
                    None => 120,
                };
            },
            _ => {},
        }
        k = k + 1;
    }
    proof {
        lemma_take_all(cs);
    }
    m
}

/// Tempo of a `<sound>` element's `tempo` attribute, in thousandths.
pub open spec fn sound_tempo_of(e: XmlElement) -> Option<int> {
    match attr(e, "tempo"@) {
        Some(t) => decimal_thousandths(t),
        None => None,
    }
}

/// Tempo of the last `<sound>` of `cs` whose tempo reads as a number.
pub open spec fn last_sound_tempo(cs: Seq<XmlElement>) -> Option<int>
    decreases cs.len(),
{
    if cs.len() == 0 {
        None
    } else if tag(cs.last()) == Tag::Sound && sound_tempo_of(cs.last()) is Some {
        sound_tempo_of(cs.last())
    } else {
        last_sound_tempo(cs.drop_last())
    }
}

pub open spec fn opt_i64(o: Option<i64>) -> Option<int> {
    match o {
        Some(v) => Some(v as int),
        None => None,
    }
}

/// Font style of `<words>`: "bold italic", "bold", "italic" or none.
pub open spec fn words_style(w: XmlElement) -> Option<Seq<char>> {
    let bold = attr_is(w, "font-weight"@, "bold"@);
    let italic = attr_is(w, "font-style"@, "italic"@);
    if bold && italic {
        Some("bold italic"@)
    } else if bold {
        Some("bold"@)
    } else if italic {
        Some("italic"@)
    } else {
        None
    }
}

/// The fields of a direction read from a `<direction>` element's children:
/// its direction types (metronome, words and their style, segno, coda,
/// rehearsal, octave shift, each from the last such element) and its
/// `<sound>` children (tempo, D.C., D.S., Fine, To Coda).
pub open spec fn direction_fields(e: XmlElement, d: Direction) -> bool {
    let cs = e.children@;
    let dt = grandchildren(cs, Tag::DirectionType);
    &&& opt_str(d.placement) == attr(e, "placement"@)
    &&& opt_i64(d.sound_tempo_milli) == last_sound_tempo(cs)
    &&& match last_tagged(dt, Tag::Metronome) {
        Some(c) => d.metronome matches Some(m) && metronome_read(c.children@, m),
        None => d.metronome is None,
    }
    &&& opt_str(d.words) == last_text(dt, Tag::Words)
    &&& opt_str(d.words_font_style) == match last_tagged(dt, Tag::Words) {
        Some(w) => words_style(w),
        None => None,
    }
    &&& d.segno == has_tagged(dt, Tag::Segno)
    &&& d.coda == has_tagged(dt, Tag::Coda)
    &&& opt_str(d.rehearsal) == last_text(dt, Tag::Rehearsal)
    &&& d.sound_dacapo == has_tagged_with(cs, Tag::Sound, "dacapo"@, "yes"@)
    &&& d.sound_dalsegno == has_tagged_attr(cs, Tag::Sound, "dalsegno"@)
    &&& d.sound_fine == has_tagged_with(cs, Tag::Sound, "fine"@, "yes"@)
    &&& d.sound_tocoda == has_tagged_attr(cs, Tag::Sound, "tocoda"@)
    &&& match last_tagged(dt, Tag::OctaveShift) {
        Some(c) => opt_str(d.octave_shift_type) == attr(c, "type"@) && d.octave_shift_size == or_int(
            attr_i32(c, "size"@),
            8,
        ),
        None => d.octave_shift_type is None && d.octave_shift_size == 0,
    }
}

/// Whether a direction carries anything the score uses.
pub open spec fn direction_has_content(d: Direction) -> bool {
    d.sound_tempo_milli is Some || d.metronome is Some || d.words is Some || d.segno || d.coda
        || d.rehearsal is Some || d.sound_dacapo || d.sound_dalsegno || d.sound_fine
        || d.sound_tocoda || d.octave_shift_type is Some
}

fn words_font_style(w: &XmlElement) -> (r: Option<String>)
    ensures
        opt_str(r) == words_style(*w),
{
    let bold = attribute_is(w, "font-weight", "bold");
    let italic = attribute_is(w, "font-style", "italic");
    if bold && italic {
        Some(String::from_str("bold italic"))
    } else if bold {
        Some(String::from_str("bold"))
    } else if italic {
        Some(String::from_str("italic"))
    } else {
        None
    }
}

fn read_sound_tempo(e: &XmlElement) -> (r: Option<i64>)
    ensures
        opt_i64(r) == sound_tempo_of(*e),
{
    match attribute(e, "tempo") {
        Some(t) => {
            let tc = str_to_chars(t.as_str());
            parse_thousandths(&tc)
        },
        None => None,
    }
}

/// Apply one child of a `<direction-type>` to a direction.
fn apply_direction_type(d: &mut Direction, g: &XmlElement)
    ensures
        final(d).placement == old(d).placement,
        final(d).sound_tempo_milli == old(d).sound_tempo_milli,
        final(d).sound_dacapo == old(d).sound_dacapo,
        final(d).sound_dalsegno == old(d).sound_dalsegno,
        final(d).sound_fine == old(d).sound_fine,
        final(d).sound_tocoda == old(d).sound_tocoda,
        tag(*g) == Tag::Metronome ==> (final(d).metronome matches Some(m) && metronome_read(g.children@, m)),
        tag(*g) != Tag::Metronome ==> final(d).metronome == old(d).metronome,
        tag(*g) == Tag::Words ==> opt_str(final(d).words) == trimmed_text(*g) && opt_str(final(d).words_font_style) == words_style(*g),
        tag(*g) != Tag::Words ==> final(d).words == old(d).words && final(d).words_font_style == old(d).words_font_style,
        final(d).segno == (old(d).segno || tag(*g) == Tag::Segno),
        final(d).coda == (old(d).coda || tag(*g) == Tag::Coda),
        tag(*g) == Tag::Rehearsal ==> opt_str(final(d).rehearsal) == trimmed_text(*g),
        tag(*g) != Tag::Rehearsal ==> final(d).rehearsal == old(d).rehearsal,
        tag(*g) == Tag::OctaveShift ==> opt_str(final(d).octave_shift_type) == attr(*g, "type"@)
            && final(d).octave_shift_size == or_int(attr_i32(*g, "size"@), 8),
        tag(*g) != Tag::OctaveShift ==> final(d).octave_shift_type == old(d).octave_shift_type
            && final(d).octave_shift_size == old(d).octave_shift_size,
{
    match tag_exec(g) {
        Tag::Metronome => {
            d.metronome = Some(parse_metronome(g));
        },
        Tag::Words => {
            d.words = text_trimmed(g);
            d.words_font_style = words_font_style(g);
        },
        Tag::Segno => {
            d.segno = true;
        },
        Tag::Coda => {
            d.coda = true;
        },
        Tag::Rehearsal => {
            d.rehearsal = text_trimmed(g);
        },
        Tag::OctaveShift => {
            d.octave_shift_type = attribute(g, "type");
            d.octave_shift_size = match read_attr_i32(g, "size") {
                Some(v) => v,
                None => 8,
            };
        },
        _ => {},
    }
}

/// The direction-type fields of `d` as read from direction-type children `dt`.
pub open spec fn direction_type_fields(dt: Seq<XmlElement>, d: Direction) -> bool {
    &&& match last_tagged(dt, Tag::Metronome) {
        Some(c) => d.metronome matches Some(m) && metronome_read(c.children@, m),
        None => d.metronome is None,
    }
    &&& opt_str(d.words) == last_text(dt, Tag::Words)
    &&& opt_str(d.words_font_style) == match last_tagged(dt, Tag::Words) {
        Some(w) => words_style(w),
        None => None,
    }
    &&& d.segno == has_tagged(dt, Tag::Segno)
    &&& d.coda == has_tagged(dt, Tag::Coda)
    &&& opt_str(d.rehearsal) == last_text(dt, Tag::Rehearsal)
    &&& match last_tagged(dt, Tag::OctaveShift) {
        Some(c) => opt_str(d.octave_shift_type) == attr(c, "type"@) && d.octave_shift_size == or_int(
            attr_i32(c, "size"@),
            8,
        ),
        None => d.octave_shift_type is None && d.octave_shift_size == 0,
    }
}

/// The sound fields of `d` as read from direction children `cs`.
pub open spec fn sound_fields(cs: Seq<XmlElement>, d: Direction) -> bool {
    &&& opt_i64(d.sound_tempo_milli) == last_sound_tempo(cs)
    &&& d.sound_dacapo == has_tagged_with(cs, Tag::Sound, "dacapo"@, "yes"@)
    &&& d.sound_dalsegno == has_tagged_attr(cs, Tag::Sound, "dalsegno"@)
    &&& d.sound_fine == has_tagged_with(cs, Tag::Sound, "fine"@, "yes"@)
    &&& d.sound_tocoda == has_tagged_attr(cs, Tag::Sound, "tocoda"@)
}

/// Read a `<direction>` element; `None` when it carries nothing the score
/// uses (see `direction_has_content`).
pub fn parse_direction(e: &XmlElement) -> (r: Option<Direction>)
    ensures
        match r {
            Some(d) => direction_fields(*e, d) && direction_has_content(d),
            None => forall|d: Direction| direction_fields(*e, d) ==> !direction_has_content(d),
        },
{
    let ghost cs = e.children@;
    let mut d = Direction {
        placement: attribute(e, "placement"),
        sound_tempo_milli: None,
        metronome: None,
        words: None,
        segno: false,
        coda: false,
        rehearsal: None,
        sound_dacapo: false,
        sound_dalsegno: false,
        sound_fine: false,
        sound_tocoda: false,
        words_font_style: None,
        octave_shift_type: None,
        octave_shift_size: 0,
    };
    let mut k: usize = 0;
    while k < e.children.len()
        invariant
            cs == e.children@,
            k <= cs.len(),
            opt_str(d.placement) == attr(*e, "placement"@),
            direction_type_fields(grandchildren(cs.take(k as int), Tag::DirectionType), d),
            sound_fields(cs.take(k as int), d),
        decreases cs.len() - k,
    {
        proof {
            lemma_take_step(cs, k as int);
        }
        let c = &e.children[k];
        match tag_exec(c) {
            Tag::DirectionType => {
                let ghost before = grandchildren(cs.take(k as int), Tag::DirectionType);
                let ghost gs = c.children@;
                let mut j: usize = 0;
                while j < c.children.len()
                    invariant
                        gs == c.children@,
                        j <= gs.len(),
                        opt_str(d.placement) == attr(*e, "placement"@),
                        direction_type_fields(before + gs.take(j as int), d),
                        sound_fields(cs.take(k as int), d),
                    decreases gs.len() - j,
                {
                    proof {
                        lemma_take_step(gs, j as int);
                        assert((before + gs.take(j + 1)).drop_last() == before + gs.take(j as int));
                        assert((before + gs.take(j + 1)).last() == gs[j as int]);
                    }
                    apply_direction_type(&mut d, &c.children[j]);
                    j = j + 1;
                }
                proof {
                    lemma_take_all(gs);
                    if gs.len() == 0 {
                        assert(before + gs == before);
                    }
                }
            },
            Tag::Sound => {
                match read_sound_tempo(c) {
                    Some(t) => {
                        d.sound_tempo_milli = Some(t);
                    },
                    None => {},
                }
                if attribute_is(c, "dacapo", "yes") {
                    d.sound_dacapo = true;
                }
                if attribute(c, "dalsegno").is_some() {
                    d.sound_dalsegno = true;
                }
                if attribute_is(c, "fine", "yes") {
                    d.sound_fine = true;
                }
                if attribute(c, "tocoda").is_some() {
                    d.sound_tocoda = true;
                }
            },
            _ => {},
        }
        k = k + 1;
    }
    proof {
        lemma_take_all(cs);
    }
    let has_content = d.sound_tempo_milli.is_some() || d.metronome.is_some() || d.words.is_some()
        || d.segno || d.coda || d.rehearsal.is_some() || d.sound_dacapo || d.sound_dalsegno
        || d.sound_fine || d.sound_tocoda || d.octave_shift_type.is_some();
    if has_content {
        Some(d)
    } else {
        proof {
            assert forall|x: Direction| direction_fields(*e, x) implies !direction_has_content(x) by {
                assert(direction_type_fields(grandchildren(cs, Tag::DirectionType), x));
            }
        }
        None
    }
}

// ─── Measures ─────────────────────────────────────────────────────────────

/// Position in divisions after the elements `cs` of a measure: the sum of
/// the durations of its notes that are not chord members.
pub open spec fn position_after(cs: Seq<XmlElement>) -> int
    decreases cs.len(),
{
    if cs.len() == 0 {
        0
    } else {
        position_after(cs.drop_last()) + if tag(cs.last()) == Tag::Note && !has_tagged(
            cs.last().children@,
            Tag::Chord,
        ) {
            last_i32_or(cs.last().children@, Tag::Duration, 0)
        } else {
            0
        }
    }
}

/// `x` clamped to the range of `i32`.
pub open spec fn clamp_i32(x: int) -> int {
    if x > i32::MAX {
        i32::MAX as int
    } else if x < i32::MIN {
        i32::MIN as int
    } else {
        x
    }
}

/// The `<harmony>` children of a measure with their positions (clamped
/// to `i32`).
pub open spec fn harmony_elems(cs: Seq<XmlElement>) -> Seq<(XmlElement, int)>
    decreases cs.len(),
{
    if cs.len() == 0 {
        Seq::empty()
    } else if tag(cs.last()) == Tag::Harmony {
        harmony_elems(cs.drop_last()).push((cs.last(), clamp_i32(position_after(cs.drop_last()))))
    } else {
        harmony_elems(cs.drop_last())
    }
}

/// Whether a `<direction>` element is kept: it carries something the
/// score uses.
pub open spec fn direction_kept(e: XmlElement) -> bool {
    exists|d: Direction| direction_fields(e, d) && direction_has_content(d)
}

/// The direction made of a `<sound>` placed directly in a measure: its
/// tempo, placed above, nothing else.
pub open spec fn sound_direction(e: XmlElement, d: Direction) -> bool {
    &&& opt_str(d.placement) == Some("above"@)
    &&& opt_i64(d.sound_tempo_milli) == sound_tempo_of(e)
    &&& d.metronome is None && d.words is None && !d.segno && !d.coda && d.rehearsal is None
    &&& !d.sound_dacapo && !d.sound_dalsegno && !d.sound_fine && !d.sound_tocoda
    &&& d.words_font_style is None && d.octave_shift_type is None && d.octave_shift_size == 0
}

/// The measure children that yield directions: kept `<direction>`s and
/// `<sound>`s with a tempo, in order.
pub open spec fn direction_sources(cs: Seq<XmlElement>) -> Seq<XmlElement>
    decreases cs.len(),
{
    if cs.len() == 0 {
        Seq::empty()
    } else if (tag(cs.last()) == Tag::Direction && direction_kept(cs.last())) || (tag(cs.last())
        == Tag::Sound && sound_tempo_of(cs.last()) is Some) {
        direction_sources(cs.drop_last()).push(cs.last())
    } else {
        direction_sources(cs.drop_last())
    }
}

/// The direction read from a source element.
pub open spec fn direction_read(src: XmlElement, d: Direction) -> bool {
    if tag(src) == Tag::Direction {
        direction_fields(src, d)
    } else {
        sound_direction(src, d)
    }
}

/// Whether some `<print>` of `cs` holds a `<system-layout>`.
pub open spec fn has_print_layout(cs: Seq<XmlElement>) -> bool
    decreases cs.len(),
{
    cs.len() > 0 && ((tag(cs.last()) == Tag::Print && has_tagged(cs.last().children@, Tag::SystemLayout))
        || has_print_layout(cs.drop_last()))
}

/// The measure's contents read from its children `cs` (everything but the
/// number and the implicit flag).
pub open spec fn measure_body(cs: Seq<XmlElement>, m: Measure) -> bool {
    &&& match last_tagged(cs, Tag::Attributes) {
        Some(c) => m.attributes matches Some(a) && attributes_read(c.children@, a),
        None => m.attributes is None,
    }
    &&& m.notes@.len() == all_tagged(cs, Tag::Note).len()
    &&& (forall|i: int|
        0 <= i < m.notes@.len() ==> note_read(all_tagged(cs, Tag::Note)[i].children@, #[trigger] m.notes@[i]))
    &&& m.harmonies@.len() == harmony_elems(cs).len()
    &&& (forall|i: int|
        0 <= i < m.harmonies@.len() ==> harmony_read(
            harmony_elems(cs)[i].0.children@,
            harmony_elems(cs)[i].1,
            #[trigger] m.harmonies@[i],
        ))
    &&& m.barlines@.len() == all_tagged(cs, Tag::Barline).len()
    &&& (forall|i: int|
        0 <= i < m.barlines@.len() ==> barline_read(all_tagged(cs, Tag::Barline)[i], #[trigger] m.barlines@[i]))
    &&& m.directions@.len() == direction_sources(cs).len()
    &&& (forall|i: int|
        0 <= i < m.directions@.len() ==> direction_read(direction_sources(cs)[i], #[trigger] m.directions@[i]))
    &&& m.new_system == (has_tagged_with(cs, Tag::Print, "new-system"@, "yes"@) || has_print_layout(cs))
    &&& m.new_page == has_tagged_with(cs, Tag::Print, "new-page"@, "yes"@)
}

/// A `<measure>`: number (attribute, 0 by default), implicit flag and contents.
pub open spec fn measure_read(e: XmlElement, m: Measure) -> bool {
    &&& m.number == or_int(attr_i32(e, "number"@), 0)
    &&& m.implicit == attr_is(e, "implicit"@, "yes"@)
    &&& measure_body(e.children@, m)
}

fn sound_only_direction(c: &XmlElement, t: i64) -> (d: Direction)
    requires
        sound_tempo_of(*c) == Some(t as int),
    ensures
        sound_direction(*c, d),
{
    Direction {
        placement: Some(String::from_str("above")),
        sound_tempo_milli: Some(t),
        metronome: None,
        words: None,
        segno: false,
        coda: false,
        rehearsal: None,
        sound_dacapo: false,
        sound_dalsegno: false,
        sound_fine: false,
        sound_tocoda: false,
        words_font_style: None,
        octave_shift_type: None,
        octave_shift_size: 0,
    }
}

fn print_has_layout(c: &XmlElement) -> (r: bool)
    ensures
        r == has_tagged(c.children@, Tag::SystemLayout),
{
    let ghost gs = c.children@;
    let mut j: usize = 0;
    while j < c.children.len()
        invariant
            gs == c.children@,
            j <= gs.len(),
            !has_tagged(gs.take(j as int), Tag::SystemLayout),
        decreases gs.len() - j,
    {
        proof {
            lemma_take_step(gs, j as int);
        }
        if tag_exec(&c.children[j]) == Tag::SystemLayout {
            proof {
                lemma_has_tagged_prefix(gs, j as int + 1, Tag::SystemLayout);
            }
            return true;
        }
        j = j + 1;
    }
    proof {
        lemma_take_all(gs);
    }
    false
}

proof fn lemma_has_tagged_prefix(cs: Seq<XmlElement>, k: int, t: Tag)
    requires
        0 <= k <= cs.len(),
        has_tagged(cs.take(k), t),
    ensures
        has_tagged(cs, t),
    decreases cs.len() - k,
{
    if k < cs.len() {
        lemma_take_step(cs, k);
        lemma_has_tagged_prefix(cs, k + 1, t);
    } else {
        lemma_take_all(cs);
    }
}

fn clamp_to_i32(x: i128) -> (r: i32)
    ensures
        r == clamp_i32(x as int),
{
    if x > 2147483647 {
        i32::MAX
    } else if x < -2147483648 {
        i32::MIN
    } else {
        x as i32
    }
}

/// Read a `<measure>` element (see `measure_read`).
pub fn parse_measure(e: &XmlElement) -> (m: Measure)
    ensures
        measure_read(*e, m),
{
    let ghost cs = e.children@;
    let number = match read_attr_i32(e, "number") {
        Some(v) => v,
        None => 0,
    };
    let mut m = Measure {
        number,
        implicit: attribute_is(e, "implicit", "yes"),
        attributes: None,
        notes: Vec::new(),
        harmonies: Vec::new(),
        barlines: Vec::new(),
        directions: Vec::new(),
        new_system: false,
        new_page: false,
    };
    let mut pos: i128 = 0;
    let mut k: usize = 0;
    while k < e.children.len()
        invariant
            cs == e.children@,
            k <= cs.len(),
            m.number == or_int(attr_i32(*e, "number"@), 0),
            m.implicit == attr_is(*e, "implicit"@, "yes"@),
            measure_body(cs.take(k as int), m),
            pos == position_after(cs.take(k as int)),
            -(k as int) * 0x8000_0000 <= pos <= (k as int) * 0x8000_0000,
        decreases cs.len() - k,
    {
        proof {
            lemma_take_step(cs, k as int);
        }
        let c = &e.children[k];
        match tag_exec(c) {
            Tag::Attributes => {
                m.attributes = Some(parse_attributes(c));
            },
            Tag::Note => {
                let n = parse_note(c);
                if !n.chord {
                    pos = pos + n.duration as i128;
                }
                m.notes.push(n);
            },
            Tag::Harmony => {
                let off = clamp_to_i32(pos);
                let h = parse_harmony(c, off);
                m.harmonies.push(h);
            },
            Tag::Barline => {
                let b = parse_barline(c);
                m.barlines.push(b);
            },
            Tag::Direction => {
                match parse_direction(c) {
                    Some(d) => {
                        m.directions.push(d);
                    },
                    None => {},
                }
            },
            Tag::Sound => {
                match read_sound_tempo(c) {
                    Some(t) => {
                        let d = sound_only_direction(c, t);
                        m.directions.push(d);
                    },
                    None => {},
                }
            },
            Tag::Print => {
                if attribute_is(c, "new-system", "yes") {
                    m.new_system = true;
                }
                if attribute_is(c, "new-page", "yes") {
                    m.new_page = true;
                }
                if print_has_layout(c) {
                    m.new_system = true;
                }
            },
            _ => {},
        }
        k = k + 1;
    }
    proof {
        lemma_take_all(cs);
    }
    m
}

// ─── Score ────────────────────────────────────────────────────────────────

/// What the reader knows of a part at some point of the document.
pub struct PartDraft {
    pub id: Seq<char>,
    pub name: Seq<char>,
    pub abbreviation: Option<Seq<char>>,
    pub midi_program: Option<int>,
    pub midi_channel: Option<int>,
    /// `<measure>` elements, in order
    pub measures: Seq<XmlElement>,
}

/// What the reader knows of the score at some point of the document.
pub struct ScoreDraft {
    pub title: Option<Seq<char>>,
    pub subtitle: Option<Seq<char>>,
    pub composer: Option<Seq<char>>,
    pub arranger: Option<Seq<char>>,
    pub version: Option<Seq<char>>,
    pub software: Option<Seq<char>>,
    pub parts: Seq<PartDraft>,
}

/// `<work>` children: a `<work-title>` sets the title when none is set yet.
pub open spec fn work_fold(s: ScoreDraft, cs: Seq<XmlElement>) -> ScoreDraft
    decreases cs.len(),
{
    if cs.len() == 0 {
        s
    } else {
        let t = work_fold(s, cs.drop_last());
        if tag(cs.last()) == Tag::WorkTitle && t.title is None {
            ScoreDraft { title: trimmed_text(cs.last()), ..t }
        } else {
            t
        }
    }
}

/// `<identification>` children: a composer creator sets the composer when
/// none is set yet, an arranger creator sets the arranger, and the
/// software of an `<encoding>` is recorded.
pub open spec fn identification_fold(s: ScoreDraft, cs: Seq<XmlElement>) -> ScoreDraft
    decreases cs.len(),
{
    if cs.len() == 0 {
        s
    } else {
        let t = identification_fold(s, cs.drop_last());
        let c = cs.last();
        if tag(c) == Tag::Creator {
            let ty = or_seq(attr(c, "type"@), ""@);
            if ty == "composer"@ {
                if t.composer is None {
                    ScoreDraft { composer: trimmed_text(c), ..t }
                } else {
                    t
                }
            } else if ty == "arranger"@ {
                ScoreDraft { arranger: trimmed_text(c), ..t }
            } else {
                t
            }
        } else if tag(c) == Tag::Encoding {
            match last_tagged(c.children@, Tag::Software) {
                Some(sw) => ScoreDraft { software: trimmed_text(sw), ..t },
                None => t,
            }
        } else {
            t
        }
    }
}

/// Text of a `<credit>`: the non-empty trimmed texts of its
/// `<credit-words>`, joined by newlines.
pub open spec fn credit_text(cs: Seq<XmlElement>) -> Seq<char>
    decreases cs.len(),
{
    if cs.len() == 0 {
        Seq::empty()
    } else {
        let acc = credit_text(cs.drop_last());
        let t = trimmed_text_or(cs.last(), ""@);
        if tag(cs.last()) != Tag::CreditWords || t.len() == 0 {
            acc
        } else if acc.len() == 0 {
            t
        } else {
            acc + seq!['\n'] + t
        }
    }
}

/// A `<credit>`: its type names the field (title, subtitle, composer) that
/// its text sets; an empty text sets no title or composer.
pub open spec fn credit_apply(s: ScoreDraft, cs: Seq<XmlElement>) -> ScoreDraft {
    let ty = last_text_or(cs, Tag::CreditType, ""@, ""@);
    let text = credit_text(cs);
    if ty == "title"@ {
        if text.len() > 0 {
            ScoreDraft { title: Some(text), ..s }
        } else {
            s
        }
    } else if ty == "subtitle"@ {
        ScoreDraft { subtitle: Some(text), ..s }
    } else if ty == "composer"@ {
        if text.len() > 0 {
            ScoreDraft { composer: Some(text), ..s }
        } else {
            s
        }
    } else {
        s
    }
}

/// The part declared by a `<score-part>`.
pub open spec fn score_part(e: XmlElement) -> PartDraft {
    let cs = e.children@;
    let midi = grandchildren(cs, Tag::MidiInstrument);
    PartDraft {
        id: or_seq(attr(e, "id"@), ""@),
        name: last_text_or(cs, Tag::PartName, ""@, ""@),
        abbreviation: last_text(cs, Tag::PartAbbreviation),
        midi_program: last_i32(midi, Tag::MidiProgram),
        midi_channel: last_i32(midi, Tag::MidiChannel),
        measures: Seq::empty(),
    }
}

/// Index of the first part with the given id.
pub open spec fn part_index(parts: Seq<PartDraft>, id: Seq<char>) -> Option<int>
    decreases parts.len(),
{
    if parts.len() == 0 {
        None
    } else if parts[0].id == id {
        Some(0)
    } else {
        match part_index(parts.drop_first(), id) {
            Some(i) => Some(i + 1),
            None => None,
        }
    }
}

/// A `<part>`: its measures go to the first declared part with its id;
/// a part that was not declared is ignored.
pub open spec fn part_apply(s: ScoreDraft, e: XmlElement) -> ScoreDraft {
    match part_index(s.parts, or_seq(attr(e, "id"@), ""@)) {
        Some(i) => ScoreDraft {
            parts: s.parts.update(
                i,
                PartDraft {
                    measures: s.parts[i].measures + all_tagged(e.children@, Tag::Measure),
                    ..s.parts[i]
                },
            ),
            ..s
        },
        None => s,
    }
}

/// The score after the root's children `cs`, in document order.
pub open spec fn score_fold(version: Option<Seq<char>>, cs: Seq<XmlElement>) -> ScoreDraft
    decreases cs.len(),
{
    if cs.len() == 0 {
        ScoreDraft {
            title: None,
            subtitle: None,
            composer: None,
            arranger: None,
            version,
            software: None,
            parts: Seq::empty(),
        }
    } else {
        let s = score_fold(version, cs.drop_last());
        let c = cs.last();
        if tag(c) == Tag::Work {
            work_fold(s, c.children@)
        } else if tag(c) == Tag::Identification {
            identification_fold(s, c.children@)
        } else if tag(c) == Tag::Credit {
            credit_apply(s, c.children@)
        } else if tag(c) == Tag::PartList {
            ScoreDraft {
                parts: s.parts + all_tagged(c.children@, Tag::ScorePart).map_values(|p: XmlElement| score_part(p)),
                ..s
            }
        } else if tag(c) == Tag::Part {
            part_apply(s, c)
        } else {
            s
        }
    }
}

/// A part of the score as drafted.
pub open spec fn part_matches(d: PartDraft, p: Part) -> bool {
    &&& p.id@ == d.id
    &&& p.name@ == d.name
    &&& opt_str(p.abbreviation) == d.abbreviation
    &&& opt_int(p.midi_program) == d.midi_program
    &&& opt_int(p.midi_channel) == d.midi_channel
    &&& p.measures@.len() == d.measures.len()
    &&& forall|j: int| 0 <= j < p.measures@.len() ==> measure_read(d.measures[j], #[trigger] p.measures@[j])
}

/// The score as drafted.
pub open spec fn score_matches(d: ScoreDraft, s: Score) -> bool {
    &&& opt_str(s.title) == d.title
    &&& opt_str(s.subtitle) == d.subtitle
    &&& opt_str(s.composer) == d.composer
    &&& opt_str(s.arranger) == d.arranger
    &&& opt_str(s.version) == d.version
    &&& opt_str(s.software) == d.software
    &&& s.parts@.len() == d.parts.len()
    &&& forall|i: int| 0 <= i < s.parts@.len() ==> part_matches(d.parts[i], #[trigger] s.parts@[i])
}

/// The score a `score-partwise` root element describes.
pub open spec fn score_read(root: XmlElement, s: Score) -> bool {
    score_matches(score_fold(attr(root, "version"@), root.children@), s)
}

fn parse_work(score: &mut Score, e: &XmlElement, Ghost(d): Ghost<ScoreDraft>)
    requires
        score_matches(d, *old(score)),
    ensures
        score_matches(work_fold(d, e.children@), *final(score)),
{
    let ghost cs = e.children@;
    let mut k: usize = 0;
    while k < e.children.len()
        invariant
            cs == e.children@,
            k <= cs.len(),
            score_matches(work_fold(d, cs.take(k as int)), *score),
        decreases cs.len() - k,
    {
        proof {
            lemma_take_step(cs, k as int);
        }
        let c = &e.children[k];
        if tag_exec(c) == Tag::WorkTitle && score.title.is_none() {
            score.title = text_trimmed(c);
        }
        k = k + 1;
    }
    proof {
        lemma_take_all(cs);
    }
}

fn parse_identification(score: &mut Score, e: &XmlElement, Ghost(d): Ghost<ScoreDraft>)
    requires
        score_matches(d, *old(score)),
    ensures
        score_matches(identification_fold(d, e.children@), *final(score)),
{
    let ghost cs = e.children@;
    let mut k: usize = 0;
    while k < e.children.len()
        invariant
            cs == e.children@,
            k <= cs.len(),
            score_matches(identification_fold(d, cs.take(k as int)), *score),
        decreases cs.len() - k,
    {
        proof {
            lemma_take_step(cs, k as int);
        }
        let c = &e.children[k];
        match tag_exec(c) {
            Tag::Creator => {
                let ty = attribute_or(c, "type", "");
                if str_eq(ty.as_str(), "composer") {
                    if score.composer.is_none() {
                        score.composer = text_trimmed(c);
                    }
                } else if str_eq(ty.as_str(), "arranger") {
                    score.arranger = text_trimmed(c);
                }
            },
            Tag::Encoding => {
                let ghost gs = c.children@;
                let mut j: usize = 0;
                let mut sw: Option<String> = None;
                let mut found = false;
                while j < c.children.len()
                    invariant
                        gs == c.children@,
                        j <= gs.len(),
                        found == (last_tagged(gs.take(j as int), Tag::Software) is Some),
                        found ==> opt_str(sw) == trimmed_text(last_tagged(gs.take(j as int), Tag::Software)->0),
                    decreases gs.len() - j,
                {
                    proof {
                        lemma_take_step(gs, j as int);
                    }
                    if tag_exec(&c.children[j]) == Tag::Software {
                        sw = text_trimmed(&c.children[j]);
                        found = true;
                    }
                    j = j + 1;
                }
                proof {
                    lemma_take_all(gs);
                }
                if found {
                    score.software = sw;
                }
            },
            _ => {},
        }
        k = k + 1;
    }
    proof {
        lemma_take_all(cs);
    }
}

fn parse_credit(score: &mut Score, e: &XmlElement, Ghost(d): Ghost<ScoreDraft>)
    requires
        score_matches(d, *old(score)),
    ensures
        score_matches(credit_apply(d, e.children@), *final(score)),
{
    let ghost cs = e.children@;
    let mut ty = String::from_str("");
    let mut text: Vec<char> = Vec::new();
    proof {
        reveal_strlit("");
    }
    let mut k: usize = 0;
    while k < e.children.len()
        invariant
            cs == e.children@,
            k <= cs.len(),
            ty@ == last_text_or(cs.take(k as int), Tag::CreditType, ""@, ""@),
            text@ == credit_text(cs.take(k as int)),
        decreases cs.len() - k,
    {
        proof {
            lemma_take_step(cs, k as int);
        }
        let c = &e.children[k];
        match tag_exec(c) {
            Tag::CreditType => {
                ty = text_trimmed_or(c, "");
            },
            Tag::CreditWords => {
                let t = text_trimmed_or(c, "");
                let tc = str_to_chars(t.as_str());
                if tc.len() > 0 {
                    if text.len() > 0 {
                        text.push('\n');
                    }
                    let ghost before = text@;
                    let mut j: usize = 0;
                    while j < tc.len()
                        invariant
                            j <= tc@.len(),
                            text@ == before + tc@.take(j as int),
                        decreases tc@.len() - j,
                    {
                        text.push(tc[j]);
                        j = j + 1;
                        assert(text@ =~= before + tc@.take(j as int));
                    }
                    assert(tc@.take(tc@.len() as int) == tc@);
                }
            },
            _ => {},
        }
        proof {
            if tag(cs[k as int]) == Tag::CreditWords && trimmed_text_or(cs[k as int], ""@).len() > 0
                && credit_text(cs.take(k as int)).len() > 0 {
                assert(credit_text(cs.take(k + 1)) =~= credit_text(cs.take(k as int)) + seq!['\n']
                    + trimmed_text_or(cs[k as int], ""@));
            }
        }
        k = k + 1;
    }
    proof {
        lemma_take_all(cs);
    }
    let text_s = crate::text::chars_to_string(&text);
    if str_eq(ty.as_str(), "title") {
        if text.len() > 0 {
            score.title = Some(text_s);
        }
    } else if str_eq(ty.as_str(), "subtitle") {
        score.subtitle = Some(text_s);
    } else if str_eq(ty.as_str(), "composer") {
        if text.len() > 0 {
            score.composer = Some(text_s);
        }
    }
}

/// Read a `<score-part>` element.
fn parse_score_part(e: &XmlElement) -> (p: Part)
    ensures
        part_matches(score_part(*e), p),
{
    let ghost cs = e.children@;
    let mut p = Part {
        id: attribute_or(e, "id", ""),
        name: String::from_str(""),
        abbreviation: None,
        midi_program: None,
        midi_channel: None,
        measures: Vec::new(),
    };
    proof {
        reveal_strlit("");
    }
    let mut k: usize = 0;
    while k < e.children.len()
        invariant
            cs == e.children@,
            k <= cs.len(),
            p.id@ == or_seq(attr(*e, "id"@), ""@),
            p.name@ == last_text_or(cs.take(k as int), Tag::PartName, ""@, ""@),
            opt_str(p.abbreviation) == last_text(cs.take(k as int), Tag::PartAbbreviation),
            opt_int(p.midi_program) == last_i32(grandchildren(cs.take(k as int), Tag::MidiInstrument), Tag::MidiProgram),
            opt_int(p.midi_channel) == last_i32(grandchildren(cs.take(k as int), Tag::MidiInstrument), Tag::MidiChannel),
            p.measures@.len() == 0,
        decreases cs.len() - k,
    {
        proof {
            lemma_take_step(cs, k as int);
        }
        let c = &e.children[k];
        match tag_exec(c) {
            Tag::PartName => {
                p.name = text_trimmed_or(c, "");
            },
            Tag::PartAbbreviation => {
                p.abbreviation = text_trimmed(c);
            },
            Tag::MidiInstrument => {
                let ghost before = grandchildren(cs.take(k as int), Tag::MidiInstrument);
                let ghost gs = c.children@;
                let mut j: usize = 0;
                while j < c.children.len()
                    invariant
                        gs == c.children@,
                        j <= gs.len(),
                        p.id@ == or_seq(attr(*e, "id"@), ""@),
                        p.name@ == last_text_or(cs.take(k as int), Tag::PartName, ""@, ""@),
                        opt_str(p.abbreviation) == last_text(cs.take(k as int), Tag::PartAbbreviation),
                        opt_int(p.midi_program) == last_i32(before + gs.take(j as int), Tag::MidiProgram),
                        opt_int(p.midi_channel) == last_i32(before + gs.take(j as int), Tag::MidiChannel),
                        p.measures@.len() == 0,
                    decreases gs.len() - j,
                {
                    proof {
                        lemma_take_step(gs, j as int);
                        assert((before + gs.take(j + 1)).drop_last() == before + gs.take(j as int));
                        assert((before + gs.take(j + 1)).last() == gs[j as int]);
                    }
                    let g = &c.children[j];
                    match tag_exec(g) {
                        Tag::MidiChannel => {
                            p.midi_channel = read_i32(g);
                        },
                        Tag::MidiProgram => {
                            p.midi_program = read_i32(g);
                        },
                        _ => {},
                    }
                    j = j + 1;
                }
                proof {
                    lemma_take_all(gs);
                    if gs.len() == 0 {
                        assert(before + gs == before);
                    }
                }
            },
            _ => {},
        }
        k = k + 1;
    }
    proof {
        lemma_take_all(cs);
    }
    p
}

fn parse_part_list(score: &mut Score, e: &XmlElement, Ghost(d): Ghost<ScoreDraft>)
    requires
        score_matches(d, *old(score)),
    ensures
        score_matches(
            ScoreDraft {
                parts: d.parts + all_tagged(e.children@, Tag::ScorePart).map_values(|p: XmlElement| score_part(p)),
                ..d
            },
            *final(score),
        ),
{
    let ghost cs = e.children@;
    let mut k: usize = 0;
    while k < e.children.len()
        invariant
            cs == e.children@,
            k <= cs.len(),
            score_matches(
                ScoreDraft {
                    parts: d.parts + all_tagged(cs.take(k as int), Tag::ScorePart).map_values(|p: XmlElement| score_part(p)),
                    ..d
                },
                *score,
            ),
        decreases cs.len() - k,
    {
        proof {
            lemma_take_step(cs, k as int);
        }
        let c = &e.children[k];
        if tag_exec(c) == Tag::ScorePart {
            let p = parse_score_part(c);
            score.parts.push(p);
            proof {
                let old_parts = d.parts + all_tagged(cs.take(k as int), Tag::ScorePart).map_values(|p: XmlElement| score_part(p));
                let new_parts = d.parts + all_tagged(cs.take(k + 1), Tag::ScorePart).map_values(|p: XmlElement| score_part(p));
                assert(new_parts =~= old_parts.push(score_part(*c)));
            }
        } else {
            proof {
                assert(all_tagged(cs.take(k + 1), Tag::ScorePart) == all_tagged(cs.take(k as int), Tag::ScorePart));
            }
        }
        k = k + 1;
    }
    proof {
        lemma_take_all(cs);
    }
}

fn find_part(parts: &Vec<Part>, id: &str, Ghost(d): Ghost<Seq<PartDraft>>) -> (r: Option<usize>)
    requires
        parts@.len() == d.len(),
        forall|i: int| 0 <= i < parts@.len() ==> (#[trigger] parts@[i]).id@ == d[i].id,
    ensures
        match r {
            Some(i) => part_index(d, id@) == Some(i as int) && i < parts@.len(),
            None => part_index(d, id@) is None,
        },
{
    let mut k: usize = 0;
    proof {
        assert(d.skip(0) == d);
    }
    while k < parts.len()
        invariant
            k <= parts@.len(),
            parts@.len() == d.len(),
            forall|i: int| 0 <= i < parts@.len() ==> (#[trigger] parts@[i]).id@ == d[i].id,
            part_index(d, id@) == match part_index(d.skip(k as int), id@) {
                Some(i) => Some(i + k),
                None => None::<int>,
            },
        decreases parts@.len() - k,
    {
        proof {
            assert(d.skip(k as int)[0] == d[k as int]);
            assert(d.skip(k as int).drop_first() == d.skip(k + 1));
        }
        if str_eq(parts[k].id.as_str(), id) {
            return Some(k);
        }
        k = k + 1;
    }
    None
}

fn parse_part(score: &mut Score, e: &XmlElement, Ghost(d): Ghost<ScoreDraft>)
    requires
        score_matches(d, *old(score)),
    ensures
        score_matches(part_apply(d, *e), *final(score)),
{
    let id = attribute_or(e, "id", "");
    match find_part(&score.parts, id.as_str(), Ghost(d.parts)) {
        None => {},
        Some(pi) => {
            let ghost cs = e.children@;
            let ghost m0 = d.parts[pi as int].measures;
            let mut measures: Vec<Measure> = Vec::new();
            let mut k: usize = 0;
            while k < e.children.len()
                invariant
                    cs == e.children@,
                    k <= cs.len(),
                    measures@.len() == all_tagged(cs.take(k as int), Tag::Measure).len(),
                    forall|j: int|
                        0 <= j < measures@.len() ==> measure_read(
                            all_tagged(cs.take(k as int), Tag::Measure)[j],
                            #[trigger] measures@[j],
                        ),
                decreases cs.len() - k,
            {
                proof {
                    lemma_take_step(cs, k as int);
                }
                let c = &e.children[k];
                if tag_exec(c) == Tag::Measure {
                    let m = parse_measure(c);
                    measures.push(m);
                }
                k = k + 1;
            }
            proof {
                lemma_take_all(cs);
            }
            let ghost before = score.parts@[pi as int].measures@;
            let mut part = score.parts.remove(pi);
            part.measures.append(&mut measures);
            score.parts.insert(pi, part);
            proof {
                let nd = part_apply(d, *e);
                assert(nd.parts[pi as int].measures == m0 + all_tagged(cs, Tag::Measure));
                assert forall|i: int| 0 <= i < score.parts@.len() implies part_matches(
                    nd.parts[i],
                    #[trigger] score.parts@[i],
                ) by {
                    if i == pi {
                        assert forall|j: int| 0 <= j < score.parts@[i].measures@.len() implies measure_read(
                            nd.parts[i].measures[j],
                            #[trigger] score.parts@[i].measures@[j],
                        ) by {
                            if j < before.len() {
                                assert(score.parts@[i].measures@[j] == before[j]);
                            }
                        }
                    }
                }
            }
        },
    }
}

/// What reading root element `root` gives (see `score_from_xml`).
pub open spec fn score_result(root: XmlElement, r: Result<Score, String>) -> bool {
    match r {
        Ok(s) => root.name@ == "score-partwise"@ && score_read(root, s),
        Err(e) => root.name@ != "score-partwise"@ && e@ == "Unsupported root element: '"@ + root.name@
            + "'. Only 'score-partwise' is supported."@,
    }
}

/// Read a MusicXML document's root element into a score. Fails with
/// "Unsupported root element: '<name>'. Only 'score-partwise' is
/// supported." when the root is not `score-partwise`.
pub fn score_from_xml(root: &XmlElement) -> (r: Result<Score, String>)
    ensures
        score_result(*root, r),
{
    if !str_eq(root.name.as_str(), "score-partwise") {
        let mut e = String::from_str("Unsupported root element: '");
        e.append(root.name.as_str());
        e.append("'. Only 'score-partwise' is supported.");
        return Err(e);
    }
    let ghost cs = root.children@;
    let mut score = Score::new();
    score.version = attribute(root, "version");
    let mut k: usize = 0;
    proof {
        assert(score_matches(score_fold(attr(*root, "version"@), cs.take(0)), score));
    }
    while k < root.children.len()
        invariant
            cs == root.children@,
            k <= cs.len(),
            score_matches(score_fold(attr(*root, "version"@), cs.take(k as int)), score),
        decreases cs.len() - k,
    {
        proof {
            lemma_take_step(cs, k as int);
        }
        let ghost d = score_fold(attr(*root, "version"@), cs.take(k as int));
        let c = &root.children[k];
        match tag_exec(c) {
            Tag::Work => {
                parse_work(&mut score, c, Ghost(d));
            },
            Tag::Identification => {
                parse_identification(&mut score, c, Ghost(d));
            },
            Tag::Credit => {
                parse_credit(&mut score, c, Ghost(d));
            },
            Tag::PartList => {
                parse_part_list(&mut score, c, Ghost(d));
            },
            Tag::Part => {
                parse_part(&mut score, c, Ghost(d));
            },
            _ => {},
        }
        k = k + 1;
    }
    proof {
        lemma_take_all(cs);
    }
    Ok(score)
}

/// What parsing MusicXML text `xml` gives (see `parse_musicxml`).
pub open spec fn musicxml_outcome(xml: Seq<char>, r: Result<Score, String>) -> bool {
    match xml_parse(xml, true) {
        Err(m) => r matches Err(e) && e@ == "XML parse error: "@ + m,
        Ok(ns) => match root_index(ns) {
            None => r matches Err(e) && e@ == "XML parse error: XML document has no root element"@,
            Some(k) => exists|root: XmlElement| #[trigger] is_element_tree(root, ns, k) && score_result(root, r),
        },
    }
}

/// Parse a MusicXML text into a score: the document's root element (see
/// `parse_xml`, DTDs allowed) read by `score_from_xml`. Fails with "XML
/// parse error: " and roxmltree's message on a text it does not accept, or
/// "XML parse error: XML document has no root element".
pub fn parse_musicxml(xml: &str) -> (r: Result<Score, String>)
    ensures
        musicxml_outcome(xml@, r),
{
    match parse_xml(xml, true) {
        Ok(root) => {
            let r = score_from_xml(&root);
            proof {
                let ns = xml_parse(xml@, true)->Ok_0;
                let k = root_index(ns)->0;
                assert(is_element_tree(root, ns, k) && score_result(root, r));
            }
            r
        },
        Err(m) => {
            let mut e = String::from_str("XML parse error: ");
            e.append(m.as_str());
            proof {
                reveal_strlit("XML parse error: ");
                reveal_strlit("XML document has no root element");
                reveal_strlit("XML parse error: XML document has no root element");
                assert("XML parse error: "@ + "XML document has no root element"@
                    =~= "XML parse error: XML document has no root element"@);
            }
            Err(e)
        },
    }
}

} // verus!
