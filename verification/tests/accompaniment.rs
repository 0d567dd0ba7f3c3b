use soloband::accompaniment::{bass_line, drum_hits, metronome_click, piano_chord, strings_chord};
use soloband::chords::{
    add_seventh, felt_beats, fifths_to_pitch_class, find_most_likely_root, get_chord_voicing,
    get_smoother_voicing, infer_chord_kind, parse_chord_kind, analyze_chords, analyze_chords_for_timemap, order_fits, pitches_fit, step_to_pitch_class,
    ChordKind,
};
use soloband::mxl::parse_bytes;
use soloband::model::{pitch_midi_fits, Pitch};
use soloband::unroller::{unroll, UnrolledMeasure};

#[test]
fn chord_voicing_intervals() {
    // Major: root, major third (+4), fifth (+7)
    let major = get_chord_voicing(0, ChordKind::Major); // C = 0
    assert_eq!(major, vec![48, 52, 55]); // C3, E3, G3

    // Minor: root, minor third (+3), fifth (+7)
    let minor = get_chord_voicing(0, ChordKind::Minor);
    assert_eq!(minor, vec![48, 51, 55]); // C3, Eb3, G3

    // Dominant 7: root, major third, fifth, flat seventh
    let dom7 = get_chord_voicing(0, ChordKind::Dominant7);
    assert_eq!(dom7, vec![48, 52, 55, 58]);

    // Diminished: root, minor third, tritone
    let dim = get_chord_voicing(0, ChordKind::Diminished);
    assert_eq!(dim, vec![48, 51, 54]);

    // Augmented: root, major third, augmented fifth
    let aug = get_chord_voicing(0, ChordKind::Augmented);
    assert_eq!(aug, vec![48, 52, 56]);
}

#[test]
fn chord_voicing_transposes_with_root() {
    // G major (root = 7)
    let g_major = get_chord_voicing(7, ChordKind::Major);
    assert_eq!(g_major, vec![55, 59, 62]); // G3, B3, D4

    // D minor (root = 2)
    let d_minor = get_chord_voicing(2, ChordKind::Minor);
    assert_eq!(d_minor, vec![50, 53, 57]); // D3, F3, A3
}

#[test]
fn parse_chord_kind_standard_strings() {
    assert_eq!(parse_chord_kind("major"), ChordKind::Major);
    assert_eq!(parse_chord_kind("minor"), ChordKind::Minor);
    assert_eq!(parse_chord_kind("dominant"), ChordKind::Dominant7);
    assert_eq!(parse_chord_kind("dominant-seventh"), ChordKind::Dominant7);
    assert_eq!(parse_chord_kind("major-seventh"), ChordKind::MajorSeventh);
    assert_eq!(parse_chord_kind("minor-seventh"), ChordKind::MinorSeventh);
    assert_eq!(parse_chord_kind("diminished"), ChordKind::Diminished);
    assert_eq!(parse_chord_kind("half-diminished"), ChordKind::HalfDiminished);
    assert_eq!(parse_chord_kind("augmented"), ChordKind::Augmented);
    // Unknown defaults to Major
    assert_eq!(parse_chord_kind("unknown-quality"), ChordKind::Major);
}

#[test]
fn infer_chord_kind_from_pitches() {
    // C major triad: C(0), E(4), G(7)
    assert_eq!(infer_chord_kind(&[0, 4, 7], 0), ChordKind::Major);
    // C minor triad: C(0), Eb(3), G(7)
    assert_eq!(infer_chord_kind(&[0, 3, 7], 0), ChordKind::Minor);
    // C dominant 7: C(0), E(4), G(7), Bb(10)
    assert_eq!(infer_chord_kind(&[0, 4, 7, 10], 0), ChordKind::Dominant7);
    // C diminished: C(0), Eb(3), Gb(6)
    assert_eq!(infer_chord_kind(&[0, 3, 6], 0), ChordKind::Diminished);
    // C augmented: C(0), E(4), G#(8)
    assert_eq!(infer_chord_kind(&[0, 4, 8], 0), ChordKind::Augmented);
}

#[test]
fn infer_chord_kind_sevenths_and_partials() {
    assert_eq!(infer_chord_kind(&[0, 4, 7, 11], 0), ChordKind::MajorSeventh);
    assert_eq!(infer_chord_kind(&[0, 3, 7, 10], 0), ChordKind::MinorSeventh);
    assert_eq!(infer_chord_kind(&[0, 3, 6, 10], 0), ChordKind::HalfDiminished);
    // Intervals are taken above the root: A minor over root 9
    assert_eq!(infer_chord_kind(&[9, 0, 4], 9), ChordKind::Minor);
    // A lone minor third leans minor; nothing recognisable is major
    assert_eq!(infer_chord_kind(&[0, 3], 0), ChordKind::Minor);
    assert_eq!(infer_chord_kind(&[0], 0), ChordKind::Major);
}

#[test]
fn most_likely_root_prefers_tonic_then_dominant() {
    // C major key: tonic present
    assert_eq!(find_most_likely_root(&[4, 0, 7], 0), 0);
    // no tonic, dominant G present
    assert_eq!(find_most_likely_root(&[2, 7, 11], 0), 7);
    // G major key: subdominant C (7 + 5 = 12 -> 0)
    assert_eq!(find_most_likely_root(&[0, 4], 7), 0);
    // nothing diatonic: first pitch class
    assert_eq!(find_most_likely_root(&[1, 6], 0), 1);
}

#[test]
fn add_seventh_fills_triads_only() {
    assert_eq!(add_seventh(&[48, 52, 55], ChordKind::Major), vec![48, 52, 55, 59]);
    assert_eq!(add_seventh(&[48, 51, 55], ChordKind::Minor), vec![48, 51, 55, 58]);
    assert_eq!(add_seventh(&[48, 51, 54], ChordKind::Diminished), vec![48, 51, 54, 57]);
    assert_eq!(add_seventh(&[48, 52, 55, 58], ChordKind::Dominant7), vec![48, 52, 55, 58]);
}

#[test]
fn smoother_voicing_picks_closest_inversion() {
    // From C major around C4 (60 64 67) to F major (53 57 60): moving the
    // lowest notes up an octave twice gives 60 65 69, which moves least.
    let prev = vec![60, 64, 67];
    let f_major = get_chord_voicing(5, ChordKind::Major);
    assert_eq!(f_major, vec![53, 57, 60]);
    assert_eq!(get_smoother_voicing(&f_major, &prev), vec![60, 65, 69]);
    // Already closest: unchanged
    assert_eq!(get_smoother_voicing(&f_major, &[48, 52, 55]), vec![53, 57, 60]);
    // Empty previous voicing: unchanged
    assert_eq!(get_smoother_voicing(&f_major, &[]), vec![53, 57, 60]);
}

#[test]
fn felt_beats_compound_and_simple() {
    assert_eq!(felt_beats(6, 8), 2);
    assert_eq!(felt_beats(9, 8), 3);
    assert_eq!(felt_beats(12, 8), 4);
    assert_eq!(felt_beats(3, 8), 3);
    assert_eq!(felt_beats(4, 4), 4);
    assert_eq!(felt_beats(3, 4), 3);
}

#[test]
fn pitch_classes_of_keys_and_steps() {
    assert_eq!(fifths_to_pitch_class(0), 0);
    assert_eq!(fifths_to_pitch_class(1), 7);
    assert_eq!(fifths_to_pitch_class(-1), 5);
    assert_eq!(fifths_to_pitch_class(-7), 11);
    assert_eq!(fifths_to_pitch_class(7), 1);
    assert_eq!(step_to_pitch_class(&"B".to_string(), Some(-100)), 10);
    assert_eq!(step_to_pitch_class(&"B".to_string(), Some(100)), 0);
    assert_eq!(step_to_pitch_class(&"C".to_string(), Some(-100)), 11);
    assert_eq!(step_to_pitch_class(&"X".to_string(), None), 0);
}

const HARMONY_XML: &str = r#"<?xml version="1.0"?><score-partwise version="3.1"><part-list><score-part id="P1"><part-name>P</part-name></score-part></part-list><part id="P1"><measure number="1"><attributes><divisions>2</divisions><key><fifths>0</fifths></key><time><beats>4</beats><beat-type>4</beat-type></time></attributes><harmony><root><root-step>G</root-step></root><kind>dominant</kind></harmony><note><pitch><step>G</step><octave>4</octave></pitch><duration>4</duration></note><harmony><root><root-step>C</root-step></root><kind>major</kind></harmony><note><pitch><step>C</step><octave>5</octave></pitch><duration>4</duration></note></measure><measure number="2"><note><rest/><duration>8</duration></note></measure></part></score-partwise>"#;

#[test]
fn chord_plan_from_symbols_splits_measures() {
    let score = parse_bytes(HARMONY_XML.as_bytes(), Some("xml")).unwrap();
    let unrolled = unroll(&score, 0);
    let plan = analyze_chords(&score.parts[0], &unrolled);
    assert_eq!(plan.len(), 3);
    assert_eq!((plan[0].root, plan[0].kind), (7, ChordKind::Dominant7));
    assert_eq!((plan[0].start_divisions, plan[0].end_divisions), (Some(0), Some(4)));
    assert_eq!((plan[1].root, plan[1].kind), (0, ChordKind::Major));
    assert_eq!((plan[1].start_divisions, plan[1].end_divisions), (Some(4), None));
    // The measure without symbols carries the previous chord over.
    assert_eq!((plan[2].root, plan[2].kind, plan[2].position), (0, ChordKind::Major, 1));
    assert_eq!(plan[2].start_divisions, None);
}

const MELODY_XML: &str = r#"<?xml version="1.0"?><score-partwise version="3.1"><part-list><score-part id="P1"><part-name>P</part-name></score-part></part-list><part id="P1"><measure number="1"><attributes><divisions>1</divisions><key><fifths>1</fifths></key></attributes><note><pitch><step>G</step><octave>4</octave></pitch><duration>1</duration></note><note><pitch><step>B</step><octave>4</octave></pitch><duration>1</duration></note><note><pitch><step>D</step><octave>5</octave></pitch><duration>2</duration></note></measure><measure number="2"><note><rest/><duration>4</duration></note></measure><measure number="3"><note><pitch><step>A</step><octave>4</octave></pitch><duration>1</duration></note><note><pitch><step>C</step><octave>5</octave></pitch><duration>1</duration></note><note><pitch><step>E</step><octave>5</octave></pitch><duration>2</duration></note></measure></part></score-partwise>"#;

#[test]
fn chord_plan_inferred_from_melody() {
    let score = parse_bytes(MELODY_XML.as_bytes(), Some("xml")).unwrap();
    let unrolled = unroll(&score, 0);
    let plan = analyze_chords(&score.parts[0], &unrolled);
    assert_eq!(plan.len(), 3);
    // G major key: G B D is the tonic triad
    assert_eq!((plan[0].root, plan[0].kind), (7, ChordKind::Major));
    // rests repeat the previous chord
    assert_eq!((plan[1].root, plan[1].kind), (7, ChordKind::Major));
    // A C E: the subdominant C is found before the ii degree; no fifth
    // above C sounds, so the chord defaults to major
    assert_eq!((plan[2].root, plan[2].kind), (0, ChordKind::Major));
}

#[test]
fn piano_chord_leads_voices_and_leaves_root_to_bass() {
    let (v, keys) = piano_chord(0, ChordKind::Major, &[]);
    assert_eq!(v, vec![48, 52, 55, 59]);
    assert_eq!(keys, vec![52, 55, 59]);
    // F major seventh after a C major seventh an octave up: the second
    // inversion moves least
    let (v, keys) = piano_chord(5, ChordKind::Major, &[60, 64, 67, 71]);
    assert_eq!(v, vec![60, 64, 65, 69]);
    assert_eq!(keys, vec![64, 65, 69]);
}

#[test]
fn strings_chord_leads_voices() {
    let (v, notes) = strings_chord(5, ChordKind::Major, &[60, 64, 67]);
    assert_eq!(v, vec![60, 65, 69]);
    assert_eq!(notes, v);
    let (v, _) = strings_chord(9, ChordKind::Minor, &[]);
    assert_eq!(v, vec![57, 60, 64]);
}

#[test]
fn bass_line_and_drum_pattern() {
    assert_eq!(bass_line(7), (43, 50, 55));
    assert_eq!(bass_line(14), (38, 45, 50));
    assert_eq!(drum_hits(0, 4), vec![(36, 82), (42, 55)]);
    assert_eq!(drum_hits(1, 4), vec![(38, 72), (42, 55)]);
    assert_eq!(drum_hits(2, 4), vec![(36, 82), (42, 55)]);
    assert_eq!(drum_hits(2, 3), vec![(42, 55)]);
    assert_eq!(drum_hits(3, 4), vec![(38, 72), (42, 55)]);
    assert_eq!(metronome_click(0), (76, 85));
    assert_eq!(metronome_click(2), (77, 65));
}

#[test]
fn chord_plan_empty_when_timemap_length_differs() {
    let score = parse_bytes(MELODY_XML.as_bytes(), Some("xml")).unwrap();
    let unrolled = unroll(&score, 0);
    assert_eq!(unrolled.len(), 3);
    assert!(analyze_chords_for_timemap(&score.parts[0], &unrolled, 2).is_empty());
    assert!(analyze_chords_for_timemap(&score.parts[0], &unrolled, 4).is_empty());
    let plan = analyze_chords_for_timemap(&score.parts[0], &unrolled, 3);
    assert_eq!(plan.len(), 3);
    assert_eq!((plan[0].root, plan[0].kind), (7, ChordKind::Major));
}

#[test]
fn runtime_checks_of_the_chord_plan_conditions() {
    let score = parse_bytes(MELODY_XML.as_bytes(), Some("xml")).unwrap();
    let unrolled = unroll(&score, 0);
    assert!(order_fits(&score.parts[0].measures, &unrolled));
    assert!(!order_fits(&score.parts[0].measures, &[UnrolledMeasure { original_index: 3 }]));
    assert!(pitches_fit(&score.parts[0].measures));
    let c4 = Pitch { step: "C".to_string(), octave: 4, alter_cents: Some(100) };
    assert!(pitch_midi_fits(&c4));
    let high = Pitch { step: "B".to_string(), octave: 178956969, alter_cents: None };
    assert!(!pitch_midi_fits(&high));
    let low = Pitch { step: "C".to_string(), octave: i32::MIN, alter_cents: None };
    assert!(!pitch_midi_fits(&low));
}
