use soloband::model::{pitch_to_name, Pitch};
use soloband::musicxml::parse_musicxml;
use soloband::note_timeline::{measure_timeline, pitch_to_midi};
use soloband::top_layer::{extract_top_layer_from_measure, extract_top_layer_from_part, select_staves};

const TWO_STAVES: &str = r#"<?xml version="1.0"?>
<score-partwise version="3.1">
<part-list><score-part id="P1"><part-name>Piano</part-name></score-part></part-list>
<part id="P1">
<measure number="1">
<attributes><divisions>2</divisions><staves>2</staves></attributes>
<note><pitch><step>C</step><octave>5</octave></pitch><duration>2</duration><voice>1</voice><staff>1</staff></note>
<note><chord/><pitch><step>E</step><octave>5</octave></pitch><duration>2</duration><voice>1</voice><staff>1</staff></note>
<note><pitch><step>D</step><octave>5</octave></pitch><duration>2</duration><voice>1</voice><staff>1</staff></note>
<backup><duration>4</duration></backup>
<note><pitch><step>A</step><octave>4</octave></pitch><duration>4</duration><voice>2</voice><staff>1</staff></note>
<backup><duration>4</duration></backup>
<note><pitch><step>C</step><octave>3</octave></pitch><duration>2</duration><voice>5</voice><staff>2</staff></note>
<note><rest/><duration>2</duration><voice>5</voice><staff>2</staff></note>
</measure>
<measure number="2">
<note><pitch><step>G</step><alter>1</alter><octave>4</octave></pitch><duration>4</duration></note>
<note><chord/><pitch><step>A</step><alter>-1</alter><octave>4</octave></pitch><duration>4</duration></note>
</measure>
</part>
</score-partwise>"#;

#[test]
fn top_layer_picks_highest_note_of_top_voice() {
    let score = parse_musicxml(TWO_STAVES).unwrap();
    let m = &score.parts[0].measures[0];
    let layer = extract_top_layer_from_measure(m, 0, None);
    assert!(layer.has_multiple_voices);
    assert!(layer.has_chord);
    assert_eq!(layer.divisions, 2);
    let got: Vec<(i32, i128, String, i32, usize)> = layer
        .top_notes
        .iter()
        .map(|n| (n.staff, n.beat_position, n.pitch_name.clone(), n.midi, n.note_index))
        .collect();
    assert_eq!(
        got,
        vec![
            (1, 0, "E5".to_string(), 76, 1),
            (1, 2, "D5".to_string(), 74, 2),
            (2, 0, "C3".to_string(), 48, 4),
        ]
    );
}

#[test]
fn top_layer_staff_filter_keeps_one_staff() {
    let score = parse_musicxml(TWO_STAVES).unwrap();
    let m = &score.parts[0].measures[0];
    let layer = extract_top_layer_from_measure(m, 7, Some(2));
    assert_eq!(layer.measure_idx, 7);
    assert_eq!(layer.top_notes.len(), 1);
    assert_eq!(layer.top_notes[0].pitch_name, "C3");
    assert_eq!(layer.top_notes[0].measure_idx, 7);
}

#[test]
fn top_layer_of_part_and_equal_pitches() {
    let score = parse_musicxml(TWO_STAVES).unwrap();
    let layers = extract_top_layer_from_part(&score.parts[0], Some(1));
    assert_eq!(layers.len(), 2);
    assert_eq!(layers[0].top_notes.len(), 2);
    // G#4 and Ab4 sound the same: the later note of the slot is kept
    let second = &layers[1];
    assert_eq!(second.divisions, 1);
    assert!(!second.has_multiple_voices);
    assert_eq!(second.top_notes.len(), 1);
    assert_eq!(second.top_notes[0].note_index, 1);
    assert_eq!(second.top_notes[0].pitch_name, "Ab4");
    assert_eq!(second.top_notes[0].midi, 68);
}

#[test]
fn pitch_names() {
    let p = |step: &str, cents: Option<i32>, octave: i32| Pitch { step: step.to_string(), octave, alter_cents: cents };
    assert_eq!(pitch_to_name(&p("C", None, 4)), "C4");
    assert_eq!(pitch_to_name(&p("F", Some(100), 3)), "F#3");
    assert_eq!(pitch_to_name(&p("B", Some(-100), 5)), "Bb5");
    assert_eq!(pitch_to_name(&p("E", Some(50), 4)), "E4");
    assert_eq!(pitch_to_name(&p("A", Some(-200), -1)), "Ab-1");
    assert_eq!(pitch_to_name(&p("G", Some(200), 10)), "G#10");
}

#[test]
fn timeline_keeps_voice_one_melody() {
    let score = parse_musicxml(TWO_STAVES).unwrap();
    let m = &score.parts[0].measures[0];
    let got: Vec<(i128, i32, i32, String)> = measure_timeline(&m.notes)
        .into_iter()
        .map(|n| (n.offset, n.duration, n.midi, n.name))
        .collect();
    // the chord member E5 is left out; voice 2 and staff 2 are left out
    assert_eq!(got, vec![(0, 2, 72, "C5".to_string()), (2, 2, 74, "D5".to_string())]);
    let m2 = &score.parts[0].measures[1];
    let got2: Vec<(i128, i32, i32, String)> = measure_timeline(&m2.notes)
        .into_iter()
        .map(|n| (n.offset, n.duration, n.midi, n.name))
        .collect();
    assert_eq!(got2, vec![(0, 4, 68, "G#4".to_string())]);
}

#[test]
fn timeline_midi_rounds_alterations() {
    let p = |step: &str, cents: Option<i32>, octave: i32| Pitch { step: step.to_string(), octave, alter_cents: cents };
    assert_eq!(pitch_to_midi(&p("C", None, 4)), 60);
    assert_eq!(pitch_to_midi(&p("E", Some(50), 4)), 65);
    assert_eq!(pitch_to_midi(&p("E", Some(-50), 4)), 63);
    assert_eq!(pitch_to_midi(&p("E", Some(49), 4)), 64);
    assert_eq!(pitch_to_midi(&p("B", Some(-100), 3)), 58);
    // the score model's own conversion truncates instead
    assert_eq!(p("E", Some(50), 4).to_midi(), 64);
}

const TWO_PARTS_XML: &str = r#"<?xml version="1.0"?><score-partwise><part-list><score-part id="P1"><part-name>Piano</part-name></score-part><score-part id="P2"><part-name>Voice</part-name></score-part></part-list><part id="P1"><measure number="1"><attributes><divisions>1</divisions><staves>2</staves></attributes><note><rest/><duration>4</duration><staff>1</staff></note><note><rest/><duration>4</duration><staff>2</staff></note></measure></part><part id="P2"><measure number="1"><note><rest/><duration>4</duration></note></measure></part></score-partwise>"#;

#[test]
fn staff_selection_by_global_staff_numbers() {
    let score = soloband::mxl::parse_bytes(TWO_PARTS_XML.as_bytes(), Some("xml")).unwrap();
    let parts = &score.parts;
    assert_eq!(select_staves(parts, None, false), Some(vec![(0, vec![1, 2]), (1, vec![1])]));
    assert_eq!(select_staves(parts, Some(&[]), false), Some(vec![(0, vec![1, 2]), (1, vec![1])]));
    // requests grouped by part, in part and staff order, without repeats
    assert_eq!(select_staves(parts, Some(&[3, 2, 2]), false), Some(vec![(0, vec![2]), (1, vec![1])]));
    // no requested staff exists: the first staff is drawn
    assert_eq!(select_staves(parts, Some(&[9, 0]), false), Some(vec![(0, vec![1])]));
    // jianpu draws one staff
    assert_eq!(select_staves(parts, Some(&[3, 1]), true), Some(vec![(1, vec![1])]));
    assert_eq!(select_staves(parts, Some(&[9]), true), Some(vec![(0, vec![1])]));
    assert_eq!(select_staves(parts, None, true), Some(vec![(0, vec![1])]));
    assert_eq!(select_staves(&Vec::new(), None, false), None);
}
