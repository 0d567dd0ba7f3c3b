use soloband::model::{Attributes, Clef, Measure, Note, Part};
use soloband::notation::{
    cancellation_natural_count, detect_staves, empty_svg, find_beam_groups, flat_positions, is_filled_note,
    is_jump_text, sharp_positions,
};

#[test]
fn cancellation_naturals() {
    assert_eq!(cancellation_natural_count(0, 3), 0);
    assert_eq!(cancellation_natural_count(3, 1), 2);
    assert_eq!(cancellation_natural_count(3, 4), 0);
    assert_eq!(cancellation_natural_count(-4, -1), 3);
    assert_eq!(cancellation_natural_count(2, -3), 2);
    assert_eq!(cancellation_natural_count(-5, 0), 5);
    assert_eq!(cancellation_natural_count(i32::MIN, 1), 2147483648);
}

fn clef(sign: &str) -> Clef {
    Clef { number: 1, sign: sign.to_string(), line: 2, octave_change: None }
}

#[test]
fn key_signature_positions() {
    assert_eq!(sharp_positions(None), vec![0, 3, -1, 2, 5, 1, 4]);
    assert_eq!(sharp_positions(Some(&clef("G"))), vec![0, 3, -1, 2, 5, 1, 4]);
    assert_eq!(sharp_positions(Some(&clef("F"))), vec![2, 5, 1, 4, 7, 3, 6]);
    assert_eq!(flat_positions(None), vec![4, 1, 5, 2, 6, 3, 7]);
    assert_eq!(flat_positions(Some(&clef("C"))), vec![6, 3, 7, 4, 8, 5, 9]);
}

#[test]
fn filled_heads_and_jump_texts() {
    assert!(!is_filled_note(Some("whole")));
    assert!(!is_filled_note(Some("half")));
    assert!(is_filled_note(Some("quarter")));
    assert!(is_filled_note(None));
    assert!(is_jump_text("D.S. al Fine"));
    assert!(is_jump_text("  d. c. al coda "));
    assert!(is_jump_text("Fine"));
    assert!(is_jump_text("To Coda"));
    assert!(is_jump_text("CODA"));
    assert!(is_jump_text("Segno"));
    assert!(is_jump_text("Da Capo"));
    assert!(is_jump_text("dal segno"));
    assert!(!is_jump_text("Fine e dolce"));
    assert!(!is_jump_text("Allegro"));
}

#[test]
fn empty_svg_shows_message() {
    let svg = empty_svg("No parts");
    assert!(svg.starts_with("<svg"));
    assert!(svg.contains(">No parts</text>"));
    assert!(svg.ends_with("</svg>"));
}

fn note_on_staff(staff: Option<i32>) -> Note {
    Note {
        pitch: None,
        duration: 1,
        voice: None,
        note_type: None,
        stem: None,
        beams: vec![],
        rest: true,
        measure_rest: false,
        chord: false,
        dot: false,
        accidental: None,
        tie_start: false,
        tie_stop: false,
        staff,
        lyrics: vec![],
        grace: false,
        grace_slash: false,
        slurs: vec![],
    }
}

fn measure(attributes: Option<Attributes>, notes: Vec<Note>) -> Measure {
    Measure {
        number: 1,
        implicit: false,
        attributes,
        notes,
        harmonies: vec![],
        barlines: vec![],
        directions: vec![],
        new_system: false,
        new_page: false,
    }
}

#[test]
fn staves_detected_and_capped() {
    let part = Part {
        id: "P1".to_string(),
        name: "P".to_string(),
        abbreviation: None,
        midi_program: None,
        midi_channel: None,
        measures: vec![measure(None, vec![note_on_staff(None)])],
    };
    assert_eq!(detect_staves(&part), 1);
    let attrs = Attributes {
        divisions: None,
        key: None,
        time: None,
        clefs: vec![clef("G"), Clef { number: 3, ..clef("F") }],
        transpose: None,
        staves: Some(2),
    };
    let part2 = Part { measures: vec![measure(Some(attrs), vec![note_on_staff(Some(-4))])], ..part.clone() };
    assert_eq!(detect_staves(&part2), 3);
    let part3 = Part { measures: vec![measure(None, vec![note_on_staff(Some(40))])], ..part };
    assert_eq!(detect_staves(&part3), 8);
}

const BEAMED: &str = r#"<?xml version="1.0"?>
<score-partwise version="3.1">
<part-list><score-part id="P1"><part-name>P</part-name></score-part></part-list>
<part id="P1"><measure number="1">
<attributes><divisions>2</divisions></attributes>
<note><pitch><step>C</step><octave>4</octave></pitch><duration>1</duration><type>eighth</type><beam number="1">begin</beam></note>
<note><chord/><pitch><step>E</step><octave>4</octave></pitch><duration>1</duration><type>eighth</type></note>
<note><pitch><step>D</step><octave>4</octave></pitch><duration>1</duration><type>eighth</type><beam number="1">continue</beam></note>
<note><pitch><step>E</step><octave>4</octave></pitch><duration>1</duration><type>eighth</type><beam number="1">end</beam><beam number="2">begin</beam></note>
<note><pitch><step>F</step><octave>4</octave></pitch><duration>1</duration><type>eighth</type><beam number="1">begin</beam></note>
<note><rest/><duration>1</duration><type>eighth</type></note>
<note><pitch><step>G</step><octave>4</octave></pitch><duration>1</duration><type>eighth</type><beam number="2">end</beam></note>
<note><pitch><step>A</step><octave>4</octave></pitch><duration>1</duration><type>eighth</type><beam number="1">end</beam><staff>2</staff></note>
</measure></part></score-partwise>"#;

#[test]
fn beam_groups_follow_primary_beams() {
    let score = soloband::musicxml::parse_musicxml(BEAMED).unwrap();
    let m = &score.parts[0].measures[0];
    let all = find_beam_groups(m, None);
    assert_eq!(all, vec![vec![0, 2, 3], vec![4, 7]]);
    // on staff 1 the second group never closes
    let first_staff = find_beam_groups(m, Some(1));
    assert_eq!(first_staff, vec![vec![0, 2, 3]]);
    // on staff 2 the lone "end" closes a group of one note, which is dropped
    assert!(find_beam_groups(m, Some(2)).is_empty());
}
