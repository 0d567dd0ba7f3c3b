use soloband::accompaniment::{
    accompaniment_tracks, instrument_channel, instrument_program, instrument_track_name, Instrument,
};
use soloband::midi::MidiOptions;
use soloband::musicxml::parse_musicxml;
use soloband::timing::{measure_length, precompute_measure_states, sixty_fourths_per_beat, MeasureState, TempoMark};

const PICKUP: &str = r#"<?xml version="1.0"?>
<score-partwise version="3.1">
<part-list><score-part id="P1"><part-name>P</part-name></score-part></part-list>
<part id="P1">
<measure number="0" implicit="yes">
<attributes><divisions>2</divisions><time><beats>3</beats><beat-type>4</beat-type></time></attributes>
<direction><direction-type><metronome><beat-unit>quarter</beat-unit><beat-unit-dot/><per-minute>80</per-minute></metronome></direction-type></direction>
<note><pitch><step>G</step><octave>4</octave></pitch><duration>2</duration></note>
</measure>
<measure number="1">
<direction><sound tempo="96.5"/></direction>
<note><pitch><step>C</step><octave>5</octave></pitch><duration>6</duration></note>
</measure>
<measure number="2" implicit="yes">
<note><pitch><step>C</step><octave>5</octave></pitch><duration>6</duration></note>
</measure>
</part>
</score-partwise>"#;

#[test]
fn states_follow_score_order() {
    let score = parse_musicxml(PICKUP).unwrap();
    let states = precompute_measure_states(&score.parts[0]);
    assert_eq!(states.len(), 3);
    let first = MeasureState {
        tempo: TempoMark::Metronome { per_minute: 80, beat_sixty_fourths: 24 },
        beats: 3,
        beat_type: 4,
        divisions: 2,
    };
    assert_eq!(states[0], first);
    let later = MeasureState { tempo: TempoMark::Sound { milli_bpm: 96500 }, ..first };
    assert_eq!(states[1], later);
    assert_eq!(states[2], later);
}

#[test]
fn pickup_lasts_as_its_notes() {
    let score = parse_musicxml(PICKUP).unwrap();
    let part = &score.parts[0];
    let states = precompute_measure_states(part);
    // a quarter note in a 3/4 pickup
    assert_eq!(measure_length(&part.measures[0], states[0]), Some(2));
    // not a pickup
    assert_eq!(measure_length(&part.measures[1], states[1]), None);
    // an implicit measure full to its time signature counts as nominal
    assert_eq!(measure_length(&part.measures[2], states[2]), None);
}

#[test]
fn beat_units_in_sixty_fourths() {
    assert_eq!(sixty_fourths_per_beat("whole", false), 64);
    assert_eq!(sixty_fourths_per_beat("half", false), 32);
    assert_eq!(sixty_fourths_per_beat("quarter", false), 16);
    assert_eq!(sixty_fourths_per_beat("eighth", false), 8);
    assert_eq!(sixty_fourths_per_beat("16th", false), 4);
    assert_eq!(sixty_fourths_per_beat("32nd", false), 2);
    assert_eq!(sixty_fourths_per_beat("half", true), 48);
    assert_eq!(sixty_fourths_per_beat("quarter", true), 24);
    assert_eq!(sixty_fourths_per_beat("eighth", true), 12);
    assert_eq!(sixty_fourths_per_beat("unknown", false), 16);
}

#[test]
fn accompaniment_track_plan() {
    let mut o = MidiOptions::default();
    assert_eq!(accompaniment_tracks(&o), vec![Instrument::Metronome]);
    o.include_metronome = false;
    o.include_drums = true;
    o.include_piano = true;
    o.include_strings = true;
    o.include_bass = true;
    assert_eq!(
        accompaniment_tracks(&o),
        vec![Instrument::Piano, Instrument::Bass, Instrument::Strings, Instrument::Drums]
    );
    assert_eq!(instrument_channel(Instrument::Bass), 2);
    assert_eq!(instrument_channel(Instrument::Drums), 9);
    assert_eq!(instrument_program(Instrument::Strings), Some(48));
    assert_eq!(instrument_program(Instrument::Metronome), None);
    assert_eq!(instrument_track_name(Instrument::Piano), "Piano");
}

#[test]
fn state_of_a_measure_ignores_later_measures() {
    let longer = PICKUP.replace(
        "</part>",
        "<measure number=\"3\"><attributes><divisions>8</divisions></attributes><direction><sound tempo=\"60\"/></direction></measure></part>",
    );
    let a = precompute_measure_states(&parse_musicxml(PICKUP).unwrap().parts[0]);
    let b = precompute_measure_states(&parse_musicxml(&longer).unwrap().parts[0]);
    assert_eq!(b.len(), 4);
    assert_eq!(&b[0..3], &a[..]);
    assert_eq!(b[3].divisions, 8);
    assert_eq!(b[3].tempo, TempoMark::Sound { milli_bpm: 60000 });
}

fn quarters_per_beat(unit: &str, dotted: bool) -> f64 {
    sixty_fourths_per_beat(unit, dotted) as f64 / 16.0
}

#[test]
fn quarters_per_beat_standard_units() {
    assert_eq!(quarters_per_beat("whole", false), 4.0);
    assert_eq!(quarters_per_beat("half", false), 2.0);
    assert_eq!(quarters_per_beat("quarter", false), 1.0);
    assert_eq!(quarters_per_beat("eighth", false), 0.5);
    assert_eq!(quarters_per_beat("16th", false), 0.25);
    assert_eq!(quarters_per_beat("32nd", false), 0.125);
}

#[test]
fn quarters_per_beat_dotted_units() {
    assert_eq!(quarters_per_beat("half", true), 3.0);
    assert_eq!(quarters_per_beat("quarter", true), 1.5);
    assert_eq!(quarters_per_beat("eighth", true), 0.75);
}

#[test]
fn half_note_60_bpm_yields_120_quarter_bpm() {
    let bpm = 60.0 * quarters_per_beat("half", false);
    assert!((bpm - 120.0).abs() < 0.001, "half=60 should yield 120 quarter/min, got {}", bpm);
}

#[test]
fn dotted_quarter_80_bpm_yields_120_quarter_bpm() {
    let bpm = 80.0 * quarters_per_beat("quarter", true);
    assert!((bpm - 120.0).abs() < 0.001, "dotted quarter=80 should yield 120 quarter/min, got {}", bpm);
}

#[test]
fn eighth_240_bpm_yields_120_quarter_bpm() {
    let bpm = 240.0 * quarters_per_beat("eighth", false);
    assert!((bpm - 120.0).abs() < 0.001, "eighth=240 should yield 120 quarter/min, got {}", bpm);
}

#[test]
fn unknown_beat_unit_defaults_to_quarter() {
    assert_eq!(quarters_per_beat("unknown", false), 1.0);
}
