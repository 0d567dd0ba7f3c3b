use soloband::midi::Energy;
use soloband::options::{extract_json_string_value, parse_melody_tracks_filter, parse_midi_options_from_json_str, parse_parts_filter};

#[test]
fn parse_midi_options_include_metronome_and_spaced_json() {
    let opts = parse_midi_options_from_json_str(r#"{"include_metronome": false}"#);
    assert!(!opts.include_metronome);
    let opts = parse_midi_options_from_json_str(r#"{"include_strings": true}"#);
    assert!(opts.include_strings);
    let opts = parse_midi_options_from_json_str(r#"{"include_drums": true}"#);
    assert!(opts.include_drums);
}

#[test]
fn parse_parts_filter_valid() {
    assert_eq!(parse_parts_filter(Some("1")), Some(vec![1]));
    assert_eq!(parse_parts_filter(Some("1,3,5")), Some(vec![1, 3, 5]));
    assert_eq!(parse_parts_filter(Some(" 2 , 4 ")), Some(vec![2, 4]));
}

#[test]
fn parse_parts_filter_empty_or_invalid() {
    assert_eq!(parse_parts_filter(None), None);
    assert_eq!(parse_parts_filter(Some("")), None);
    assert_eq!(parse_parts_filter(Some("   ")), None);
    assert_eq!(parse_parts_filter(Some("1,abc,3")), None);
}

#[test]
fn parse_midi_options_defaults() {
    let opts = parse_midi_options_from_json_str("{}");
    assert!(opts.include_melody);
    assert!(!opts.include_piano);
    assert_eq!(opts.transpose, 0);
}

#[test]
fn parse_midi_options_from_json_include_flags() {
    let opts = parse_midi_options_from_json_str(
        r#"{"include_melody":false,"include_piano":true,"include_bass":true}"#,
    );
    assert!(!opts.include_melody);
    assert!(opts.include_piano);
    assert!(opts.include_bass);
}

#[test]
fn parse_midi_options_transpose() {
    let opts = parse_midi_options_from_json_str(r#"{"transpose":2}"#);
    assert_eq!(opts.transpose, 2);
    let opts = parse_midi_options_from_json_str(r#"{"transpose": -3}"#);
    assert_eq!(opts.transpose, -3);
}

#[test]
fn parse_midi_options_melody_tracks() {
    let opts = parse_midi_options_from_json_str(r#"{}"#);
    assert_eq!(opts.melody_tracks, None);
    let opts = parse_midi_options_from_json_str(r#"{"melody_tracks":""}"#);
    assert_eq!(opts.melody_tracks, Some(vec![]));
    let opts = parse_midi_options_from_json_str(r#"{"melody_tracks":"2"}"#);
    assert_eq!(opts.melody_tracks, Some(vec![2]));
    let opts = parse_midi_options_from_json_str(r#"{"melody_tracks": "1,3"}"#);
    assert_eq!(opts.melody_tracks, Some(vec![1, 3]));
    // Legacy single-voice form
    let opts = parse_midi_options_from_json_str(r#"{"melody_track":2}"#);
    assert_eq!(opts.melody_tracks, Some(vec![2]));
    let opts = parse_midi_options_from_json_str(r#"{"melody_track":0}"#);
    assert_eq!(opts.melody_tracks, None);
}

#[test]
fn parse_melody_tracks_filter_valid() {
    assert_eq!(parse_melody_tracks_filter(Some("1")), Some(vec![1]));
    assert_eq!(parse_melody_tracks_filter(Some("1,3")), Some(vec![1, 3]));
    assert_eq!(parse_melody_tracks_filter(Some(" 2 , 4 ")), Some(vec![2, 4]));
    assert_eq!(parse_melody_tracks_filter(Some("1,1,2")), Some(vec![1, 2]));
}

#[test]
fn parse_melody_tracks_filter_empty_or_invalid() {
    assert_eq!(parse_melody_tracks_filter(None), None);
    assert_eq!(parse_melody_tracks_filter(Some("")), None);
    assert_eq!(parse_melody_tracks_filter(Some("   ")), None);
    assert_eq!(parse_melody_tracks_filter(Some("1,abc")), None);
    assert_eq!(parse_melody_tracks_filter(Some("0")), None);
}

#[test]
fn parse_midi_options_energy() {
    let opts = parse_midi_options_from_json_str(r#"{"energy":"soft"}"#);
    assert!(matches!(opts.energy, Energy::Soft));
    let opts = parse_midi_options_from_json_str(r#"{"energy": "strong"}"#);
    assert!(matches!(opts.energy, Energy::Strong));
}

#[test]
fn parse_midi_options_strong_wins_and_blank_pieces_skipped() {
    let opts = parse_midi_options_from_json_str(r#"{"energy":"soft","energy":"strong"}"#);
    assert!(matches!(opts.energy, Energy::Strong));
    let opts = parse_midi_options_from_json_str(r#"{"energy":"loud"}"#);
    assert!(matches!(opts.energy, Energy::Medium));
    assert_eq!(parse_melody_tracks_filter(Some("2,,3")), Some(vec![2, 3]));
    assert_eq!(parse_melody_tracks_filter(Some(",")), None);
    let opts = parse_midi_options_from_json_str(r#"{"transpose":"x"}"#);
    assert_eq!(opts.transpose, 0);
    assert_eq!(opts.melody_channel, 0);
}

#[test]
fn extract_json_string_value_forms() {
    let j: Vec<char> = r#"{"a":"x1","b": "y2","c":"open"#.chars().collect();
    assert_eq!(extract_json_string_value(&j, "a"), Some("x1".chars().collect()));
    assert_eq!(extract_json_string_value(&j, "b"), Some("y2".chars().collect()));
    assert_eq!(extract_json_string_value(&j, "c"), None);
    assert_eq!(extract_json_string_value(&j, "d"), None);
}

#[test]
fn parts_filter_gives_back_joined_numbers() {
    let v: Vec<usize> = vec![2, 2, 10, 0, usize::MAX];
    let joined = v.iter().map(|n| n.to_string()).collect::<Vec<_>>().join(",");
    assert_eq!(parse_parts_filter(Some(&joined)), Some(v));
    assert_eq!(parse_parts_filter(Some("7")), Some(vec![7]));
}
