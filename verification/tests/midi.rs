use soloband::melody::{extract_melody, MelodyEvent};
use soloband::midi::{
    build_smf, encode_track, melody_tracks, midi_program_byte, program_change, staff_channel,
    write_vlq, MidiEvent, TICKS_PER_QUARTER,
};
use soloband::mxl::parse_bytes;
use soloband::unroller::unroll;

#[test]
fn vlq_encoding() {
    let mut buf = Vec::new();
    write_vlq(&mut buf, 0);
    assert_eq!(buf, vec![0x00]);

    buf.clear();
    write_vlq(&mut buf, 127);
    assert_eq!(buf, vec![0x7F]);

    buf.clear();
    write_vlq(&mut buf, 128);
    assert_eq!(buf, vec![0x81, 0x00]);

    buf.clear();
    write_vlq(&mut buf, 480);
    assert_eq!(buf, vec![0x83, 0x60]);
}

#[test]
fn smf_header_valid() {
    let track = encode_track(&[], "Test");
    let smf = build_smf(&[track]);
    assert_eq!(&smf[0..4], b"MThd");
    assert_eq!(&smf[8..10], &1u16.to_be_bytes()); // format 1
    assert_eq!(&smf[12..14], &TICKS_PER_QUARTER.to_be_bytes());
    // Should contain MTrk
    assert!(smf.windows(4).any(|w| w == b"MTrk"));
}

#[test]
fn vlq_largest_values() {
    let mut buf = Vec::new();
    write_vlq(&mut buf, 0x0FFF_FFFF);
    assert_eq!(buf, vec![0xFF, 0xFF, 0xFF, 0x7F]);
    buf.clear();
    write_vlq(&mut buf, u32::MAX);
    assert_eq!(buf, vec![0x8F, 0xFF, 0xFF, 0xFF, 0x7F]);
}

#[test]
fn encode_track_sorts_events_and_uses_delta_times() {
    let events = vec![
        MidiEvent { tick: 480, bytes: vec![0x80, 60, 0] },
        MidiEvent { tick: 0, bytes: vec![0x90, 60, 80] },
    ];
    let t = encode_track(&events, "M");
    assert_eq!(
        t,
        vec![
            0x00, 0xFF, 0x03, 0x01, b'M', // name
            0x00, 0x90, 60, 80, // note on at 0
            0x83, 0x60, 0x80, 60, 0, // note off 480 ticks later
            0x00, 0xFF, 0x2F, 0x00, // end of track
        ]
    );
    let smf = build_smf(&[t.clone(), t.clone()]);
    assert_eq!(&smf[10..12], &2u16.to_be_bytes());
    assert_eq!(&smf[14..18], b"MTrk");
    assert_eq!(&smf[18..22], &(t.len() as u32).to_be_bytes());
    assert_eq!(smf.len(), 14 + 2 * (8 + t.len()));
}

#[test]
fn staff_channels_and_programs() {
    assert_eq!(staff_channel(0, 4), 4);
    assert_eq!(staff_channel(1, 0), 7);
    assert_eq!(staff_channel(2, 0), 8);
    assert_eq!(staff_channel(3, 0), 11);
    assert_eq!(staff_channel(4, 0), 12);
    assert_eq!(staff_channel(10, 0), 15);
    assert_eq!(midi_program_byte(None), 0);
    assert_eq!(midi_program_byte(Some(-5)), 0);
    assert_eq!(midi_program_byte(Some(200)), 127);
    assert_eq!(midi_program_byte(Some(40)), 40);
    let pc = program_change(7, 40);
    assert_eq!(pc.tick, 0);
    assert_eq!(pc.bytes, vec![0xC7, 40]);
}

#[test]
fn melody_track_layout() {
    let one = melody_tracks(1, 0);
    assert_eq!(one.len(), 1);
    assert_eq!((one[0].channel, one[0].staff, one[0].name), (0, None, "Melody"));
    let two = melody_tracks(2, 0);
    assert_eq!(two.len(), 2);
    assert_eq!((two[0].channel, two[0].staff, two[0].name), (0, Some(1), "Treble"));
    assert_eq!((two[1].channel, two[1].staff, two[1].name), (7, Some(2), "Bass"));
}

const TWO_STAFF_XML: &str = r#"<?xml version="1.0"?><score-partwise version="3.1"><part-list><score-part id="P1"><part-name>Piano</part-name></score-part></part-list><part id="P1"><measure number="1"><attributes><divisions>2</divisions><staves>2</staves></attributes><note><pitch><step>C</step><octave>5</octave></pitch><duration>2</duration><voice>1</voice><staff>1</staff><tie type="start"/></note><note><pitch><step>C</step><octave>5</octave></pitch><duration>2</duration><voice>1</voice><staff>1</staff><tie type="stop"/></note><note><pitch><step>C</step><octave>3</octave></pitch><duration>2</duration><voice>5</voice><staff>2</staff></note><note><chord/><pitch><step>G</step><octave>3</octave></pitch><duration>2</duration><voice>5</voice><staff>2</staff></note><note><rest/><duration>2</duration><voice>5</voice><staff>2</staff></note><note><pitch><step>E</step><octave>3</octave></pitch><duration>4</duration><voice>6</voice><staff>2</staff></note></measure></part></score-partwise>"#;

fn ev(onset: i128, duration: i32, note: u8, on: bool) -> MelodyEvent {
    MelodyEvent { position: 0, onset, duration, note, on }
}

#[test]
fn melody_events_per_voice_ties_and_chords() {
    let score = parse_bytes(TWO_STAFF_XML.as_bytes(), Some("xml")).unwrap();
    let unrolled = unroll(&score, 0);
    let treble = extract_melody(&score.parts[0], &unrolled, Some(1));
    // A tied C5: one note-on at 0, one note-off at the end of the tie
    assert_eq!(treble, vec![ev(0, 2, 72, true), ev(2, 2, 72, false)]);
    let bass = extract_melody(&score.parts[0], &unrolled, Some(2));
    assert_eq!(
        bass,
        vec![
            ev(0, 2, 48, true),
            ev(0, 2, 48, false),
            // chord member sounds with the previous note of its voice
            ev(0, 2, 55, true),
            ev(0, 2, 55, false),
            // another voice keeps its own clock: it starts at 0
            ev(0, 4, 52, true),
            ev(0, 4, 52, false),
        ]
    );
    let all = extract_melody(&score.parts[0], &unrolled, None);
    assert_eq!(all.len(), 8);
}

fn read_vlq(data: &[u8], pos: &mut usize) -> u32 {
    let mut v: u32 = 0;
    loop {
        let b = data[*pos];
        *pos += 1;
        v = (v << 7) | (b & 0x7F) as u32;
        if b < 0x80 {
            return v;
        }
    }
}

#[test]
fn delta_times_read_back_as_ticks() {
    let events = vec![
        MidiEvent { tick: 10, bytes: vec![0x90, 60, 80] },
        MidiEvent { tick: 0, bytes: vec![0x90, 64, 80] },
        MidiEvent { tick: 10, bytes: vec![0x80, 64, 0] },
        MidiEvent { tick: 20000, bytes: vec![0x80, 60, 0] },
    ];
    let data = encode_track(&events, "T");
    let mut pos = 0;
    assert_eq!(&data[0..3], &[0x00, 0xFF, 0x03]);
    pos += 3;
    let name_len = read_vlq(&data, &mut pos) as usize;
    pos += name_len;
    let mut tick: u32 = 0;
    let mut read: Vec<(u32, Vec<u8>)> = Vec::new();
    for _ in 0..events.len() {
        tick += read_vlq(&data, &mut pos);
        read.push((tick, data[pos..pos + 3].to_vec()));
        pos += 3;
    }
    assert_eq!(
        read,
        vec![
            (0, vec![0x90, 64, 80]),
            (10, vec![0x90, 60, 80]),
            (10, vec![0x80, 64, 0]),
            (20000, vec![0x80, 60, 0]),
        ]
    );
    assert_eq!(&data[pos..], &[0x00, 0xFF, 0x2F, 0x00]);
}

#[test]
fn first_eight_staves_get_distinct_channels() {
    let chans: Vec<u8> = (0..8).map(|s| staff_channel(s, 0)).collect();
    assert_eq!(chans, vec![0, 7, 8, 11, 12, 13, 14, 15]);
    // a ninth staff shares the last channel
    assert_eq!(staff_channel(8, 0), 15);
}
