use soloband::model::{Harmony, HarmonyRoot, Score};
use soloband::musicxml::{parse_musicxml, score_from_xml};
use soloband::mxl::{extract_musicxml_from_mxl, parse_bytes, parse_mxl};
use soloband::top_layer::{
    measure_has_chord, measure_has_multiple_voices, simplify_measure_for_jianpu,
    simplify_score_for_jianpu,
};
use soloband::transpose::transpose_score;
use soloband::unroller::unroll;
use soloband::xml::XmlElement;

/// Minimal valid MusicXML as bytes for parsing tests.
const MINIMAL_XML: &str = r#"<?xml version="1.0"?><score-partwise version="3.1"><part-list><score-part id="P1"><part-name>Part</part-name></score-part></part-list><part id="P1"><measure number="1"><attributes><divisions>1</divisions><key><fifths>0</fifths></key><time><beats>4</beats><beat-type>4</beat-type></time></attributes><note><pitch><step>C</step><octave>4</octave></pitch><duration>1</duration><type>quarter</type></note></measure></part></score-partwise>"#;

#[test]
fn transpose_score_zero_is_noop() {
    let mut score = parse_bytes(MINIMAL_XML.as_bytes(), Some("xml")).unwrap();
    let before = score.parts[0].measures[0].notes[0].pitch.as_ref().unwrap().step.clone();
    transpose_score(&mut score, 0);
    let after = score.parts[0].measures[0].notes[0].pitch.as_ref().unwrap().step.clone();
    assert_eq!(before, "C");
    assert_eq!(after, "C");
}

#[test]
fn transpose_score_up_shifts_pitch_and_key() {
    let mut score = parse_bytes(MINIMAL_XML.as_bytes(), Some("xml")).unwrap();
    let key_before = score.parts[0].measures[0]
        .attributes
        .as_ref()
        .and_then(|a| a.key.as_ref())
        .map(|k| k.fifths);
    let pitch_before = score.parts[0].measures[0].notes[0]
        .pitch
        .as_ref()
        .map(|p| (p.step.clone(), p.octave));
    transpose_score(&mut score, 2);
    let key_after = score.parts[0].measures[0]
        .attributes
        .as_ref()
        .and_then(|a| a.key.as_ref())
        .map(|k| k.fifths);
    let pitch_after = score.parts[0].measures[0].notes[0]
        .pitch
        .as_ref()
        .map(|p| (p.step.clone(), p.octave));
    assert_eq!(pitch_before, Some(("C".to_string(), 4)));
    assert_eq!(pitch_after, Some(("D".to_string(), 4)));
    assert_ne!(key_before, key_after);
}

#[test]
fn transpose_score_with_harmony_transposes_root() {
    let mut score = parse_bytes(MINIMAL_XML.as_bytes(), Some("xml")).unwrap();
    score.parts[0].measures[0].harmonies.push(Harmony {
        root: HarmonyRoot { step: "C".to_string(), alter_cents: None },
        kind: "major".to_string(),
        bass: Some(HarmonyRoot { step: "E".to_string(), alter_cents: None }),
        offset_divisions: 0,
    });
    transpose_score(&mut score, -2); // C -> Bb (or A#), E -> D
    let harm = &score.parts[0].measures[0].harmonies[0];
    // Root was C (0), now 10 (Bb or A#); bass was E (4), now 2 (D)
    assert_ne!(harm.root.step, "C");
    let bass = harm.bass.as_ref().unwrap();
    assert_eq!(bass.step, "D");
    assert!(bass.alter_cents.is_none() || bass.alter_cents == Some(0));
}

#[test]
fn parse_bytes_musicxml_extension() {
    let result = parse_bytes(MINIMAL_XML.as_bytes(), Some("musicxml"));
    assert!(result.is_ok());
    assert_eq!(result.unwrap().measure_count(), 1);
}

#[test]
fn parse_bytes_invalid_utf8_xml_returns_err() {
    let bad = b"\xff\xfe"; // invalid UTF-8
    let result = parse_bytes(bad, Some("xml"));
    assert!(result.is_err());
    assert!(result.unwrap_err().contains("UTF-8"));
}

#[test]
fn parse_bytes_mxl_extension_invalid_data_returns_err() {
    let result = parse_bytes(b"not a zip", Some("mxl"));
    assert!(result.is_err());
}

#[test]
fn parse_bytes_xml_extension() {
    let minimal = r#"<?xml version="1.0"?><score-partwise version="3.1"><part-list><score-part id="P1"><part-name>Part</part-name></score-part></part-list><part id="P1"><measure number="1"><attributes><divisions>1</divisions><key><fifths>0</fifths></key><time><beats>4</beats><beat-type>4</beat-type></time></attributes><note><pitch><step>C</step><octave>4</octave></pitch><duration>1</duration><type>quarter</type></note></measure></part></score-partwise>"#;
    let result = parse_bytes(minimal.as_bytes(), Some("xml"));
    assert!(result.is_ok());
    let score = result.unwrap();
    assert_eq!(score.measure_count(), 1);
}

#[test]
fn parse_bytes_auto_detect_xml() {
    let minimal = r#"<?xml version="1.0"?><score-partwise version="3.1"><part-list><score-part id="P1"><part-name>P</part-name></score-part></part-list><part id="P1"><measure number="1"><attributes><divisions>1</divisions><key><fifths>0</fifths></key><time><beats>4</beats><beat-type>4</beat-type></time></attributes><note><rest/><duration>1</duration><type>quarter</type></note></measure></part></score-partwise>"#;
    let result = parse_bytes(minimal.as_bytes(), None);
    assert!(result.is_ok());
}

#[test]
fn parse_errors_are_reported() {
    let err = parse_musicxml("<score-timewise/>").unwrap_err();
    assert_eq!(err, "Unsupported root element: 'score-timewise'. Only 'score-partwise' is supported.");
    let err = parse_musicxml("<score-partwise>").unwrap_err();
    assert!(err.starts_with("XML parse error: "));
    let err = parse_bytes(b"not a zip", None).unwrap_err();
    assert!(err.starts_with("Failed to open MXL archive: "));
    assert!(extract_musicxml_from_mxl(b"PK").is_err());
    assert!(parse_mxl(b"").is_err());
    let root = XmlElement { name: "opus".to_string(), attributes: vec![], text: None, children: vec![] };
    assert!(score_from_xml(&root).is_err());
}

const FULL_XML: &str = r#"<?xml version="1.0" encoding="UTF-8"?>
<!DOCTYPE score-partwise PUBLIC "-//Recordare//DTD MusicXML 3.1 Partwise//EN" "http://www.musicxml.org/dtds/partwise.dtd">
<score-partwise version="3.1">
  <work><work-title> Work Title </work-title></work>
  <identification>
    <creator type="composer">Creator Composer</creator>
    <creator type="arranger">Arr</creator>
    <encoding><software>Writer 1</software><software>Writer 2</software></encoding>
  </identification>
  <credit><credit-type>title</credit-type><credit-words>Line one</credit-words><credit-words> </credit-words><credit-words>Line two</credit-words></credit>
  <credit><credit-type>subtitle</credit-type></credit>
  <part-list>
    <score-part id="P1"><part-name> Voice </part-name><part-abbreviation>V.</part-abbreviation>
      <midi-instrument id="P1-I1"><midi-channel>1</midi-channel><midi-program>53</midi-program></midi-instrument></score-part>
    <score-part id="P2"><part-name>Bass</part-name></score-part>
  </part-list>
  <part id="P2"><measure number="1"/></part>
  <part id="P1">
    <measure number="1" implicit="yes">
      <print new-system="yes"/>
      <attributes><divisions>4</divisions><key><fifths>-2</fifths><mode>minor</mode></key><time><beats>6</beats><beat-type>8</beat-type></time><staves>2</staves><clef number="2"><sign>F</sign><line>4</line></clef><transpose><diatonic>-1</diatonic><chromatic>-2</chromatic></transpose></attributes>
      <direction placement="above"><direction-type><metronome><beat-unit>quarter</beat-unit><beat-unit-dot/><per-minute>96.7</per-minute></metronome></direction-type><sound tempo="145.05"/></direction>
      <direction><direction-type><words font-weight="bold" font-style="italic">D.S. al Fine</words></direction-type><sound dalsegno="seg1"/></direction>
      <direction><direction-type><dynamics/></direction-type></direction>
      <harmony><root><root-step>B</root-step><root-alter>-1</root-alter></root><kind>minor-seventh</kind><bass><bass-step>F</bass-step></bass></harmony>
      <note default-x="10"><pitch><step>B</step><alter>-1</alter><octave>4</octave></pitch><duration>4</duration><voice>1</voice><type>quarter</type><stem>up</stem><beam number="1">begin</beam><tie type="start"/><notations><slur type="start" number="2" placement="above"/></notations><lyric number="1"><syllabic>begin</syllabic><text>La</text></lyric><lyric><text> </text></lyric></note>
      <note><chord/><pitch><step>D</step><octave>5</octave></pitch><duration>4</duration></note>
      <harmony><root><root-step>F</root-step></root></harmony>
      <note><grace slash="yes"/><pitch><step>C</step><octave>5</octave></pitch></note>
      <note><rest measure="yes"/><duration>2</duration><staff>2</staff></note>
      <sound tempo="90"/>
      <barline location="left"><repeat direction="forward"/></barline>
      <barline><ending number="1, 2" type="stop">1.</ending></barline>
    </measure>
  </part>
</score-partwise>"#;

#[test]
fn musicxml_reader_fields() {
    let score = parse_musicxml(FULL_XML).unwrap();
    assert_eq!(score.version.as_deref(), Some("3.1"));
    assert_eq!(score.title.as_deref(), Some("Line one\nLine two"));
    assert_eq!(score.subtitle.as_deref(), Some(""));
    assert_eq!(score.composer.as_deref(), Some("Creator Composer"));
    assert_eq!(score.arranger.as_deref(), Some("Arr"));
    assert_eq!(score.software.as_deref(), Some("Writer 2"));
    assert_eq!(score.parts.len(), 2);
    let p1 = &score.parts[0];
    assert_eq!((p1.id.as_str(), p1.name.as_str()), ("P1", "Voice"));
    assert_eq!(p1.abbreviation.as_deref(), Some("V."));
    assert_eq!((p1.midi_channel, p1.midi_program), (Some(1), Some(53)));
    assert_eq!(score.parts[1].measures.len(), 1);
    let m = &p1.measures[0];
    assert_eq!(m.number, 1);
    assert!(m.implicit);
    assert!(m.new_system);
    assert!(!m.new_page);
    let a = m.attributes.as_ref().unwrap();
    assert_eq!(a.divisions, Some(4));
    let key = a.key.as_ref().unwrap();
    assert_eq!((key.fifths, key.mode.as_deref()), (-2, Some("minor")));
    let t = a.time.as_ref().unwrap();
    assert_eq!((t.beats, t.beat_type), (6, 8));
    assert_eq!(a.staves, Some(2));
    assert_eq!(a.clefs.len(), 1);
    assert_eq!((a.clefs[0].number, a.clefs[0].sign.as_str(), a.clefs[0].line), (2, "F", 4));
    let tr = a.transpose.as_ref().unwrap();
    assert_eq!((tr.diatonic, tr.chromatic, tr.octave_change), (-1, -2, None));

    assert_eq!(m.directions.len(), 3);
    let d0 = &m.directions[0];
    assert_eq!(d0.placement.as_deref(), Some("above"));
    assert_eq!(d0.sound_tempo_milli, Some(145050));
    let mm = d0.metronome.as_ref().unwrap();
    assert_eq!((mm.beat_unit.as_str(), mm.per_minute, mm.dotted), ("quarter", 96, true));
    let d1 = &m.directions[1];
    assert_eq!(d1.words.as_deref(), Some("D.S. al Fine"));
    assert_eq!(d1.words_font_style.as_deref(), Some("bold italic"));
    assert!(d1.sound_dalsegno);
    assert!(!d1.sound_dacapo);
    let d2 = &m.directions[2];
    assert_eq!(d2.sound_tempo_milli, Some(90000));
    assert_eq!(d2.placement.as_deref(), Some("above"));

    assert_eq!(m.harmonies.len(), 2);
    let h0 = &m.harmonies[0];
    assert_eq!((h0.root.step.as_str(), h0.root.alter_cents), ("B", Some(-100)));
    assert_eq!(h0.kind, "minor-seventh");
    assert_eq!(h0.bass.as_ref().map(|b| b.step.as_str()), Some("F"));
    assert_eq!(h0.offset_divisions, 0);
    let h1 = &m.harmonies[1];
    assert_eq!((h1.root.step.as_str(), h1.kind.as_str()), ("F", "major"));
    // after one quarter (the chord member does not advance)
    assert_eq!(h1.offset_divisions, 4);

    assert_eq!(m.notes.len(), 4);
    let n0 = &m.notes[0];
    let p = n0.pitch.as_ref().unwrap();
    assert_eq!((p.step.as_str(), p.octave, p.alter_cents), ("B", 4, Some(-100)));
    assert_eq!((n0.duration, n0.voice, n0.staff), (4, Some(1), None));
    assert_eq!((n0.note_type.as_deref(), n0.stem.as_deref()), (Some("quarter"), Some("up")));
    assert_eq!(n0.beams.len(), 1);
    assert_eq!((n0.beams[0].number, n0.beams[0].beam_type.as_str()), (1, "begin"));
    assert!(n0.tie_start && !n0.tie_stop);
    assert_eq!(n0.slurs.len(), 1);
    assert_eq!(
        (n0.slurs[0].slur_type.as_str(), n0.slurs[0].number, n0.slurs[0].placement.as_deref()),
        ("start", 2, Some("above"))
    );
    // the blank lyric is left out
    assert_eq!(n0.lyrics.len(), 1);
    assert_eq!(
        (n0.lyrics[0].number, n0.lyrics[0].text.as_str(), n0.lyrics[0].syllabic.as_deref()),
        (1, "La", Some("begin"))
    );
    assert!(m.notes[1].chord);
    assert!(m.notes[2].grace && m.notes[2].grace_slash);
    assert!(m.notes[3].rest && m.notes[3].measure_rest);
    assert_eq!(m.barlines.len(), 2);
    assert_eq!(m.barlines[0].location, "left");
    assert_eq!(m.barlines[0].repeat.as_ref().map(|r| r.direction.as_str()), Some("forward"));
    assert_eq!(m.barlines[1].location, "right");
    let e = m.barlines[1].ending.as_ref().unwrap();
    assert_eq!((e.number.as_str(), e.ending_type.as_str(), e.text.as_deref()), ("1, 2", "stop", Some("1.")));
}

#[test]
fn time_signatures_distinct_in_order() {
    let score = parse_musicxml(FULL_XML).unwrap();
    let sigs = score.time_signatures();
    assert_eq!(sigs.len(), 1);
    assert_eq!((sigs[0].beats, sigs[0].beat_type), (6, 8));
    assert_eq!(Score::new().time_signatures().len(), 0);
}

const REPEAT_XML: &str = r#"<?xml version="1.0"?><score-partwise><part-list><score-part id="P1"><part-name>P</part-name></score-part></part-list><part id="P1"><measure number="1"><note><rest/><duration>4</duration></note></measure><measure number="2"><barline location="left"><repeat direction="forward"/></barline><note><rest/><duration>4</duration></note></measure><measure number="3"><barline location="left"><ending number="1" type="start"/></barline><note><rest/><duration>4</duration></note><barline location="right"><ending number="1" type="stop"/><repeat direction="backward"/></barline></measure><measure number="4"><barline location="left"><ending number="2" type="start"/></barline><note><rest/><duration>4</duration></note><barline location="right"><ending number="2" type="discontinue"/></barline></measure><measure number="5"><note><rest/><duration>4</duration></note></measure></part></score-partwise>"#;

#[test]
fn unroll_repeat_with_voltas() {
    let score = parse_musicxml(REPEAT_XML).unwrap();
    let order: Vec<usize> = unroll(&score, 0).iter().map(|u| u.original_index).collect();
    assert_eq!(order, vec![0, 1, 2, 1, 3, 4]);
    // a part index past the end gives nothing
    assert!(unroll(&score, 3).is_empty());
}

#[test]
fn top_layer_voices_chords_and_jianpu() {
    let score = parse_musicxml(FULL_XML).unwrap();
    let m = score.parts[0].measures[0].clone();
    assert!(measure_has_chord(&m));
    // voice 1 on staff 1 and a rest: only one sounding voice
    assert!(!measure_has_multiple_voices(&m));
    let kept = simplify_measure_for_jianpu(m, 1);
    // staff 1, voice 1, no chord member: the B-flat; the grace note before
    // a dropped rest on staff 2 is dropped too
    assert_eq!(kept.len(), 1);
    assert_eq!(kept[0].pitch.as_ref().unwrap().step, "B");
    let simplified = simplify_score_for_jianpu(score, Some(&[1]));
    assert_eq!(simplified.parts[0].measures[0].notes.len(), 1);
    assert_eq!(simplified.parts[1].measures.len(), 1);
}

fn zip_of(entries: &[(&str, &str)]) -> Vec<u8> {
    let mut buf = std::io::Cursor::new(Vec::new());
    {
        let mut w = zip::ZipWriter::new(&mut buf);
        let opts = zip::write::SimpleFileOptions::default().compression_method(zip::CompressionMethod::Deflated);
        for (name, text) in entries {
            w.start_file(*name, opts).unwrap();
            std::io::Write::write_all(&mut w, text.as_bytes()).unwrap();
        }
        w.finish().unwrap();
    }
    buf.into_inner()
}

const CONTAINER: &str = r#"<?xml version="1.0"?><container><rootfiles><rootfile full-path="music/score.xml" media-type="application/vnd.recordare.musicxml+xml"/></rootfiles></container>"#;

#[test]
fn mxl_reads_root_file_named_by_container() {
    let data = zip_of(&[("META-INF/container.xml", CONTAINER), ("other.xml", "<x/>"), ("music/score.xml", MINIMAL_XML)]);
    assert_eq!(extract_musicxml_from_mxl(&data).unwrap(), MINIMAL_XML);
    let score = parse_mxl(&data).unwrap();
    assert_eq!(score.parts.len(), 1);
    let score = parse_bytes(&data, None).unwrap();
    assert_eq!(score.parts[0].measures.len(), 1);
}

#[test]
fn mxl_without_container_takes_first_musicxml_entry() {
    let data = zip_of(&[("META-INF/other.xml", "<x/>"), ("readme.txt", "hi"), ("song.musicxml", MINIMAL_XML)]);
    assert_eq!(extract_musicxml_from_mxl(&data).unwrap(), MINIMAL_XML);
    let none = zip_of(&[("a.txt", "1"), ("META-INF/b.xml", "2")]);
    assert_eq!(
        extract_musicxml_from_mxl(&none),
        Err("No MusicXML file found in archive. Files: [\"a.txt\", \"META-INF/b.xml\"]".to_string())
    );
}

#[test]
fn mxl_container_errors() {
    let bad = zip_of(&[("META-INF/container.xml", "<container>"), ("s.xml", MINIMAL_XML)]);
    assert!(extract_musicxml_from_mxl(&bad).unwrap_err().starts_with("Failed to parse container.xml: "));
    let empty = zip_of(&[("META-INF/container.xml", "<container/>")]);
    assert_eq!(extract_musicxml_from_mxl(&empty), Err("No rootfile found in container.xml".to_string()));
    let missing = zip_of(&[("META-INF/container.xml", CONTAINER)]);
    assert!(extract_musicxml_from_mxl(&missing)
        .unwrap_err()
        .starts_with("Root file 'music/score.xml' not found in archive: "));
}

const DA_CAPO_XML: &str = r#"<?xml version="1.0"?><score-partwise><part-list><score-part id="P1"><part-name>P</part-name></score-part></part-list><part id="P1"><measure number="1"><note><rest/><duration>4</duration></note></measure><measure number="2"><direction><direction-type><words>Fine</words></direction-type></direction><note><rest/><duration>4</duration></note></measure><measure number="3"><direction><direction-type><words>D.C. al Fine</words></direction-type><sound dacapo="yes"/></direction><note><rest/><duration>4</duration></note></measure></part></score-partwise>"#;

const DAL_SEGNO_XML: &str = r#"<?xml version="1.0"?><score-partwise><part-list><score-part id="P1"><part-name>P</part-name></score-part></part-list><part id="P1"><measure number="1"><note><rest/><duration>4</duration></note></measure><measure number="2"><direction><direction-type><segno/></direction-type></direction><note><rest/><duration>4</duration></note></measure><measure number="3"><direction><direction-type><words>D.S.</words></direction-type><sound dalsegno="segno"/></direction><note><rest/><duration>4</duration></note></measure><measure number="4"><note><rest/><duration>4</duration></note></measure></part></score-partwise>"#;

#[test]
fn unroll_da_capo_al_fine_and_dal_segno() {
    let score = parse_musicxml(DA_CAPO_XML).unwrap();
    let order: Vec<usize> = unroll(&score, 0).iter().map(|u| u.original_index).collect();
    // D.C. returns to the first measure; after the jump, Fine ends the piece
    assert_eq!(order, vec![0, 1, 2, 0, 1]);
    let score = parse_musicxml(DAL_SEGNO_XML).unwrap();
    let order: Vec<usize> = unroll(&score, 0).iter().map(|u| u.original_index).collect();
    // D.S. returns to the segno; the jump is taken once
    assert_eq!(order, vec![0, 1, 2, 1, 2, 3]);
}
