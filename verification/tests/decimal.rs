use soloband::decimal::{parse_hundredths, parse_thousandths, parse_whole_saturating};
use soloband::mxl::parse_bytes;

fn chars(s: &str) -> Vec<char> {
    s.chars().collect()
}

#[test]
fn thousandths_read_every_float_form() {
    assert_eq!(parse_thousandths(&chars("72")), Some(72000));
    assert_eq!(parse_thousandths(&chars("+96.25")), Some(96250));
    assert_eq!(parse_thousandths(&chars("1e2")), Some(100000));
    assert_eq!(parse_thousandths(&chars("2.5E-1")), Some(250));
    assert_eq!(parse_thousandths(&chars("1.e+1")), Some(10000));
    assert_eq!(parse_thousandths(&chars(".5")), Some(500));
    assert_eq!(parse_thousandths(&chars("5.")), Some(5000));
    assert_eq!(parse_thousandths(&chars("-0.0004")), Some(0));
    assert_eq!(parse_thousandths(&chars("1e-400")), Some(0));
    assert_eq!(parse_thousandths(&chars("0e999999999999999999999999999999999")), Some(0));
    assert_eq!(parse_thousandths(&chars("1e400")), Some(i64::MAX));
    assert_eq!(parse_thousandths(&chars("-1e999999999999999999999999999999999")), Some(i64::MIN));
    assert_eq!(parse_thousandths(&chars("inf")), Some(i64::MAX));
    assert_eq!(parse_thousandths(&chars("-Infinity")), Some(i64::MIN));
    assert_eq!(parse_thousandths(&chars("NaN")), None);
    assert_eq!(parse_thousandths(&chars("1e")), None);
    assert_eq!(parse_thousandths(&chars("e5")), None);
    assert_eq!(parse_thousandths(&chars(".")), None);
    assert_eq!(parse_thousandths(&chars("1.2.3")), None);
    assert_eq!(parse_thousandths(&chars(" 1")), None);
}

#[test]
fn hundredths_and_whole_numbers() {
    assert_eq!(parse_hundredths(&chars("-0.5")), Some(-50));
    assert_eq!(parse_hundredths(&chars("1e0")), Some(100));
    assert_eq!(parse_hundredths(&chars("-1E0")), Some(-100));
    assert_eq!(parse_hundredths(&chars("1e10")), Some(i32::MAX));
    assert_eq!(parse_hundredths(&chars("nan")), None);
    assert_eq!(parse_whole_saturating(&chars("1.9e1")), Some(19));
    assert_eq!(parse_whole_saturating(&chars("-96.9")), Some(-96));
    assert_eq!(parse_whole_saturating(&chars("NaN")), Some(0));
    assert_eq!(parse_whole_saturating(&chars("-inf")), Some(i32::MIN));
    assert_eq!(parse_whole_saturating(&chars("3e9")), Some(i32::MAX));
    assert_eq!(parse_whole_saturating(&chars("abc")), None);
}

#[test]
fn sound_tempo_in_exponent_form_is_kept() {
    let xml = r#"<?xml version="1.0"?><score-partwise version="3.1"><part-list><score-part id="P1"><part-name>P</part-name></score-part></part-list><part id="P1"><measure number="1"><sound tempo="1e2"/><note><rest/><duration>4</duration></note></measure></part></score-partwise>"#;
    let score = parse_bytes(xml.as_bytes(), Some("xml")).unwrap();
    let m = &score.parts[0].measures[0];
    assert_eq!(m.directions.len(), 1);
    assert_eq!(m.directions[0].sound_tempo_milli, Some(100000));
}
