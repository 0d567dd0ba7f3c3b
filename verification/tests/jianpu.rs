use soloband::jianpu::{
    accidental_symbol, build_scale, concert_key_fifths_for_degree, find_scale_degree,
    key_label_text, key_root_semitone, mode_intervals, pitch_to_jianpu, semitone_to_degree_acc,
};
use soloband::model::Pitch;
use soloband::notation::octave_shift_amount;

#[test]
fn octave_shift_amount_standard_sizes() {
    assert_eq!(octave_shift_amount(8), 1);
    assert_eq!(octave_shift_amount(15), 2);
    assert_eq!(octave_shift_amount(22), 3);
}

#[test]
fn octave_shift_amount_fallback() {
    assert!(octave_shift_amount(0) >= 1);
    assert_eq!(octave_shift_amount(16), 2); // (16+1)/8 = 2
    assert_eq!(octave_shift_amount(-8), 1);
}

#[test]
fn jianpu_concert_key_fifths_no_transpose() {
    assert_eq!(concert_key_fifths_for_degree(0, 0), 0);
    assert_eq!(concert_key_fifths_for_degree(1, 0), 1);
    assert_eq!(concert_key_fifths_for_degree(-3, 0), -3);
}

#[test]
fn jianpu_concert_key_fifths_with_transpose() {
    // C major displayed, transpose +2 (D): concert key still C, display key D
    assert_eq!(concert_key_fifths_for_degree(2, 2), 0);
    // G major (1), transpose -2: concert A, display G
    assert_eq!(concert_key_fifths_for_degree(1, -2), 3);
}

fn pitch(step: &str, octave: i32, alter: Option<f64>) -> Pitch {
    Pitch {
        step: step.to_string(),
        octave,
        alter_cents: alter.map(|a| (a * 100.0).round() as i32),
    }
}

#[test]
fn jianpu_pitch_to_degree_c_major() {
    // C4 in C major -> 1, no accidental
    let (deg, dots, acc) = pitch_to_jianpu(&pitch("C", 4, None), 0, None);
    assert_eq!(deg, 1);
    assert_eq!(dots, 0);
    assert!(acc.is_none());
}

#[test]
fn jianpu_pitch_to_degree_g_major() {
    // G4 in G major (fifths=1) -> 1
    let (deg, _, _) = pitch_to_jianpu(&pitch("G", 4, None), 1, None);
    assert_eq!(deg, 1);
    // D5 in G major -> 5
    let (deg5, _, _) = pitch_to_jianpu(&pitch("D", 5, None), 1, None);
    assert_eq!(deg5, 5);
}

#[test]
fn jianpu_pitch_to_degree_accidentals() {
    // F# in C major -> 4^
    let (deg, _, acc) = pitch_to_jianpu(&pitch("F", 4, Some(1.0)), 0, None);
    assert_eq!(deg, 4);
    assert_eq!(acc, Some("^"));
    // Bb in C major -> 6^ (A^) per major-only semitone_to_degree_acc
    let (deg6, _, acc6) = pitch_to_jianpu(&pitch("B", 4, Some(-1.0)), 0, None);
    assert_eq!(deg6, 6);
    assert_eq!(acc6, Some("^"));
}

#[test]
fn jianpu_pitch_octave_dots() {
    // Middle C (C4) -> 0 octave offset from reference
    let (_, dots, _) = pitch_to_jianpu(&pitch("C", 4, None), 0, None);
    assert_eq!(dots, 0);
    // C5 one octave above -> 1 dot above
    let (_, dots5, _) = pitch_to_jianpu(&pitch("C", 5, None), 0, None);
    assert_eq!(dots5, 1);
    // C3 one octave below -> 1 dot below
    let (_, dots3, _) = pitch_to_jianpu(&pitch("C", 3, None), 0, None);
    assert_eq!(dots3, -1);
}

#[test]
fn jianpu_dots_clamped_and_negative_midi() {
    let (_, dots, _) = pitch_to_jianpu(&pitch("C", 9, None), 0, None);
    assert_eq!(dots, 2);
    let (_, low, _) = pitch_to_jianpu(&pitch("C", 0, None), 0, None);
    assert_eq!(low, -2);
    // MIDI -12 (C, octave -2): division rounds toward zero, (-1) - 5 -> clamped -2
    let (deg, neg, _) = pitch_to_jianpu(&pitch("C", -2, None), 0, None);
    assert_eq!(deg, 1);
    assert_eq!(neg, -2);
}

#[test]
fn jianpu_modes_and_scale_degrees() {
    assert_eq!(mode_intervals(None), [0, 2, 4, 5, 7, 9, 11]);
    assert_eq!(mode_intervals(Some("Minor")), [0, 2, 3, 5, 7, 8, 10]);
    assert_eq!(mode_intervals(Some("dorian")), [0, 2, 3, 5, 7, 9, 10]);
    assert_eq!(mode_intervals(Some("MIXOLYDIAN")), [0, 2, 4, 5, 7, 9, 10]);
    assert_eq!(mode_intervals(Some("lydian")), [0, 2, 4, 5, 7, 9, 11]);
    // A minor: A B C D E F G
    let a_minor = build_scale(9, Some("minor"));
    assert_eq!(a_minor, [9, 11, 0, 2, 4, 5, 7]);
    // G# in A minor lies a semitone from both A and G: the first degree
    // found (A, lowered) wins the tie
    assert_eq!(find_scale_degree(8, &a_minor), (0, -1));
    assert_eq!(find_scale_degree(0, &a_minor), (2, 0));
    // With a mode, the tonic still comes from the key signature: 0 fifths
    // and "minor" read as C minor (C D Eb F G Ab Bb)
    let (deg, _, acc) = pitch_to_jianpu(&pitch("E", 4, None), 0, Some("minor"));
    assert_eq!(deg, 3);
    assert_eq!(acc, Some("#"));
    let (deg6, _, acc6) = pitch_to_jianpu(&pitch("G", 4, Some(1.0)), 0, Some("minor"));
    assert_eq!(deg6, 6);
    assert!(acc6.is_none());
}

#[test]
fn jianpu_symbols_and_labels() {
    assert_eq!(accidental_symbol(0), "");
    assert_eq!(accidental_symbol(1), "#");
    assert_eq!(accidental_symbol(-1), "b");
    assert_eq!(accidental_symbol(2), "##");
    assert_eq!(accidental_symbol(-2), "bb");
    assert_eq!(accidental_symbol(5), "?");
    assert_eq!(semitone_to_degree_acc(11), (7, Some("b")));
    assert_eq!(semitone_to_degree_acc(-1), (7, Some("b")));
    assert_eq!(semitone_to_degree_acc(7), (5, None));
    assert_eq!(key_root_semitone(-1), 5);
    assert_eq!(key_root_semitone(3), 9);
    assert_eq!(key_label_text(0, None), "1 = C");
    assert_eq!(key_label_text(1, None), "1 = G");
    assert_eq!(key_label_text(0, Some("Minor")), "1 = Cm");
    assert_eq!(key_label_text(-2, Some("dorian")), "1 = Bb (Dorian)");
    assert_eq!(key_label_text(6, Some("mixolydian")), "1 = F# (Mixolydian)");
}
