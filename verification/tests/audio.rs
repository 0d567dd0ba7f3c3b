use soloband::wav::build_wav;

#[test]
fn test_build_wav_header() {
    // 1 second of silence, mono, 16-bit, 44100 Hz
    let pcm = vec![0u8; 44100 * 2]; // 1 second mono 16-bit
    let wav = build_wav(44100, 1, 16, &pcm).unwrap();

    // Check RIFF header
    assert_eq!(&wav[0..4], b"RIFF");
    assert_eq!(&wav[8..12], b"WAVE");
    assert_eq!(&wav[12..16], b"fmt ");
    assert_eq!(&wav[36..40], b"data");

    // Total size = 44 header + PCM data
    assert_eq!(wav.len(), 44 + pcm.len());
}

#[test]
fn wav_header_fields_stereo() {
    let pcm = vec![1u8, 2, 3, 4];
    let wav = build_wav(44100, 2, 16, &pcm).unwrap();
    assert_eq!(&wav[4..8], &40u32.to_le_bytes()); // 36 + data
    assert_eq!(&wav[16..20], &16u32.to_le_bytes());
    assert_eq!(&wav[20..22], &1u16.to_le_bytes());
    assert_eq!(&wav[22..24], &2u16.to_le_bytes());
    assert_eq!(&wav[24..28], &44100u32.to_le_bytes());
    assert_eq!(&wav[28..32], &(44100u32 * 4).to_le_bytes()); // byte rate
    assert_eq!(&wav[32..34], &4u16.to_le_bytes()); // block align
    assert_eq!(&wav[34..36], &16u16.to_le_bytes());
    assert_eq!(&wav[40..44], &4u32.to_le_bytes());
    assert_eq!(&wav[44..], &[1u8, 2, 3, 4]);
}
