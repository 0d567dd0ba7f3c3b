//! WAV container for rendered PCM audio: the 44-byte RIFF header
//! (format chunk for integer PCM) followed by the sample data.
use vstd::prelude::*;
use vstd::string::StringExecFns;
use crate::text::{decimal_digits, digit_char};

verus! {

/// Little-endian bytes of a `u16`.
pub open spec fn le16(x: u16) -> Seq<u8> {
    seq![(x % 256) as u8, (x / 256) as u8]
}

/// Little-endian bytes of a `u32`.
pub open spec fn le32(x: u32) -> Seq<u8> {
    seq![
        (x % 256) as u8,
        ((x / 256) % 256) as u8,
        ((x / 65536) % 256) as u8,
        (x / 16777216) as u8,
    ]
}

/// Bytes of the four-letter chunk tags.
pub open spec fn tag_riff() -> Seq<u8> {
    seq![82u8, 73u8, 70u8, 70u8]
}

pub open spec fn tag_wave() -> Seq<u8> {
    seq![87u8, 65u8, 86u8, 69u8]
}

pub open spec fn tag_fmt() -> Seq<u8> {
    seq![102u8, 109u8, 116u8, 32u8]
}

pub open spec fn tag_data() -> Seq<u8> {
    seq![100u8, 97u8, 116u8, 97u8]
}

/// The complete WAV file of PCM data: RIFF header, "fmt " chunk (PCM
/// format 1, channel count, sample rate, byte rate, block alignment,
/// sample size) and "data" chunk.
pub open spec fn wav_file(sample_rate: u32, channels: u16, bits: u16, pcm: Seq<u8>) -> Seq<u8> {
    let byte_rate = (sample_rate * channels * bits / 8) as u32;
    let block_align = (channels * bits / 8) as u16;
    tag_riff() + le32((36 + pcm.len()) as u32) + tag_wave() + tag_fmt() + le32(16) + le16(1) + le16(
        channels,
    ) + le32(sample_rate) + le32(byte_rate) + le16(block_align) + le16(bits) + tag_data() + le32(
        pcm.len() as u32,
    ) + pcm
}

fn push_le16(out: &mut Vec<u8>, x: u16)
    ensures
        final(out)@ == old(out)@ + le16(x),
{
    out.push((x % 256) as u8);
    out.push((x / 256) as u8);
    assert(final(out)@ =~= old(out)@ + le16(x));
}

fn push_le32(out: &mut Vec<u8>, x: u32)
    ensures
        final(out)@ == old(out)@ + le32(x),
{
    out.push((x % 256) as u8);
    out.push(((x / 256) % 256) as u8);
    out.push(((x / 65536) % 256) as u8);
    out.push((x / 16777216) as u8);
    assert(final(out)@ =~= old(out)@ + le32(x));
}

fn push_tag(out: &mut Vec<u8>, a: u8, b: u8, c: u8, d: u8)
    ensures
        final(out)@ == old(out)@ + seq![a, b, c, d],
{
    out.push(a);
    out.push(b);
    out.push(c);
    out.push(d);
    assert(final(out)@ =~= old(out)@ + seq![a, b, c, d]);
}

fn push_decimal_str(out: &mut String, n: usize)
    ensures
        final(out)@ == old(out)@ + decimal_digits(n as nat),
    decreases n,
{
    if n >= 10 {
        push_decimal_str(out, n / 10);
    }
    let d = n % 10;
    let s: &str = if d == 0 {
        "0"
    } else if d == 1 {
        "1"
    } else if d == 2 {
        "2"
    } else if d == 3 {
        "3"
    } else if d == 4 {
        "4"
    } else if d == 5 {
        "5"
    } else if d == 6 {
        "6"
    } else if d == 7 {
        "7"
    } else if d == 8 {
        "8"
    } else {
        "9"
    };
    proof {
        reveal_strlit("0");
        reveal_strlit("1");
        reveal_strlit("2");
        reveal_strlit("3");
        reveal_strlit("4");
        reveal_strlit("5");
        reveal_strlit("6");
        reveal_strlit("7");
        reveal_strlit("8");
        reveal_strlit("9");
        assert(s@ == seq![digit_char(d as nat)]);
    }
    out.append(s);
    assert(decimal_digits(n as nat) == (if n < 10 {
        seq![digit_char(n as nat)]
    } else {
        decimal_digits((n / 10) as nat).push(digit_char((n % 10) as nat))
    }));
    assert(final(out)@ =~= old(out)@ + decimal_digits(n as nat));
}

/// A complete WAV file around raw PCM data. Fails when the data does not
/// fit the format's 32-bit sizes: "PCM data too large for WAV format: N
/// bytes (max ~4 GB)" when its length exceeds `u32::MAX`, "WAV file size
/// overflow" when 36 more bytes would.
pub fn build_wav(sample_rate: u32, channels: u16, bits_per_sample: u16, pcm_data: &[u8]) -> (r: Result<
    Vec<u8>,
    String,
>)
    requires
        sample_rate * channels <= u32::MAX,
        sample_rate * channels * bits_per_sample <= u32::MAX,
        channels * bits_per_sample <= u16::MAX,
    ensures
        match r {
            Ok(w) => pcm_data@.len() + 36 <= u32::MAX && w@ == wav_file(
                sample_rate,
                channels,
                bits_per_sample,
                pcm_data@,
            ),
            Err(e) => if pcm_data@.len() > u32::MAX {
                e@ == "PCM data too large for WAV format: "@ + decimal_digits(pcm_data@.len())
                    + " bytes (max ~4 GB)"@
            } else {
                pcm_data@.len() + 36 > u32::MAX && e@ == "WAV file size overflow"@
            },
        },
{
    let sc: u32 = sample_rate * channels as u32;
    let byte_rate: u32 = sc * bits_per_sample as u32 / 8;
    let block_align: u16 = channels * bits_per_sample / 8;
    let len = pcm_data.len();
    if len > 0xffff_ffff {
        let mut e = String::from_str("PCM data too large for WAV format: ");
        push_decimal_str(&mut e, len);
        e.append(" bytes (max ~4 GB)");
        return Err(e);
    }
    let data_size: u32 = len as u32;
    if data_size > 0xffff_ffff - 36 {
        return Err(String::from_str("WAV file size overflow"));
    }
    let file_size: u32 = 36 + data_size;
    let mut wav: Vec<u8> = Vec::new();
    push_tag(&mut wav, 82, 73, 70, 70);
    push_le32(&mut wav, file_size);
    push_tag(&mut wav, 87, 65, 86, 69);
    push_tag(&mut wav, 102, 109, 116, 32);
    push_le32(&mut wav, 16);
    push_le16(&mut wav, 1);
    push_le16(&mut wav, channels);
    push_le32(&mut wav, sample_rate);
    push_le32(&mut wav, byte_rate);
    push_le16(&mut wav, block_align);
    push_le16(&mut wav, bits_per_sample);
    push_tag(&mut wav, 100, 97, 116, 97);
    push_le32(&mut wav, data_size);
    let ghost head = wav@;
    let mut k: usize = 0;
    while k < len
        invariant
            k <= len == pcm_data@.len(),
            wav@ == head + pcm_data@.take(k as int),
        decreases len - k,
    {
        wav.push(pcm_data[k]);
        k = k + 1;
        assert(wav@ =~= head + pcm_data@.take(k as int));
    }
    assert(pcm_data@.take(len as int) == pcm_data@);
    assert(wav@ =~= wav_file(sample_rate, channels, bits_per_sample, pcm_data@));
    Ok(wav)
}

/// A WAV file is its 44-byte header followed by the PCM data, with the
/// chunk tags at their fixed offsets.
pub proof fn lemma_wav_layout(sample_rate: u32, channels: u16, bits: u16, pcm: Seq<u8>)
    ensures
        ({
            let w = wav_file(sample_rate, channels, bits, pcm);
            &&& w.len() == 44 + pcm.len()
            &&& w.subrange(0, 4) == tag_riff()
            &&& w.subrange(8, 12) == tag_wave()
            &&& w.subrange(12, 16) == tag_fmt()
            &&& w.subrange(36, 40) == tag_data()
            &&& w.skip(44) == pcm
        }),
{
    let w = wav_file(sample_rate, channels, bits, pcm);
    assert(w.subrange(0, 4) =~= tag_riff());
    assert(w.subrange(8, 12) =~= tag_wave());
    assert(w.subrange(12, 16) =~= tag_fmt());
    assert(w.subrange(36, 40) =~= tag_data());
    assert(w.skip(44) =~= pcm);
}

} // verus!
