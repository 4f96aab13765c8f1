use wavicle::bitstream::BitReader;
use wavicle::decode::decode_stream;
use wavicle::encode::{encode_int, EncodeParams};
use wavicle::entropy::{wp_exp2s, Medians, WordsDecoder};
use wavicle::error::{Error, Scope};
use wavicle::float::{float_values, float_values_nowvx, FloatInfo};

fn params(channels: u32, sample_rate: u32, bits_per_sample: u32) -> EncodeParams {
    EncodeParams { channels, sample_rate, bits_per_sample }
}

fn le32(b: &[u8], o: usize) -> u32 {
    u32::from(b[o]) | u32::from(b[o + 1]) << 8 | u32::from(b[o + 2]) << 16 | u32::from(b[o + 3]) << 24
}

fn roundtrip(channels: u32, rate: u32, samples: &[i32]) {
    let bytes = encode_int(params(channels, rate, 16), samples).expect("encode");
    let d = decode_stream(&bytes).expect("decode");
    assert_eq!(d.samples, samples.to_vec());
    assert_eq!(d.channels, channels);
    assert_eq!(d.sample_rate, rate);
    assert_eq!(d.bits_per_sample, 16);
    assert!(!d.is_float);
}

#[test]
fn exp2s_matches_reference_anchor_points() {
    assert_eq!(wp_exp2s(0), 0);
    assert_eq!(wp_exp2s(0x100), 1);
    assert_eq!(wp_exp2s(-0x100), -1);
}

#[test]
fn exp2s_negation_mirrors() {
    for log in [1, 0x100, 0x234, 0x900, 0xa00, 0xfff] {
        assert_eq!(wp_exp2s(-log), -wp_exp2s(log));
    }
    assert_eq!(wp_exp2s(0x200), 2);
    assert_eq!(wp_exp2s(0xa00), 512);
}

#[test]
fn roundtrip_mono_small() {
    roundtrip(1, 44100, &[1, -2, 3, -4, 5, 100, -100, 0, 7]);
}

#[test]
fn roundtrip_stereo_mixed() {
    let mut s = Vec::new();
    for i in 0..500i32 {
        let l = ((i * 37) % 2001) - 1000;
        let r = ((i * 91) % 30001) - 15000;
        s.push(l);
        s.push(r);
    }
    roundtrip(2, 48000, &s);
}

#[test]
fn roundtrip_silence_uses_zero_runs() {
    let mut s = vec![0i32; 3000];
    s[1500] = 5;
    s[2999] = -3;
    roundtrip(1, 22050, &s);
    roundtrip(2, 8000, &vec![0i32; 4000]);
}

#[test]
fn roundtrip_extreme_values() {
    roundtrip(1, 192000, &[i32::MAX, i32::MIN, 0, -1, 1, i32::MIN, i32::MAX]);
    roundtrip(2, 6000, &[32767, -32768, -32768, 32767, 0, 0, 12345, -12345]);
}

#[test]
fn roundtrip_sine_like_stereo() {
    let mut s = Vec::new();
    let mut a: i32 = 0;
    let mut da: i32 = 300;
    for _ in 0..4096 {
        a += da;
        if a > 20000 || a < -20000 {
            da = -da;
        }
        s.push(a);
        s.push(a / 2 - 7);
    }
    roundtrip(2, 44100, &s);
}

#[test]
fn encoded_header_fields() {
    let samples = [1, -2, 3];
    let bytes = encode_int(params(1, 44100, 16), &samples).unwrap();
    assert_eq!(&bytes[0..4], b"wvpk");
    assert_eq!(le32(&bytes, 4) as usize, bytes.len() - 8);
    assert_eq!(bytes[8], 0x10);
    assert_eq!(bytes[9], 0x04);
    assert_eq!(le32(&bytes, 12), 3);
    assert_eq!(le32(&bytes, 16), 0);
    assert_eq!(le32(&bytes, 20), 3);
    // 16-bit (1), mono (4), initial and final block, magnitude 2, rate index 9.
    assert_eq!(le32(&bytes, 24), 1 | 4 | 0x800 | 0x1000 | (2 << 18) | (9 << 23));
    let mut crc: u32 = 0xffff_ffff;
    for s in samples {
        crc = crc.wrapping_mul(3).wrapping_add(s as u32);
    }
    assert_eq!(le32(&bytes, 28), crc);
    // The first sub-block declares one pass: term 2, delta 2.
    assert_eq!(&bytes[32..36], &[0x02 | 0x40, 1, 0x47, 0]);
    assert_eq!(bytes.len() % 2, 0);
}

#[test]
fn encoded_stereo_checksum() {
    let samples = [10, -20, 30, 40];
    let bytes = encode_int(params(2, 44100, 16), &samples).unwrap();
    let mut crc: u32 = 0xffff_ffff;
    for f in samples.chunks(2) {
        crc = crc
            .wrapping_add(crc << 3)
            .wrapping_add((f[0] as u32) << 1)
            .wrapping_add(f[0] as u32)
            .wrapping_add(f[1] as u32);
    }
    assert_eq!(le32(&bytes, 28), crc);
    assert_eq!(le32(&bytes, 24) & 4, 0);
}

#[test]
fn encode_rejects_three_channels() {
    assert_eq!(
        encode_int(params(3, 44100, 16), &[0, 0, 0]),
        Err(Error::OutOfScope(Scope::MoreThanTwoChannels))
    );
}

#[test]
fn encode_rejects_odd_bit_depth() {
    assert_eq!(
        encode_int(params(1, 44100, 12), &[0]),
        Err(Error::NotYetImplemented("bit depth must be 8, 16, 24, or 32"))
    );
}

#[test]
fn encode_rejects_nonstandard_rate() {
    assert_eq!(
        encode_int(params(1, 44101, 16), &[0]),
        Err(Error::NotYetImplemented("non-standard sample rate"))
    );
}

#[test]
fn encode_rejects_partial_frame() {
    assert_eq!(
        encode_int(params(2, 44100, 16), &[1, 2, 3]),
        Err(Error::Truncated { need: 2, have: 3 })
    );
}

#[test]
fn encode_rejects_too_many_frames() {
    let s = vec![0i32; 131073];
    assert_eq!(
        encode_int(params(1, 44100, 16), &s),
        Err(Error::NotYetImplemented("multi-block encode (over 131072 frames)"))
    );
    assert!(encode_int(params(1, 44100, 16), &s[..131072]).is_ok());
}

#[test]
fn decode_rejects_empty_stream() {
    assert_eq!(decode_stream(&[]).unwrap_err(), Error::Truncated { need: 32, have: 0 });
}

#[test]
fn decode_of_encoded_empty_input_has_no_samples() {
    let bytes = encode_int(params(1, 44100, 16), &[]).unwrap();
    assert_eq!(decode_stream(&bytes).unwrap_err(), Error::Truncated { need: 32, have: 0 });
}

#[test]
fn decode_rejects_bad_magic() {
    let mut bytes = encode_int(params(1, 44100, 16), &[1, 2, 3]).unwrap();
    bytes[0] = b'x';
    assert_eq!(decode_stream(&bytes).unwrap_err(), Error::BadMagic);
}

#[test]
fn decode_rejects_short_header() {
    let bytes = encode_int(params(1, 44100, 16), &[1, 2, 3]).unwrap();
    assert_eq!(decode_stream(&bytes[..20]).unwrap_err(), Error::Truncated { need: 32, have: 20 });
}

#[test]
fn decode_rejects_truncated_block() {
    let bytes = encode_int(params(1, 44100, 16), &[1, 2, 3]).unwrap();
    let n = bytes.len();
    assert_eq!(
        decode_stream(&bytes[..n - 2]).unwrap_err(),
        Error::Truncated { need: n, have: n - 2 }
    );
}

#[test]
fn decode_rejects_bad_version() {
    let mut bytes = encode_int(params(1, 44100, 16), &[1, 2, 3]).unwrap();
    bytes[8] = 0x11;
    assert_eq!(decode_stream(&bytes).unwrap_err(), Error::UnsupportedVersion(0x411));
}

#[test]
fn decode_reports_checksum_mismatch() {
    let mut bytes = encode_int(params(1, 44100, 16), &[1, 2, 3]).unwrap();
    let stored = le32(&bytes, 28);
    bytes[28] ^= 1;
    match decode_stream(&bytes).unwrap_err() {
        Error::CrcMismatch { stored: s, computed } => {
            assert_eq!(s, stored ^ 1);
            assert_eq!(computed, stored);
        }
        e => panic!("unexpected {:?}", e),
    }
}

#[test]
fn decode_reports_over_magnitude() {
    let mut bytes = encode_int(params(1, 44100, 16), &[1000, -1000, 999]).unwrap();
    // Lower the magnitude field from 10 to 2: the samples exceed 2^2 + 2.
    let flags = le32(&bytes, 24);
    let lowered = (flags & !(0x1f << 18)) | (2 << 18);
    bytes[24..28].copy_from_slice(&lowered.to_le_bytes());
    assert_eq!(decode_stream(&bytes).unwrap_err(), Error::OverMagnitude);
}

#[test]
fn decode_defers_float_and_wide_integers() {
    let bytes = encode_int(params(1, 44100, 16), &[1, 2, 3]).unwrap();
    let flags = le32(&bytes, 24);
    let mut f = bytes.clone();
    f[24..28].copy_from_slice(&(flags | 0x80).to_le_bytes());
    assert_eq!(decode_stream(&f).unwrap_err(), Error::NotYetImplemented("32-bit float decode (M3)"));
    let mut w = bytes.clone();
    w[24..28].copy_from_slice(&(flags | 0x100).to_le_bytes());
    assert_eq!(decode_stream(&w).unwrap_err(), Error::NotYetImplemented("extended integer decode (M2)"));
    let b24 = encode_int(params(1, 44100, 24), &[1, 2, 3]).unwrap();
    assert_eq!(decode_stream(&b24).unwrap_err(), Error::NotYetImplemented("non-16-bit integer decode (M2)"));
}

#[test]
fn decode_rejects_out_of_scope_flags() {
    let bytes = encode_int(params(1, 44100, 16), &[1, 2, 3]).unwrap();
    let flags = le32(&bytes, 24);
    let mut h = bytes.clone();
    h[24..28].copy_from_slice(&(flags | 8).to_le_bytes());
    assert_eq!(decode_stream(&h).unwrap_err(), Error::OutOfScope(Scope::Hybrid));
    let mut d = bytes.clone();
    d[24..28].copy_from_slice(&(flags | 0x8000_0000).to_le_bytes());
    assert_eq!(decode_stream(&d).unwrap_err(), Error::OutOfScope(Scope::Dsd));
    let mut m = bytes.clone();
    m[24..28].copy_from_slice(&(flags & !0x1000).to_le_bytes());
    assert_eq!(decode_stream(&m).unwrap_err(), Error::OutOfScope(Scope::MoreThanTwoChannels));
}

#[test]
fn decode_nonstandard_rate() {
    let bytes = encode_int(params(1, 44100, 16), &[1, 2, 3]).unwrap();
    let flags = le32(&bytes, 24);
    let mut r = bytes.clone();
    r[24..28].copy_from_slice(&(flags | (0xf << 23)).to_le_bytes());
    assert_eq!(decode_stream(&r).unwrap_err(), Error::NotYetImplemented("non-standard sample rate"));
}

#[test]
fn decode_concatenated_blocks_appends() {
    let a = encode_int(params(2, 44100, 16), &[1, 2, 3, 4]).unwrap();
    let b = encode_int(params(2, 44100, 16), &[5, 6]).unwrap();
    let mut s = a.clone();
    s.extend_from_slice(&b);
    let d = decode_stream(&s).unwrap();
    assert_eq!(d.samples, vec![1, 2, 3, 4, 5, 6]);
    assert_eq!(d.channels, 2);
}

#[test]
fn decode_false_stereo_duplicates() {
    // A mono block whose flags say false stereo decodes to two channels.
    let bytes = encode_int(params(1, 44100, 16), &[4, -5, 6]).unwrap();
    let flags = le32(&bytes, 24);
    let mut f = bytes.clone();
    f[24..28].copy_from_slice(&((flags & !4) | 0x4000_0000).to_le_bytes());
    let d = decode_stream(&f).unwrap();
    assert_eq!(d.samples, vec![4, 4, -5, -5, 6, 6]);
    assert_eq!(d.channels, 2);
}

#[test]
fn entropy_vars_length_is_checked() {
    assert!(matches!(WordsDecoder::from_entropy_vars(&[0; 5], true), Err(Error::BadSubBlock { id: 5 })));
    assert!(matches!(WordsDecoder::from_entropy_vars(&[0; 6], false), Err(Error::BadSubBlock { id: 5 })));
    let w = WordsDecoder::from_entropy_vars(&[0x00, 0x01, 0x00, 0x02, 0x00, 0x0a], true).unwrap();
    assert_eq!(w.c[0].median, [1, 2, 512]);
    assert_eq!(w.c[1].median, [0, 0, 0]);
    let s = WordsDecoder::from_entropy_vars(&[0; 12], false).unwrap();
    assert_eq!(s.c[1].median, [0, 0, 0]);
}

#[test]
fn medians_default_to_zero() {
    assert_eq!(Medians::default().median, [0, 0, 0]);
}

#[test]
fn float_info_parse() {
    let i = FloatInfo::parse(&[1, 2, 3, 4]).unwrap();
    assert_eq!((i.flags, i.shift, i.max_exp, i.norm_exp), (1, 2, 3, 4));
    assert!(matches!(FloatInfo::parse(&[1, 2, 3]), Err(Error::BadSubBlock { id: 8 })));
}

#[test]
fn float_nowvx_rebuilds_ieee_bits() {
    let info = FloatInfo { flags: 0, shift: 0, max_exp: 127, norm_exp: 0 };
    let mut v = [0x80_0000, -0x80_0000, 0x40_0000, 0, 0x100_0000];
    float_values_nowvx(&mut v, info);
    assert_eq!(f32::from_bits(v[0] as u32), 1.0);
    assert_eq!(f32::from_bits(v[1] as u32), -1.0);
    assert_eq!(f32::from_bits(v[2] as u32), 0.5);
    assert_eq!(v[3], 0);
    assert_eq!(f32::from_bits(v[4] as u32), 2.0);
}

#[test]
fn float_values_checksum() {
    let info = FloatInfo { flags: 0, shift: 0, max_exp: 127, norm_exp: 0 };
    let mut v = [0x80_0000, 0];
    let data: [u8; 0] = [];
    let mut xbits = BitReader::new(&data);
    let crc = float_values(&mut v, info, 0, 0, &mut xbits, 0xffff_ffff);
    assert_eq!(v, [0x3f80_0000, 0]);
    let mut expect: u32 = 0xffff_ffff;
    expect = expect.wrapping_mul(27).wrapping_add(127 * 3);
    expect = expect.wrapping_mul(27);
    assert_eq!(crc, expect);
    assert!(!xbits.errored());
}

#[test]
fn float_values_reads_zero_payloads() {
    // A zero with zeros-sent and a set first bit reads a 23-bit mantissa and
    // a sign (max_exp below 25: no exponent bits).
    let info = FloatInfo { flags: 8, shift: 0, max_exp: 20, norm_exp: 0 };
    let mut v = [0];
    // Bits, least-significant first: 1 (payload present), mantissa 5, sign 1.
    let data: [u8; 4] = [0x0b, 0x00, 0x00, 0x01];
    let mut xbits = BitReader::new(&data);
    float_values(&mut v, info, 0, 0, &mut xbits, 0);
    assert_eq!(v[0] as u32, 0x8000_0005);
}

#[test]
fn decode_rejects_bad_block_size() {
    let bytes = encode_int(params(1, 44100, 16), &[1, 2, 3]).unwrap();
    let mut odd = bytes.clone();
    odd[4] ^= 1;
    assert_eq!(decode_stream(&odd).unwrap_err(), Error::BadBlockSize);
    let mut long = bytes.clone();
    long[20..24].copy_from_slice(&131073u32.to_le_bytes());
    assert_eq!(decode_stream(&long).unwrap_err(), Error::BadBlockSize);
}

#[test]
fn decode_reports_missing_terms() {
    let mut bytes = encode_int(params(1, 44100, 16), &[1, 2, 3]).unwrap();
    // Relabel the terms sub-block as an unknown one: the weights then come
    // before any terms.
    assert_eq!(bytes[32], 0x42);
    bytes[32] = 0x41;
    assert_eq!(
        decode_stream(&bytes).unwrap_err(),
        Error::MissingSubBlock("decorr terms before weights")
    );
}

#[test]
fn decode_rejects_invalid_term() {
    let mut bytes = encode_int(params(1, 44100, 16), &[1, 2, 3]).unwrap();
    // Term 10 lies in the unused gap between 8 and 17.
    bytes[34] = 0x4f;
    assert_eq!(decode_stream(&bytes).unwrap_err(), Error::BadSubBlock { id: 2 });
}

#[test]
fn decode_rejects_dsd_sub_block() {
    let mut bytes = encode_int(params(1, 44100, 16), &[1, 2, 3]).unwrap();
    bytes[32] = 0x4e;
    assert_eq!(decode_stream(&bytes).unwrap_err(), Error::OutOfScope(Scope::Dsd));
}

#[test]
fn exp2s_nondecreasing_and_bounded() {
    let mut prev = wp_exp2s(0);
    assert_eq!(prev, 0);
    for log in 1..8192 {
        let v = wp_exp2s(log);
        assert!(prev <= v);
        prev = v;
    }
    assert_eq!(prev, wp_exp2s(8191));
    assert!(prev <= 0x7fc0_0000);
    assert_eq!(wp_exp2s(31 * 256), 0x4000_0000);
}

#[test]
fn decoder_medians_getter() {
    let w = WordsDecoder::from_entropy_vars(&[0x00, 0x01, 0x00, 0x02, 0x00, 0x0a, 0x00, 0x01, 0, 0, 0, 0], false).unwrap();
    let m = w.medians();
    assert_eq!(m[0].median, [1, 2, 512]);
    assert_eq!(m[1].median, [1, 0, 0]);
}
