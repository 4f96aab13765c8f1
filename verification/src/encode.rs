//! The integer encoder: one block holding every frame, a single fixed
//! decorrelation pass, the entropy coder, and the block's framing. The
//! decoder reads whatever decorrelation the metadata records, so the fixed
//! pass is a valid lossless choice.

use vstd::prelude::*;
use crate::bitstream::{BitWriter, packed};
use crate::decode::{block_crc, crc_mono, crc_mono_step, crc_stereo, crc_stereo_step};
use crate::decorr::{
    DecorrPass, forward_decorr_mono_pass, forward_decorr_stereo_pass, lemma_mono_fwd_len, lemma_stereo_fwd_len,
    mono_fwd_run, stereo_fwd_run, zero_state,
};
use crate::entropy::fresh_model;
use crate::entropy_encode::{WordsEncoder, enc_run, fold, lemma_enc_run_len};
use crate::error::{Error, Scope};
use crate::format::{FINAL_BLOCK, INITIAL_BLOCK, MAGIC, MAX_BLOCK_SAMPLES, MAX_STREAM_VERS, SAMPLE_RATES, rate_at};
use crate::meta;

verus! {

/// The decorrelation term of the one pass the encoder applies.
pub const FIXED_TERM: i32 = 2;
/// That pass's adaptation rate.
pub const FIXED_DELTA: i32 = 2;

/// Parameters describing the integer PCM to encode.
#[derive(Clone, Copy, Debug)]
pub struct EncodeParams {
    /// 1 or 2. Two channels are stored as independent left/right.
    pub channels: u32,
    pub sample_rate: u32,
    /// Stored bits per sample: 8, 16, 24, or 32.
    pub bits_per_sample: u32,
}

/// The index of `rate` among the standard rates from `i` on.
pub open spec fn rate_index_from(rate: u32, i: nat) -> Option<nat>
    decreases 15 - i,
{
    if i >= 15 {
        None
    } else if rate_at(i as int) == rate {
        Some(i)
    } else {
        rate_index_from(rate, i + 1)
    }
}

/// The index of `rate` among the standard rates, if it is one.
pub open spec fn rate_index(rate: u32) -> Option<nat> {
    rate_index_from(rate, 0)
}

/// The bitwise OR of the folded magnitudes of `xs[..i]`.
pub open spec fn mag_acc(xs: Seq<i32>, i: nat) -> u32
    decreases i,
{
    if i == 0 || i > xs.len() {
        0
    } else {
        mag_acc(xs, (i - 1) as nat) | fold(xs[i - 1])
    }
}

/// The magnitude field: the bit length of the OR of every folded sample.
pub open spec fn magnitude_of(xs: Seq<i32>) -> u32 {
    let acc = mag_acc(xs, xs.len());
    if acc == 0 {
        0
    } else {
        (32 - acc.leading_zeros()) as u32
    }
}

/// The samples after the fixed forward decorrelation pass.
pub open spec fn residuals_of(xs: Seq<i32>, mono: bool) -> Seq<i32> {
    let z = zero_state();
    if mono {
        mono_fwd_run(FIXED_TERM, FIXED_DELTA, z.0, z.2, xs, 0).2
    } else {
        stereo_fwd_run(FIXED_TERM, FIXED_DELTA, z, xs, 0).1 + xs.skip(2 * (xs.len() / 2) as int)
    }
}

/// The entropy coder's starting state: every median zero.
pub open spec fn start_model() -> crate::entropy::CoderModel {
    fresh_model((0u32, 0u32, 0u32), (0u32, 0u32, 0u32))
}

/// The bitstream payload: the coded residuals, packed into bytes.
pub open spec fn wv_payload(xs: Seq<i32>, mono: bool) -> Seq<u8> {
    packed(enc_run(start_model(), residuals_of(xs, mono), 0, mono).0)
}

/// `x` as four little-endian bytes.
pub open spec fn le32_bytes(x: u32) -> Seq<u8> {
    seq![(x % 256) as u8, ((x / 256) % 256) as u8, ((x / 65536) % 256) as u8, (x / 16777216) as u8]
}

/// `n` zero bytes.
pub open spec fn zeros(n: nat) -> Seq<u8> {
    Seq::new(n, |i: int| 0u8)
}

/// A small metadata sub-block: the identifier (flagged when the data is
/// odd), the size in 16-bit words, the data, and a pad byte when odd.
pub open spec fn sub_block(id: u8, d: Seq<u8>) -> Seq<u8> {
    if d.len() % 2 == 1 {
        seq![id | meta::ODD_SIZE, ((d.len() + 1) / 2) as u8] + d + seq![0u8]
    } else {
        seq![id, (d.len() / 2) as u8] + d
    }
}

/// The bitstream sub-block, always with the three-byte size.
pub open spec fn wv_sub_block(wv: Seq<u8>) -> Seq<u8> {
    let w = wv.len() / 2;
    seq![meta::WV_BITSTREAM | meta::LARGE, (w % 256) as u8, ((w / 256) % 256) as u8, ((w / 65536) % 256) as u8] + wv
}

/// The byte that declares the fixed pass: its term plus 5 in the low five
/// bits, its rate in the top three.
pub open spec fn term_byte() -> u8 {
    (((FIXED_TERM + 5) as u8) & 0x1f) | ((FIXED_DELTA as u8) << 5u8)
}

/// The metadata of the one block: the fixed pass (its term byte, zero
/// weights, zero history), the zero entropy medians, and the bitstream.
pub open spec fn block_meta(mono: bool, wv: Seq<u8>) -> Seq<u8> {
    sub_block(meta::DECORR_TERMS, seq![term_byte()])
        + sub_block(meta::DECORR_WEIGHTS, zeros(if mono { 1 } else { 2 }))
        + sub_block(meta::DECORR_SAMPLES, zeros(FIXED_TERM as nat * if mono { 2nat } else { 4nat }))
        + sub_block(meta::ENTROPY_VARS, zeros(if mono { 6 } else { 12 }))
        + wv_sub_block(wv)
}

/// The block header's flags word.
pub open spec fn header_flags(bits_per_sample: u32, mono: bool, magnitude: u32, rate_index: u32) -> u32 {
    ((bits_per_sample / 8 - 1) as u32 | (if mono { 4u32 } else { 0u32 })) | INITIAL_BLOCK | FINAL_BLOCK
        | (magnitude << 18u32) | (rate_index << 23u32)
}

/// The 32-byte block header.
pub open spec fn header_bytes(ck_size: u32, frames: u32, flags: u32, crc: u32) -> Seq<u8> {
    MAGIC@ + le32_bytes(ck_size) + seq![0x10u8, 0x04u8] + seq![0u8, 0u8] + le32_bytes(frames) + le32_bytes(0)
        + le32_bytes(frames) + le32_bytes(flags) + le32_bytes(crc)
}

/// The whole encoded stream for samples that passed every check.
pub open spec fn encoded(p: EncodeParams, xs: Seq<i32>, ri: nat) -> Seq<u8> {
    let mono = p.channels == 1;
    let frames = (xs.len() / (p.channels as nat)) as u32;
    let wv = wv_payload(xs, mono);
    let m = block_meta(mono, wv);
    let flags = header_flags(p.bits_per_sample, mono, magnitude_of(xs), ri as u32);
    header_bytes((24 + m.len()) as u32, frames, flags, block_crc(xs, mono)) + m
}

/// Encoding: each check in turn, then the stream.
pub open spec fn encode_result(p: EncodeParams, xs: Seq<i32>) -> Result<Seq<u8>, Error> {
    if p.channels != 1 && p.channels != 2 {
        Err(Error::OutOfScope(Scope::MoreThanTwoChannels))
    } else if !(p.bits_per_sample == 8 || p.bits_per_sample == 16 || p.bits_per_sample == 24
        || p.bits_per_sample == 32) {
        Err(Error::NotYetImplemented("bit depth must be 8, 16, 24, or 32"))
    } else {
        match rate_index(p.sample_rate) {
            None => Err(Error::NotYetImplemented("non-standard sample rate")),
            Some(ri) => if xs.len() % (p.channels as nat) != 0 {
                Err(Error::Truncated { need: p.channels as usize, have: xs.len() as usize })
            } else if xs.len() / (p.channels as nat) > MAX_BLOCK_SAMPLES {
                Err(Error::NotYetImplemented("multi-block encode (over 131072 frames)"))
            } else if magnitude_of(xs) > 31 {
                Err(Error::OverMagnitude)
            } else {
                Ok(encoded(p, xs, ri))
            },
        }
    }
}

/// The index of `rate` among the standard rates.
fn rate_index_exec(rate: u32) -> (r: Option<u32>)
    ensures
        match rate_index(rate) {
            None => r is None,
            Some(i) => r == Some(i as u32) && i < 15,
        },
{
    let mut i: usize = 0;
    while i < 15
        invariant
            i <= 15,
            rate_index(rate) == rate_index_from(rate, i as nat),
        decreases 15 - i,
    {
        if SAMPLE_RATES[i] == rate {
            return Some(i as u32);
        }
        i = i + 1;
    }
    None
}

/// Append `x` as four little-endian bytes.
fn push_le32(out: &mut Vec<u8>, x: u32)
    ensures
        final(out)@ == old(out)@ + le32_bytes(x),
{
    out.push((x % 256) as u8);
    out.push(((x / 256) % 256) as u8);
    out.push(((x / 65536) % 256) as u8);
    out.push((x / 16777216) as u8);
    assert(out@ =~= old(out)@ + le32_bytes(x));
}

/// Append every byte of `d`.
fn push_all(out: &mut Vec<u8>, d: &[u8])
    ensures
        final(out)@ == old(out)@ + d@,
{
    let n = d.len();
    let mut i: usize = 0;
    while i < n
        invariant
            n == d@.len(),
            i <= n,
            out@ == old(out)@ + d@.take(i as int),
        decreases n - i,
    {
        out.push(d[i]);
        i = i + 1;
        assert(out@ =~= old(out)@ + d@.take(i as int));
    }
    assert(d@.take(n as int) =~= d@);
}

/// `n` zero bytes.
fn zero_bytes(n: usize) -> (r: Vec<u8>)
    ensures
        r@ == zeros(n as nat),
{
    let mut v: Vec<u8> = Vec::new();
    let mut i: usize = 0;
    while i < n
        invariant
            i <= n,
            v@ == zeros(i as nat),
        decreases n - i,
    {
        v.push(0);
        i = i + 1;
        assert(v@ =~= zeros(i as nat));
    }
    v
}

/// Write the 32-byte block header.
fn write_header(out: &mut Vec<u8>, ck_size: u32, frames: u32, flags: u32, crc: u32)
    ensures
        final(out)@ == old(out)@ + header_bytes(ck_size, frames, flags, crc),
{
    let ghost start = out@;
    out.push(MAGIC[0]);
    out.push(MAGIC[1]);
    out.push(MAGIC[2]);
    out.push(MAGIC[3]);
    push_le32(out, ck_size);
    out.push((MAX_STREAM_VERS % 256) as u8);
    out.push((MAX_STREAM_VERS / 256) as u8);
    out.push(0);
    out.push(0);
    push_le32(out, frames);
    push_le32(out, 0);
    push_le32(out, frames);
    push_le32(out, flags);
    push_le32(out, crc);
    assert(out@ =~= start + header_bytes(ck_size, frames, flags, crc));
}

/// Append a small metadata sub-block (up to 510 data bytes). Odd-length
/// data sets the odd-size flag and is padded with one byte.
fn push_sub_block(out: &mut Vec<u8>, id: u8, data: &[u8])
    requires
        data@.len() <= 510,
    ensures
        final(out)@ == old(out)@ + sub_block(id, data@),
{
    let ghost start = out@;
    let odd = data.len() % 2 == 1;
    let words = (data.len() + 1) / 2;
    out.push(if odd {
        id | meta::ODD_SIZE
    } else {
        id
    });
    out.push(words as u8);
    push_all(out, data);
    if odd {
        out.push(0);
    }
    assert(out@ =~= start + sub_block(id, data@));
}

/// Append the bitstream sub-block, always in the large (three-byte size)
/// form. The payload is even by construction.
fn push_wv_sub_block(out: &mut Vec<u8>, wv: &[u8])
    ensures
        final(out)@ == old(out)@ + wv_sub_block(wv@),
{
    let ghost start = out@;
    let words = wv.len() / 2;
    out.push(meta::WV_BITSTREAM | meta::LARGE);
    out.push((words % 256) as u8);
    out.push(((words / 256) % 256) as u8);
    out.push(((words / 65536) % 256) as u8);
    push_all(out, wv);
    assert(out@ =~= start + wv_sub_block(wv@));
}

/// The OR of every folded sample (see `mag_acc`).
fn mag_acc_exec(xs: &[i32]) -> (r: u32)
    ensures
        r == mag_acc(xs@, xs@.len()),
{
    let n = xs.len();
    let mut acc: u32 = 0;
    let mut i: usize = 0;
    while i < n
        invariant
            n == xs@.len(),
            i <= n,
            acc == mag_acc(xs@, i as nat),
        decreases n - i,
    {
        let s = xs[i];
        let f: u32 = if s < 0 {
            (!s) as u32
        } else {
            s as u32
        };
        acc = acc | f;
        i = i + 1;
    }
    acc
}

/// The block checksum of the samples (see `block_crc`).
fn samples_crc(xs: &[i32], mono: bool) -> (r: u32)
    requires
        mono || xs@.len() % 2 == 0,
    ensures
        r == block_crc(xs@, mono),
{
    let n = xs.len();
    let mut crc: u32 = 0xffff_ffff;
    if mono {
        let mut i: usize = 0;
        while i < n
            invariant
                n == xs@.len(),
                i <= n,
                crc_mono(xs@, 0, 0xffff_ffff) == crc_mono(xs@, i as nat, crc),
            decreases n - i,
        {
            crc = crc_mono_step(crc, xs[i]);
            i = i + 1;
        }
    } else {
        let m = n / 2;
        let mut j: usize = 0;
        while j < m
            invariant
                n == xs@.len(),
                m == n / 2,
                j <= m,
                crc_stereo(xs@, 0, 0xffff_ffff) == crc_stereo(xs@, j as nat, crc),
            decreases m - j,
        {
            crc = crc_stereo_step(crc, xs[2 * j], xs[2 * j + 1]);
            j = j + 1;
        }
    }
    crc
}

/// The samples after the fixed forward decorrelation pass (see
/// `residuals_of`).
fn residuals_exec(samples: &[i32], mono: bool) -> (r: Vec<i32>)
    ensures
        r@ == residuals_of(samples@, mono),
        r@.len() == samples@.len(),
{
    let ghost xs = samples@;
    let mut residuals: Vec<i32> = Vec::new();
    let n = samples.len();
    let mut i: usize = 0;
    while i < n
        invariant
            n == xs.len(),
            samples@ == xs,
            i <= n,
            residuals@ == xs.take(i as int),
        decreases n - i,
    {
        residuals.push(samples[i]);
        i = i + 1;
        assert(residuals@ =~= xs.take(i as int));
    }
    assert(xs.take(n as int) =~= xs);
    let mut pass = DecorrPass::with_term(FIXED_TERM, FIXED_DELTA);
    proof {
        assert(pass.samples_a@ =~= zero_state().2);
        assert(pass.samples_b@ =~= zero_state().3);
    }
    if mono {
        forward_decorr_mono_pass(&mut pass, residuals.as_mut_slice());
        proof {
            let z = zero_state();
            lemma_mono_fwd_len(FIXED_TERM, FIXED_DELTA, z.0, z.2, xs, 0);
        }
    } else {
        forward_decorr_stereo_pass(&mut pass, residuals.as_mut_slice());
        proof {
            lemma_stereo_fwd_len(FIXED_TERM, FIXED_DELTA, zero_state(), xs, 0);
        }
    }
    residuals
}

/// The bitstream payload for the samples (see `wv_payload`).
fn wv_exec(samples: &[i32], mono: bool) -> (r: Vec<u8>)
    requires
        samples@.len() <= 2 * MAX_BLOCK_SAMPLES,
        mono || samples@.len() % 2 == 0,
    ensures
        r@ == wv_payload(samples@, mono),
        r@.len() % 2 == 0,
        r@.len() <= 16 * samples@.len() + 2,
{
    let residuals = residuals_exec(samples, mono);
    let frames: u32 = if mono {
        residuals.len() as u32
    } else {
        (residuals.len() / 2) as u32
    };
    let mut words = WordsEncoder::new();
    let mut bw = BitWriter::new();
    proof {
        lemma_enc_run_len(start_model(), residuals@, 0, mono);
    }
    words.send_words_lossless(&mut bw, residuals.as_slice(), frames, mono);
    let wv = bw.close();
    wv
}

/// The metadata of the one block (see `block_meta`).
fn meta_exec(mono: bool, wv: &[u8]) -> (r: Vec<u8>)
    ensures
        r@ == block_meta(mono, wv@),
{
    let term_byte: u8 = (((FIXED_TERM + 5) as u8) & 0x1f) | ((FIXED_DELTA as u8) << 5);
    let mut meta_bytes: Vec<u8> = Vec::new();
    let mut tb: Vec<u8> = Vec::new();
    tb.push(term_byte);
    assert(tb@ =~= seq![term_byte]);
    push_sub_block(&mut meta_bytes, meta::DECORR_TERMS, tb.as_slice());
    let weights = zero_bytes(if mono { 1 } else { 2 });
    push_sub_block(&mut meta_bytes, meta::DECORR_WEIGHTS, weights.as_slice());
    let history = zero_bytes(FIXED_TERM as usize * if mono { 2 } else { 4 });
    push_sub_block(&mut meta_bytes, meta::DECORR_SAMPLES, history.as_slice());
    let vars = WordsEncoder::entropy_vars(mono);
    assert(vars@ =~= zeros(if mono { 6nat } else { 12nat }));
    push_sub_block(&mut meta_bytes, meta::ENTROPY_VARS, vars.as_slice());
    push_wv_sub_block(&mut meta_bytes, wv);
    meta_bytes
}

/// The block header's flags word (see `header_flags`).
fn flags_exec(bits_per_sample: u32, mono: bool, magnitude: u32, rate_index: u32) -> (r: u32)
    requires
        8 <= bits_per_sample,
    ensures
        r == header_flags(bits_per_sample, mono, magnitude, rate_index),
{
    let mut flags: u32 = bits_per_sample / 8 - 1;
    flags = flags | if mono {
        4u32
    } else {
        0u32
    };
    flags = flags | INITIAL_BLOCK;
    flags = flags | FINAL_BLOCK;
    flags = flags | (magnitude << 18);
    flags = flags | (rate_index << 23);
    flags
}

/// Encode interleaved integer `samples` to a single-block `.wv` stream.
///
/// `samples` holds sign-extended `i32` values (`channels * frames` of them).
/// Each must fit in `bits_per_sample`.
pub fn encode_int(params: EncodeParams, samples: &[i32]) -> (r: Result<Vec<u8>, Error>)
    ensures
        match encode_result(params, samples@) {
            Err(e) => r == Err::<Vec<u8>, Error>(e),
            Ok(bytes) => r matches Ok(v) && v@ == bytes,
        },
{
    let ghost xs = samples@;
    let channels = params.channels;
    let sample_rate = params.sample_rate;
    let bits_per_sample = params.bits_per_sample;
    if channels != 1 && channels != 2 {
        return Err(Error::OutOfScope(Scope::MoreThanTwoChannels));
    }
    if !(bits_per_sample == 8 || bits_per_sample == 16 || bits_per_sample == 24 || bits_per_sample == 32) {
        return Err(Error::NotYetImplemented("bit depth must be 8, 16, 24, or 32"));
    }
    let srate_index = match rate_index_exec(sample_rate) {
        None => return Err(Error::NotYetImplemented("non-standard sample rate")),
        Some(i) => i,
    };
    let mono = channels == 1;
    if samples.len() % (channels as usize) != 0 {
        return Err(Error::Truncated { need: channels as usize, have: samples.len() });
    }
    let nframes = samples.len() / (channels as usize);
    if nframes > MAX_BLOCK_SAMPLES as usize {
        return Err(Error::NotYetImplemented("multi-block encode (over 131072 frames)"));
    }
    let frames = nframes as u32;

    // The magnitude field is the actual bit width of the samples: the OR
    // of every sample folded through its own sign.
    let acc = mag_acc_exec(samples);
    let magnitude: u32 = if acc == 0 {
        0
    } else {
        32 - acc.leading_zeros()
    };
    if magnitude > 31 {
        return Err(Error::OverMagnitude);
    }

    // The checksum over the input samples, as the decoder computes it.
    let crc = samples_crc(samples, mono);
    let wv = wv_exec(samples, mono);
    let flags = flags_exec(bits_per_sample, mono, magnitude, srate_index);
    let meta_bytes = meta_exec(mono, wv.as_slice());
    let ck_size: u32 = (24 + meta_bytes.len()) as u32;
    let mut out: Vec<u8> = Vec::new();
    write_header(&mut out, ck_size, frames, flags, crc);
    push_all(&mut out, meta_bytes.as_slice());
    assert(out@ =~= encoded(params, xs, rate_index(sample_rate).unwrap()));
    Ok(out)
}

} // verus!
