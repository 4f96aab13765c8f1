//! What the encoder writes, the decoder reads back exactly: the library's
//! round-trip law and the facts it rests on.

use vstd::prelude::*;
use crate::bitstream::{bits_of, lemma_packed, lemma_p2_values, p2};
use crate::decode::{
    PassModel, StreamModel, Supplied, any_over, block_crc, decode_blocks, stream_decode, block_decode, block_inputs, finish_block, mono_data, restored, shifted,
    undo_passes, entropy_model, take_subs, over, passes_declared, passes_loaded, passes_weighted, take_sub,
};
use crate::decorr::{
    lemma_mono_fwd_len, lemma_mono_roundtrip, lemma_stereo_fwd_len, lemma_stereo_roundtrip, stereo_fwd_run,
    history_bytes, load_histories, loaded_history, log_sample, restore_weight, terms_valid, weights_after, zero_histories, zero_state};
use crate::entropy::{CoderModel, initial_median, lemma_exp2s_zero};
use crate::block::{BlockHeader, blocks_of, has_magic, header_of, le16, le32, parse_header, subs_of};
use crate::encode::{EncodeParams, FIXED_DELTA, FIXED_TERM, block_meta, encode_result, rate_index, rate_index_from, header_bytes, header_flags, residuals_of, wv_payload, le32_bytes, mag_acc, magnitude_of, start_model, sub_block, term_byte, wv_sub_block, zeros};
use crate::error::Error;
use crate::format::{Flags, MAGIC, rate_at, MAX_BLOCK_SAMPLES, MAX_STREAM_VERS, DSD_FLAG, FALSE_STEREO, FINAL_BLOCK, FLOAT_DATA, HYBRID_FLAG, INITIAL_BLOCK, INT32_DATA, JOINT_STEREO, MONO_FLAG};
use crate::meta;
use crate::entropy_encode::{enc_inv, enc_run, fold, lemma_enc_run_len, lemma_run_roundtrip};

verus! {

/// Four little-endian bytes read back as the value written.
proof fn lemma_le32_bytes(x: u32)
    ensures
        le32_bytes(x)[0] as int + 256 * le32_bytes(x)[1] as int + 65536 * le32_bytes(x)[2] as int
            + 16777216 * le32_bytes(x)[3] as int == x,
{
    assert(x == (x % 256) + 256 * ((x / 256) % 256) + 65536 * ((x / 65536) % 256) + 16777216 * (x / 16777216)) by (bit_vector);
}

/// Every folded sample lies within the accumulated OR of the folds.
proof fn lemma_mag_acc_covers(xs: Seq<i32>, k: nat)
    requires
        k <= xs.len(),
    ensures
        forall|i: int| 0 <= i < k ==> #[trigger] fold(xs[i]) <= mag_acc(xs, k),
        mag_acc(xs, k) < 0x8000_0000,
    decreases k,
{
    if k > 0 {
        lemma_mag_acc_covers(xs, (k - 1) as nat);
        let a = mag_acc(xs, (k - 1) as nat);
        let y = fold(xs[k - 1]);
        crate::entropy_encode::lemma_fold(xs[k - 1]);
        assert(y <= (a | y) && a <= (a | y) && (a < 0x8000_0000 && y < 0x8000_0000 ==> (a | y) < 0x8000_0000)) by (bit_vector);
    }
}

/// A value that shifts to zero by `n` is below `2^n`.
proof fn lemma_shr_zero(a: u32, n: u32)
    requires
        n < 32,
        a >> n == 0,
    ensures
        a < p2(n as nat),
    decreases n,
{
    assert((a >> 0u32 == a) && (a as int <= 2 * (a >> 1u32) as int + 1) && (1 <= n < 32 ==> ((a >> 1u32) >> ((n - 1) as u32)) == a >> n)) by (bit_vector);
    if n > 0 {
        lemma_shr_zero(a >> 1u32, (n - 1) as u32);
    }
}

/// The magnitude field fits its five bits and bounds every sample: no
/// sample is over the decoder's limit.
pub proof fn lemma_magnitude(xs: Seq<i32>)
    ensures
        magnitude_of(xs) <= 31,
        !any_over(xs, p2(magnitude_of(xs) as nat) as int + 2),
{
    let acc = mag_acc(xs, xs.len());
    lemma_mag_acc_covers(xs, xs.len());
    let mag = magnitude_of(xs);
    if acc != 0 {
        let lz = acc.leading_zeros();
        vstd::std_specs::bits::axiom_u32_leading_zeros(acc);
        assert(acc < 0x8000_0000 ==> (acc >> 31u32) & 1u32 == 0) by (bit_vector);
        assert(lz >= 1);
        assert(acc >> ((32 - lz) as u32) == 0);
        lemma_shr_zero(acc, (32 - lz) as u32);
    } else {
        lemma_p2_values();
    }
    assert(acc < p2(mag as nat));
    assert forall|i: int| 0 <= i < xs.len() implies !over(#[trigger] xs[i], p2(mag as nat) as int + 2) by {
        let x = xs[i];
        assert(fold(x) <= acc);
        assert(x < 0 ==> ((!x) as u32) as int + 1 == -(x as int)) by (bit_vector);
    }
}

/// A small sub-block parses back to its identifier and data.
proof fn lemma_subs_of_sub_block(id: u8, d: Seq<u8>, rest: Seq<u8>)
    requires
        id < 64,
        d.len() <= 510,
    ensures
        subs_of(sub_block(id, d) + rest) == seq![Ok::<(u8, Seq<u8>), Error>((id, d))] + subs_of(rest),
{
    let t = sub_block(id, d) + rest;
    assert(id < 64 ==> (id & 0x80u8 == 0 && id & 0x40u8 == 0 && id & 0x3fu8 == id && (id | 0x40u8) & 0x80u8 == 0
        && (id | 0x40u8) & 0x40u8 != 0 && (id | 0x40u8) & 0x3fu8 == id)) by (bit_vector);
    let odd = d.len() % 2 == 1;
    let size: int = if odd {
        d.len() as int + 1
    } else {
        d.len() as int
    };
    assert(t[1] as int * 2 == size);
    assert(t.subrange(2, 2 + d.len() as int) =~= d);
    assert(t.skip(2 + size) =~= rest);
}

/// The bitstream sub-block parses back to the bitstream.
proof fn lemma_subs_of_wv(wv: Seq<u8>, rest: Seq<u8>)
    requires
        wv.len() % 2 == 0,
        wv.len() / 2 < 0x100_0000,
    ensures
        subs_of(wv_sub_block(wv) + rest) == seq![Ok::<(u8, Seq<u8>), Error>((meta::WV_BITSTREAM, wv))] + subs_of(rest),
{
    let t = wv_sub_block(wv) + rest;
    let w = (wv.len() / 2) as u32;
    assert((w < 0x100_0000 ==> (w % 256) + 256 * ((w / 256) % 256) + 65536 * ((w / 65536) % 256) == w)
        && (0x0au8 | 0x80u8) & 0x80u8 != 0 && (0x0au8 | 0x80u8) & 0x40u8 == 0 && (0x0au8 | 0x80u8) & 0x3fu8 == 0x0au8)
        by (bit_vector);
    assert(t[1] + 256 * t[2] + 65536 * t[3] == w);
    assert(t.subrange(4, 4 + wv.len() as int) =~= wv);
    assert(t.skip(4 + wv.len() as int) =~= rest);
}

/// The one fixed pass, as the decoder takes it in.
pub open spec fn fixed_pass() -> PassModel {
    (FIXED_TERM, FIXED_DELTA, zero_state())
}

/// A zero byte pair reads back as a zero history sample.
proof fn lemma_log_sample_zero(d: Seq<u8>, o: int)
    requires
        0 <= o,
        o + 2 <= d.len(),
        d[o] == 0,
        d[o + 1] == 0,
    ensures
        log_sample(d, o) == 0,
{
    lemma_exp2s_zero();
    assert(((0int as u16) as i16) as i32 == 0);
}

/// The terms sub-block declares the fixed pass.
proof fn lemma_take_terms(mono: bool)
    ensures
        take_sub((None, None, None), meta::DECORR_TERMS, seq![term_byte()], mono)
            == Ok::<Supplied, Error>((Some(seq![fixed_pass()]), None, None)),
{
    assert(term_byte() == 71u8 && 71u8 & 0x1fu8 == 7u8 && (71u8 >> 5u8) & 7u8 == 2u8) by {
        assert(((7u8 & 0x1fu8) | (2u8 << 5u8)) == 71u8 && 71u8 & 0x1fu8 == 7u8 && (71u8 >> 5u8) & 7u8 == 2u8) by (bit_vector);
    }
    let d = seq![term_byte()];
    assert(terms_valid(d, mono));
    assert(passes_declared(d) =~= seq![fixed_pass()]);
}

/// The zero weights leave the fixed pass as it was.
proof fn lemma_take_weights(mono: bool)
    ensures
        take_sub((Some(seq![fixed_pass()]), None, None), meta::DECORR_WEIGHTS, zeros(if mono { 1 } else { 2 }), mono)
            == Ok::<Supplied, Error>((Some(seq![fixed_pass()]), None, None)),
{
    let d = zeros(if mono { 1 } else { 2 });
    let ps = seq![fixed_pass()];
    assert(restore_weight(0u8) == 0);
    assert(weights_after(d, mono, 1, 0) == (0i32, 0i32));
    assert(passes_weighted(ps, d, mono) =~= ps);
}

/// The zero history leaves the fixed pass as it was.
proof fn lemma_take_history(mono: bool)
    ensures
        take_sub((Some(seq![fixed_pass()]), None, None), meta::DECORR_SAMPLES, zeros(FIXED_TERM as nat * if mono { 2nat } else { 4nat }), mono)
            == Ok::<Supplied, Error>((Some(seq![fixed_pass()]), None, None)),
{
    let d = zeros(FIXED_TERM as nat * if mono { 2nat } else { 4nat });
    let ps = seq![fixed_pass()];
    let ts = Seq::new(ps.len(), |k: int| ps[k].0);
    assert(ts =~= seq![2i32]);
    let z = Seq::new(8, |i: int| 0i32);
    assert forall|o: int| 0 <= o && o + 2 <= d.len() implies #[trigger] log_sample(d, o) == 0 by {
        lemma_log_sample_zero(d, o);
    }
    let lh = loaded_history(2, d, 0, mono);
    assert(lh.0 =~= z);
    assert(lh.1 =~= z);
    let hs = zero_histories(1).update(0, lh);
    assert(load_histories(ts, zero_histories(1), d, mono, 1, history_bytes(2, mono)) == Some(hs));
    assert(load_histories(ts, zero_histories(1), d, mono, 0, 0) == Some(hs));
    assert(passes_loaded(ps, hs) =~= ps);
}

/// The zero entropy variables start the coder from zero medians.
proof fn lemma_take_vars(mono: bool)
    ensures
        take_sub((Some(seq![fixed_pass()]), None, None), meta::ENTROPY_VARS, zeros(if mono { 6 } else { 12 }), mono)
            == Ok::<Supplied, Error>((Some(seq![fixed_pass()]), Some(start_model()), None)),
{
    let d = zeros(if mono { 6 } else { 12 });
    lemma_exp2s_zero();
    assert(((0nat + 0nat * 256) as i32) == 0i32);
    assert(forall|o: int| 0 <= o && o + 2 <= d.len() ==> #[trigger] initial_median(d, o) == 0);
    assert(entropy_model(d, mono) == start_model());
}

/// The sub-blocks of the encoder's metadata, in order.
pub open spec fn meta_subs(mono: bool, wv: Seq<u8>) -> Seq<Result<(u8, Seq<u8>), Error>> {
    seq![
        Ok((meta::DECORR_TERMS, seq![term_byte()])),
        Ok((meta::DECORR_WEIGHTS, zeros(if mono { 1 } else { 2 }))),
        Ok((meta::DECORR_SAMPLES, zeros(FIXED_TERM as nat * if mono { 2nat } else { 4nat }))),
        Ok((meta::ENTROPY_VARS, zeros(if mono { 6 } else { 12 }))),
        Ok((meta::WV_BITSTREAM, wv)),
    ]
}

/// The encoder's metadata parses back into its five sub-blocks.
proof fn lemma_meta_subs(mono: bool, wv: Seq<u8>)
    requires
        wv.len() % 2 == 0,
        wv.len() / 2 < 0x100_0000,
    ensures
        subs_of(block_meta(mono, wv)) == meta_subs(mono, wv),
{
    let wts = zeros(if mono { 1 } else { 2 });
    let hist = zeros(FIXED_TERM as nat * if mono { 2nat } else { 4nat });
    let vars = zeros(if mono { 6 } else { 12 });
    let e = wv_sub_block(wv);
    let d4 = sub_block(meta::ENTROPY_VARS, vars) + e;
    let d3 = sub_block(meta::DECORR_SAMPLES, hist) + d4;
    let d2 = sub_block(meta::DECORR_WEIGHTS, wts) + d3;
    let d1 = sub_block(meta::DECORR_TERMS, seq![term_byte()]) + d2;
    assert(block_meta(mono, wv) =~= d1);
    let empty = Seq::<u8>::empty();
    assert(subs_of(empty) == Seq::<Result<(u8, Seq<u8>), Error>>::empty());
    assert(e + empty =~= e);
    lemma_subs_of_wv(wv, empty);
    lemma_subs_of_sub_block(meta::ENTROPY_VARS, vars, e);
    lemma_subs_of_sub_block(meta::DECORR_SAMPLES, hist, d4);
    lemma_subs_of_sub_block(meta::DECORR_WEIGHTS, wts, d3);
    lemma_subs_of_sub_block(meta::DECORR_TERMS, seq![term_byte()], d2);
    assert(subs_of(d1) =~= meta_subs(mono, wv));
}

/// Taking in a list of sub-blocks whose first one is taken in cleanly.
proof fn lemma_take_subs_step(subs: Seq<Result<(u8, Seq<u8>), Error>>, acc: Supplied, mono: bool, a: Supplied)
    requires
        subs.len() > 0,
        subs[0] matches Ok((id, d)) && take_sub(acc, id, d, mono) == Ok::<Supplied, Error>(a),
    ensures
        take_subs(subs, acc, mono) == take_subs(subs.drop_first(), a, mono),
{
}

/// Taking in the encoder's sub-blocks supplies the fixed pass, zero
/// medians and the bitstream.
proof fn lemma_take_meta(mono: bool, wv: Seq<u8>)
    ensures
        take_subs(meta_subs(mono, wv), (None, None, None), mono)
            == Ok::<Supplied, Error>((Some(seq![fixed_pass()]), Some(start_model()), Some(wv))),
{
    let subs = meta_subs(mono, wv);
    lemma_take_terms(mono);
    lemma_take_weights(mono);
    lemma_take_history(mono);
    lemma_take_vars(mono);
    let a0: Supplied = (None, None, None);
    let a1: Supplied = (Some(seq![fixed_pass()]), None, None);
    let a4: Supplied = (Some(seq![fixed_pass()]), Some(start_model()), None);
    let a5: Supplied = (Some(seq![fixed_pass()]), Some(start_model()), Some(wv));
    assert(take_sub(a4, meta::WV_BITSTREAM, wv, mono) == Ok::<Supplied, Error>(a5));
    let s2 = subs.drop_first();
    let s3 = s2.drop_first();
    let s4 = s3.drop_first();
    let s5 = s4.drop_first();
    lemma_take_subs_step(subs, a0, mono, a1);
    lemma_take_subs_step(s2, a1, mono, a1);
    lemma_take_subs_step(s3, a1, mono, a1);
    lemma_take_subs_step(s4, a1, mono, a4);
    lemma_take_subs_step(s5, a4, mono, a5);
    assert(s5.drop_first().len() == 0);
}

/// The encoder's metadata supplies the fixed pass, zero medians and the
/// bitstream.
proof fn lemma_block_inputs(mono: bool, wv: Seq<u8>)
    requires
        wv.len() % 2 == 0,
        wv.len() / 2 < 0x100_0000,
    ensures
        block_inputs(block_meta(mono, wv), mono) == Ok::<(Seq<PassModel>, CoderModel, Seq<u8>), Error>((seq![fixed_pass()], start_model(), wv)),
{
    lemma_meta_subs(mono, wv);
    lemma_take_meta(mono, wv);
}

/// The flags the encoder writes for 16-bit samples say what the decoder
/// needs: a single 16-bit integer block, mono or independent stereo, the
/// magnitude and the rate, no shift.
proof fn lemma_header_flags(bps: u32, mono: bool, mag: u32, ri: u32)
    requires
        bps == 8 || bps == 16 || bps == 24 || bps == 32,
        mag < 32,
        ri < 15,
    ensures
        ({
            let f = header_flags(bps, mono, mag, ri);
            &&& f & DSD_FLAG == 0
            &&& f & HYBRID_FLAG == 0
            &&& f & INITIAL_BLOCK != 0
            &&& f & FINAL_BLOCK != 0
            &&& f & FLOAT_DATA == 0
            &&& f & INT32_DATA == 0
            &&& f & 3 == bps / 8 - 1
            &&& (f >> 18u32) & 0x1f == mag
            &&& (f >> 13u32) & 0x1f == 0
            &&& (f >> 23u32) & 0xf == ri
            &&& f & JOINT_STEREO == 0
            &&& f & FALSE_STEREO == 0
            &&& (f & MONO_FLAG != 0) == mono
        }),
{
    let m4: u32 = if mono {
        4
    } else {
        0
    };
    let c: u32 = (bps / 8 - 1) as u32;
    let f = header_flags(bps, mono, mag, ri);
    assert(f == (((c | m4) | 0x800u32) | 0x1000u32 | (mag << 18u32)) | (ri << 23u32));
    assert({
        &&& f & 0x8000_0000u32 == 0
        &&& f & 8u32 == 0
        &&& f & 0x800u32 != 0
        &&& f & 0x1000u32 != 0
        &&& f & 0x80u32 == 0
        &&& f & 0x100u32 == 0
        &&& f & 3u32 == c
        &&& (f >> 18u32) & 0x1fu32 == mag
        &&& (f >> 13u32) & 0x1fu32 == 0
        &&& (f >> 23u32) & 0xfu32 == ri
        &&& f & 0x10u32 == 0
        &&& f & 0x4000_0000u32 == 0
        &&& (f & 4u32 != 0) == (m4 == 4)
    }) by (bit_vector)
        requires
            c < 4,
            mag < 32,
            ri < 15,
            m4 == 0 || m4 == 4,
            f == (((c | m4) | 0x800u32) | 0x1000u32 | (mag << 18u32)) | (ri << 23u32),
    ;
}

/// The header the encoder writes.
pub open spec fn written_header(ck_size: u32, frames: u32, flags: u32, crc: u32) -> BlockHeader {
    BlockHeader {
        ck_size,
        version: MAX_STREAM_VERS,
        block_index_u8: 0,
        total_samples_u8: 0,
        total_samples: frames,
        block_index: 0,
        block_samples: frames,
        flags: Flags(flags),
        crc,
    }
}

/// A written header followed by its metadata parses as one block.
proof fn lemma_blocks_of_written(ck_size: u32, frames: u32, flags: u32, crc: u32, m: Seq<u8>)
    requires
        ck_size == 24 + m.len(),
        m.len() % 2 == 0,
        frames <= MAX_BLOCK_SAMPLES,
        flags & DSD_FLAG == 0,
        flags & HYBRID_FLAG == 0,
        flags & INITIAL_BLOCK != 0,
        flags & FINAL_BLOCK != 0,
    ensures
        blocks_of(header_bytes(ck_size, frames, flags, crc) + m)
            == seq![Ok::<(BlockHeader, Seq<u8>), Error>((written_header(ck_size, frames, flags, crc), m))],
{
    let hb = header_bytes(ck_size, frames, flags, crc);
    let s = hb + m;
    assert(hb.len() == 32);
    lemma_le32_bytes(ck_size);
    lemma_le32_bytes(frames);
    lemma_le32_bytes(0);
    lemma_le32_bytes(flags);
    lemma_le32_bytes(crc);
    assert(MAGIC@ == seq![0x77u8, 0x76u8, 0x70u8, 0x6bu8]);
    assert(has_magic(s));
    assert(le32(s, 4) == ck_size);
    assert(le16(s, 8) == MAX_STREAM_VERS);
    assert(le32(s, 12) == frames);
    assert(le32(s, 16) == 0);
    assert(le32(s, 20) == frames);
    assert(le32(s, 24) == flags);
    assert(le32(s, 28) == crc);
    assert(header_of(s) == written_header(ck_size, frames, flags, crc));
    assert(parse_header(s) == Ok::<BlockHeader, Error>(written_header(ck_size, frames, flags, crc)));
    assert(s.subrange(32, ck_size + 8) =~= m);
    assert(s.skip(ck_size + 8) =~= Seq::<u8>::empty());
    assert(blocks_of(Seq::<u8>::empty()) == Seq::<Result<(BlockHeader, Seq<u8>), Error>>::empty());
    assert(blocks_of(s) =~= seq![Ok::<(BlockHeader, Seq<u8>), Error>((written_header(ck_size, frames, flags, crc), m))]);
}

/// The coded residuals of `xs`: what the bitstream holds before padding.
pub open spec fn coded_bits(xs: Seq<i32>, mono: bool) -> Seq<bool> {
    enc_run(start_model(), residuals_of(xs, mono), 0, mono).0
}

/// The encoder's bitstream, its residuals and its length.
proof fn lemma_payload(xs: Seq<i32>, mono: bool)
    requires
        xs.len() <= 2 * MAX_BLOCK_SAMPLES,
        mono || xs.len() % 2 == 0,
    ensures
        residuals_of(xs, mono).len() == xs.len(),
        enc_inv(start_model(), residuals_of(xs, mono), 0, mono),
        wv_payload(xs, mono).len() % 2 == 0,
        wv_payload(xs, mono).len() / 2 < 0x100_0000,
        wv_payload(xs, mono).len() <= 16 * xs.len() + 2,
        bits_of(wv_payload(xs, mono)) == coded_bits(xs, mono) + Seq::new(
            (wv_payload(xs, mono).len() * 8 - coded_bits(xs, mono).len()) as nat,
            |i: int| false,
        ),
{
    let z = zero_state();
    if mono {
        lemma_mono_fwd_len(FIXED_TERM, FIXED_DELTA, z.0, z.2, xs, 0);
    } else {
        lemma_stereo_fwd_len(FIXED_TERM, FIXED_DELTA, z, xs, 0);
    }
    let res = residuals_of(xs, mono);
    assert(enc_inv(start_model(), res, 0, mono));
    lemma_enc_run_len(start_model(), res, 0, mono);
    lemma_packed(coded_bits(xs, mono));
}

/// Undoing the fixed pass over the residuals gives back the samples.
proof fn lemma_undo_fixed(xs: Seq<i32>, mono: bool)
    requires
        mono || xs.len() % 2 == 0,
        residuals_of(xs, mono).len() == xs.len(),
    ensures
        undo_passes(seq![fixed_pass()], residuals_of(xs, mono), mono) == xs,
{
    let z = zero_state();
    let res = residuals_of(xs, mono);
    let ps = seq![fixed_pass()];
    assert(ps.drop_first() =~= Seq::<PassModel>::empty());
    if mono {
        assert(res.skip(0) =~= res);
        lemma_mono_roundtrip(FIXED_TERM, FIXED_DELTA, z.0, z.2, xs, res, 0);
        assert(xs.skip(0) =~= xs);
        let out = crate::decorr::mono_run(FIXED_TERM, FIXED_DELTA, z.0, z.2, res, 0).2;
        assert(out == xs);
        assert(undo_passes(ps.drop_first(), out, mono) == out);
        assert(undo_passes(ps, res, mono) == undo_passes(ps.drop_first(), out, mono));
    } else {
        let n = xs.len();
        let fwd = stereo_fwd_run(FIXED_TERM, FIXED_DELTA, z, xs, 0).1;
        lemma_stereo_fwd_len(FIXED_TERM, FIXED_DELTA, z, xs, 0);
        assert(xs.skip(2 * (n / 2) as int) =~= Seq::<i32>::empty());
        assert(res =~= fwd);
        assert(res.skip(0).take(2 * (n / 2) as int) =~= fwd);
        lemma_stereo_roundtrip(FIXED_TERM, FIXED_DELTA, z, xs, res, 0);
        assert(xs.subrange(0, 2 * (n / 2) as int) =~= xs);
        assert(res.skip(2 * (res.len() / 2) as int) =~= Seq::<i32>::empty());
        assert(xs + Seq::<i32>::empty() =~= xs);
        let out = crate::decorr::stereo_run(FIXED_TERM, FIXED_DELTA, z, res, 0).1 + res.skip(2 * (res.len() / 2) as int);
        assert(out == xs);
        assert(undo_passes(ps.drop_first(), out, mono) == out);
        assert(undo_passes(ps, res, mono) == undo_passes(ps.drop_first(), out, mono));
    }
}

/// The block the encoder writes decodes to the samples it was given.
proof fn lemma_block_decode(xs: Seq<i32>, mono: bool, ri: u32, ck_size: u32)
    requires
        0 < xs.len() <= 2 * MAX_BLOCK_SAMPLES,
        mono || xs.len() % 2 == 0,
        ri < 15,
    ensures
        ({
            let frames = (if mono { xs.len() } else { xs.len() / 2 }) as u32;
            let flags = header_flags(16, mono, magnitude_of(xs), ri);
            let h = written_header(ck_size, frames, flags, block_crc(xs, mono));
            block_decode(h, block_meta(mono, wv_payload(xs, mono))) == Ok::<Seq<i32>, Error>(xs)
        }),
{
    let frames = (if mono { xs.len() } else { xs.len() / 2 }) as u32;
    let mag = magnitude_of(xs);
    let flags = header_flags(16, mono, mag, ri);
    let h = written_header(ck_size, frames, flags, block_crc(xs, mono));
    let wv = wv_payload(xs, mono);
    lemma_payload(xs, mono);
    lemma_magnitude(xs);
    lemma_header_flags(16, mono, mag, ri);
    lemma_block_inputs(mono, wv);
    assert(mono_data(h) == mono);
    let res = residuals_of(xs, mono);
    let e = coded_bits(xs, mono);
    let bits = bits_of(wv);
    assert(bits.subrange(0, e.len() as int) =~= e);
    lemma_run_roundtrip(start_model(), res, 0, mono, bits, 0);
    assert(res.subrange(0, res.len() as int) =~= res);
    let n = if mono {
        frames as nat
    } else {
        2 * frames as nat
    };
    assert(n == res.len());
    lemma_undo_fixed(xs, mono);
    assert(restored(xs, flags, mono) == xs);
    assert(shifted(xs, (flags >> 13u32) & 0x1f) == xs);
    assert(finish_block(h, xs, mono) == Ok::<Seq<i32>, Error>(xs));
}

/// A rate index found is a standard rate's index.
proof fn lemma_rate_index_from(rate: u32, i: nat)
    ensures
        rate_index_from(rate, i) matches Some(k) ==> k < 15 && rate_at(k as int) == rate,
    decreases 15 - i,
{
    if i < 15 && rate_at(i as int) != rate {
        lemma_rate_index_from(rate, i + 1);
    }
}

/// The metadata's length: the fixed sub-blocks and the bitstream's.
proof fn lemma_meta_len(mono: bool, wv: Seq<u8>)
    ensures
        block_meta(mono, wv).len() == wv.len() + if mono { 26int } else { 36int },
{
}

/// The stream the encoder writes for samples that pass its checks.
proof fn lemma_encoded_form(p: EncodeParams, xs: Seq<i32>)
    requires
        p.channels == 1 || p.channels == 2,
        p.bits_per_sample == 16,
        rate_index(p.sample_rate) is Some,
        xs.len() % (p.channels as nat) == 0,
        0 < xs.len() / (p.channels as nat) <= MAX_BLOCK_SAMPLES,
    ensures
        ({
            let mono = p.channels == 1;
            let m = block_meta(mono, wv_payload(xs, mono));
            let frames = (if mono { xs.len() } else { xs.len() / 2 }) as u32;
            let flags = header_flags(16, mono, magnitude_of(xs), rate_index(p.sample_rate).unwrap() as u32);
            &&& encode_result(p, xs) == Ok::<Seq<u8>, Error>(
                header_bytes((24 + m.len()) as u32, frames, flags, block_crc(xs, mono)) + m,
            )
            &&& 24 + m.len() <= u32::MAX
            &&& m.len() % 2 == 0
        }),
{
    let mono = p.channels == 1;
    lemma_magnitude(xs);
    let wv = wv_payload(xs, mono);
    lemma_payload(xs, mono);
    lemma_meta_len(mono, wv);
}

/// A stream of one block with samples decodes to that block's samples.
proof fn lemma_stream_one_block(s: Seq<u8>, h: BlockHeader, m: Seq<u8>, xs: Seq<i32>)
    requires
        blocks_of(s) == seq![Ok::<(BlockHeader, Seq<u8>), Error>((h, m))],
        h.block_samples != 0,
        h.flags.0 & FLOAT_DATA == 0,
        h.flags.0 & INT32_DATA == 0,
        (h.flags.0 & 3) + 1 == 2,
        (h.flags.0 >> 23u32) & 0xf < 15,
        block_decode(h, m) == Ok::<Seq<i32>, Error>(xs),
    ensures
        stream_decode(s) == Ok::<StreamModel, Error>(
            (
                xs,
                if h.flags.0 & MONO_FLAG != 0 {
                    1u32
                } else {
                    2u32
                },
                rate_at(((h.flags.0 >> 23u32) & 0xf) as int),
                16u32,
                false,
            ),
        ),
{
    let bl = blocks_of(s);
    let f = h.flags.0;
    let model: StreamModel = (
        xs,
        if f & MONO_FLAG != 0 {
            1u32
        } else {
            2u32
        },
        rate_at(((f >> 23u32) & 0xf) as int),
        16u32,
        false,
    );
    assert(bl[0] == Ok::<(BlockHeader, Seq<u8>), Error>((h, m)));
    assert(bl.drop_first() =~= Seq::<Result<(BlockHeader, Seq<u8>), Error>>::empty());
    assert(decode_blocks(bl.drop_first(), Some(model)) == Ok::<Option<StreamModel>, Error>(Some(model)));
    assert(decode_blocks(bl, None) == Ok::<Option<StreamModel>, Error>(Some(model)));
}

/// A block written for the samples decodes, as a stream, to them.
#[verifier::rlimit(50)]
proof fn lemma_decode_written(xs: Seq<i32>, mono: bool, ri: nat, ck: u32)
    requires
        0 < xs.len() <= 2 * MAX_BLOCK_SAMPLES,
        (if mono { xs.len() } else { xs.len() / 2 }) <= MAX_BLOCK_SAMPLES,
        mono || xs.len() % 2 == 0,
        ri < 15,
        ck == 24 + block_meta(mono, wv_payload(xs, mono)).len(),
        block_meta(mono, wv_payload(xs, mono)).len() % 2 == 0,
    ensures
        ({
            let m = block_meta(mono, wv_payload(xs, mono));
            let frames = (if mono { xs.len() } else { xs.len() / 2 }) as u32;
            let flags = header_flags(16, mono, magnitude_of(xs), ri as u32);
            stream_decode(header_bytes(ck, frames, flags, block_crc(xs, mono)) + m) == Ok::<StreamModel, Error>(
                (xs, if mono { 1u32 } else { 2u32 }, rate_at(ri as int), 16u32, false),
            )
        }),
{
    let m = block_meta(mono, wv_payload(xs, mono));
    let frames = (if mono { xs.len() } else { xs.len() / 2 }) as u32;
    let mag = magnitude_of(xs);
    lemma_magnitude(xs);
    let flags = header_flags(16, mono, mag, ri as u32);
    let crc = block_crc(xs, mono);
    lemma_header_flags(16, mono, mag, ri as u32);
    lemma_blocks_of_written(ck, frames, flags, crc, m);
    lemma_block_decode(xs, mono, ri as u32, ck);
    lemma_stream_one_block(header_bytes(ck, frames, flags, crc) + m, written_header(ck, frames, flags, crc), m, xs);
}

/// Round trip: encoding 16-bit integer samples (mono, or interleaved
/// stereo) at a standard sample rate succeeds, and decoding the stream it
/// gives yields exactly those samples, with the channel count and rate
/// that were encoded, 16 bits per sample, and integer samples.
pub proof fn lemma_encode_then_decode(p: EncodeParams, xs: Seq<i32>)
    requires
        p.channels == 1 || p.channels == 2,
        p.bits_per_sample == 16,
        rate_index(p.sample_rate) is Some,
        xs.len() % (p.channels as nat) == 0,
        0 < xs.len() / (p.channels as nat) <= MAX_BLOCK_SAMPLES,
    ensures
        encode_result(p, xs) matches Ok(bytes) && stream_decode(bytes) == Ok::<StreamModel, Error>(
            (xs, p.channels, p.sample_rate, 16u32, false),
        ),
{
    let mono = p.channels == 1;
    let ri = rate_index(p.sample_rate).unwrap();
    lemma_rate_index_from(p.sample_rate, 0);
    lemma_encoded_form(p, xs);
    let m = block_meta(mono, wv_payload(xs, mono));
    lemma_decode_written(xs, mono, ri, (24 + m.len()) as u32);
}

/// What the header of every encoded stream declares: a whole block of the
/// frames given, stored in as many bytes per sample as the bit depth asks
/// for, mono exactly for one channel, the standard rate's index, a single
/// block, integer samples and no shift.
pub proof fn lemma_encoded_header(p: EncodeParams, xs: Seq<i32>)
    requires
        encode_result(p, xs) is Ok,
    ensures
        ({
            let bytes = encode_result(p, xs).unwrap();
            let f = le32(bytes, 24);
            &&& bytes.len() >= 32
            &&& le32(bytes, 4) + 8 == bytes.len()
            &&& le32(bytes, 20) == xs.len() / (p.channels as nat)
            &&& f & 3 == p.bits_per_sample / 8 - 1
            &&& (f & MONO_FLAG != 0) == (p.channels == 1)
            &&& rate_at(((f >> 23u32) & 0xf) as int) == p.sample_rate
            &&& f & INITIAL_BLOCK != 0 && f & FINAL_BLOCK != 0
            &&& f & FLOAT_DATA == 0 && f & INT32_DATA == 0
            &&& (f >> 13u32) & 0x1f == 0
        }),
{
    let mono = p.channels == 1;
    let ri = rate_index(p.sample_rate).unwrap();
    lemma_rate_index_from(p.sample_rate, 0);
    let wv = wv_payload(xs, mono);
    let m = block_meta(mono, wv);
    let mag = magnitude_of(xs);
    let frames = (xs.len() / (p.channels as nat)) as u32;
    let flags = header_flags(p.bits_per_sample, mono, mag, ri as u32);
    let crc = block_crc(xs, mono);
    lemma_meta_len(mono, wv);
    lemma_payload(xs, mono);
    let ck = (24 + m.len()) as u32;
    let hb = header_bytes(ck, frames, flags, crc);
    let bytes = hb + m;
    assert(encode_result(p, xs).unwrap() == bytes);
    lemma_header_flags(p.bits_per_sample, mono, mag, ri as u32);
    lemma_le32_bytes(ck);
    lemma_le32_bytes(frames);
    lemma_le32_bytes(flags);
    assert(le32(bytes, 4) == ck);
    assert(le32(bytes, 20) == frames);
    assert(le32(bytes, 24) == flags);
}

} // verus!
