//! The decode driver: whole-stream lossless decode to interleaved samples.
//! Where a block's checksum or sample magnitudes are wrong, decoding stops
//! with an error rather than muting the block.

use vstd::prelude::*;
use vstd::wrapping::{i32_specs, u32_specs};
use crate::bitstream::{BitReader, bits_of, lemma_p2_mono, lemma_p2_values, p2};
use crate::block::{Block, BlockHeader, Blocks, SubBlock, blocks_of, lemma_subs_within, subs_of};
use crate::decorr::{
    lemma_mono_run_len, lemma_stereo_run_len,
    DecorrPass, PassState, decorr_mono_pass, decorr_stereo_pass, mono_run, stereo_run, load_histories, read_decorr_samples,
    read_decorr_terms, read_decorr_weights, term_ok, term_of, delta_of, terms_valid,
    weight_count, weights_after, zero_histories, zero_state, pass_state, terms, histories,
};
use crate::entropy::{CoderModel, WordsDecoder, fresh_model, initial_median, words_run};
use crate::format::{FALSE_STEREO, FLOAT_DATA, INT32_DATA, JOINT_STEREO, MAX_BLOCK_SAMPLES, MONO_FLAG, rate_at};
use crate::error::Error;
use crate::meta;
use crate::metadata::{check_scope, scope_of};

verus! {

/// A pass as plain values: (term, delta, adaptive state).
pub type PassModel = (i32, i32, PassState);

pub open spec fn pass_model(p: DecorrPass) -> PassModel {
    (p.term, p.delta, pass_state(p))
}

pub open spec fn pass_models(ps: Seq<DecorrPass>) -> Seq<PassModel> {
    Seq::new(ps.len(), |k: int| pass_model(ps[k]))
}

/// What a block's sub-blocks have supplied so far: the passes, the entropy
/// coder's starting state, and the bitstream.
pub type Supplied = (Option<Seq<PassModel>>, Option<CoderModel>, Option<Seq<u8>>);

/// The passes a `DECORR_TERMS` payload declares.
pub open spec fn passes_declared(d: Seq<u8>) -> Seq<PassModel> {
    Seq::new(d.len(), |k: int| (term_of(d[d.len() - 1 - k]), delta_of(d[d.len() - 1 - k]), zero_state()))
}

/// The passes after a `DECORR_WEIGHTS` payload.
pub open spec fn passes_weighted(ps: Seq<PassModel>, d: Seq<u8>, mono: bool) -> Seq<PassModel> {
    Seq::new(ps.len(), |k: int| {
        let w = weights_after(d, mono, ps.len() as int, k);
        (ps[k].0, ps[k].1, (w.0, w.1, ps[k].2.2, ps[k].2.3))
    })
}

/// The passes after loading histories `hs`.
pub open spec fn passes_loaded(ps: Seq<PassModel>, hs: Seq<(Seq<i32>, Seq<i32>)>) -> Seq<PassModel> {
    Seq::new(ps.len(), |k: int| (ps[k].0, ps[k].1, (ps[k].2.0, ps[k].2.1, hs[k].0, hs[k].1)))
}

/// The starting coder state an `ENTROPY_VARS` payload gives.
pub open spec fn entropy_model(d: Seq<u8>, mono: bool) -> CoderModel {
    fresh_model(
        (initial_median(d, 0), initial_median(d, 2), initial_median(d, 4)),
        if mono {
            (0u32, 0u32, 0u32)
        } else {
            (initial_median(d, 6), initial_median(d, 8), initial_median(d, 10))
        },
    )
}

/// Taking in one sub-block.
pub open spec fn take_sub(acc: Supplied, id: u8, d: Seq<u8>, mono: bool) -> Result<Supplied, Error> {
    match scope_of(id) {
        Err(e) => Err(e),
        Ok(_) => if id == meta::DECORR_TERMS {
            if terms_valid(d, mono) {
                Ok((Some(passes_declared(d)), acc.1, acc.2))
            } else {
                Err(Error::BadSubBlock { id: 0x02 })
            }
        } else if id == meta::DECORR_WEIGHTS {
            match acc.0 {
                None => Err(Error::MissingSubBlock("decorr terms before weights")),
                Some(ps) => if weight_count(d.len(), mono) > ps.len() {
                    Err(Error::BadSubBlock { id: 0x03 })
                } else {
                    Ok((Some(passes_weighted(ps, d, mono)), acc.1, acc.2))
                },
            }
        } else if id == meta::DECORR_SAMPLES {
            match acc.0 {
                None => Err(Error::MissingSubBlock("decorr terms before samples")),
                Some(ps) => match load_histories(Seq::new(ps.len(), |k: int| ps[k].0), zero_histories(ps.len()), d, mono, 0, 0) {
                    None => Err(Error::BadSubBlock { id: 0x04 }),
                    Some(hs) => Ok((Some(passes_loaded(ps, hs)), acc.1, acc.2)),
                },
            }
        } else if id == meta::ENTROPY_VARS {
            if d.len() != (if mono { 6int } else { 12int }) {
                Err(Error::BadSubBlock { id: 0x05 })
            } else {
                Ok((acc.0, Some(entropy_model(d, mono)), acc.2))
            }
        } else if id == meta::WV_BITSTREAM {
            Ok((acc.0, acc.1, Some(d)))
        } else {
            Ok(acc)
        },
    }
}

/// Taking in a block's sub-blocks in order; the first error stops it.
pub open spec fn take_subs(subs: Seq<Result<(u8, Seq<u8>), Error>>, acc: Supplied, mono: bool) -> Result<Supplied, Error>
    decreases subs.len(),
{
    if subs.len() == 0 {
        Ok(acc)
    } else {
        match subs[0] {
            Err(e) => Err(e),
            Ok((id, d)) => match take_sub(acc, id, d, mono) {
                Err(e) => Err(e),
                Ok(a) => take_subs(subs.drop_first(), a, mono),
            },
        }
    }
}

/// What a block's sub-blocks supply, with the three it cannot do without.
pub open spec fn block_inputs(d: Seq<u8>, mono: bool) -> Result<(Seq<PassModel>, CoderModel, Seq<u8>), Error> {
    match take_subs(subs_of(d), (None, None, None), mono) {
        Err(e) => Err(e),
        Ok((ps, w, wv)) => match ps {
            None => Err(Error::MissingSubBlock("decorr terms")),
            Some(ps) => match w {
                None => Err(Error::MissingSubBlock("entropy vars")),
                Some(w) => match wv {
                    None => Err(Error::MissingSubBlock("wv bitstream")),
                    Some(wv) => Ok((ps, w, wv)),
                },
            },
        },
    }
}

/// The supplied passes as actual values.
spec fn passes_match(v: Seq<DecorrPass>, ps: Seq<PassModel>, mono: bool) -> bool {
    &&& pass_models(v) == ps
    &&& forall|k: int| 0 <= k < v.len() ==> term_ok(#[trigger] v[k].term, mono)
}

/// Take in one sub-block (see `take_sub`).
fn take_sub_exec<'a>(
    passes: &mut Option<Vec<DecorrPass>>,
    words: &mut Option<WordsDecoder>,
    wv: &mut Option<&'a [u8]>,
    sub: SubBlock<'a>,
    mono: bool,
    Ghost(acc): Ghost<Supplied>,
) -> (r: Result<(), Error>)
    requires
        match acc.0 {
            None => *old(passes) is None,
            Some(ps) => *old(passes) matches Some(v) && passes_match(v@, ps, mono),
        },
        match acc.1 {
            None => *old(words) is None,
            Some(m) => *old(words) matches Some(w) && w@ == m,
        },
        match acc.2 {
            None => *old(wv) is None,
            Some(d) => *old(wv) matches Some(s) && s@ == d,
        },
    ensures
        match take_sub(acc, sub.id, sub.data@, mono) {
            Err(e) => r == Err::<(), Error>(e),
            Ok(a) => r is Ok && (match a.0 {
                None => *final(passes) is None,
                Some(ps) => *final(passes) matches Some(v) && passes_match(v@, ps, mono),
            }) && (match a.1 {
                None => *final(words) is None,
                Some(m) => *final(words) matches Some(w) && w@ == m,
            }) && (match a.2 {
                None => *final(wv) is None,
                Some(d) => *final(wv) matches Some(s) && s@ == d,
            }),
        },
{
    match check_scope(&sub) {
        Err(e) => return Err(e),
        Ok(()) => {},
    }
    if sub.id == meta::DECORR_TERMS {
        match read_decorr_terms(sub.data, mono) {
            Err(e) => Err(e),
            Ok(v) => {
                proof {
                    let d = sub.data@;
                    assert(pass_models(v@) =~= passes_declared(d));
                    assert forall|k: int| 0 <= k < v@.len() implies term_ok(#[trigger] v@[k].term, mono) by {
                        let b = d[d.len() - 1 - k];
                        assert(term_ok(term_of(d[d.len() - 1 - k]), mono));
                    }
                }
                *passes = Some(v);
                Ok(())
            },
        }
    } else if sub.id == meta::DECORR_WEIGHTS {
        match passes {
            None => Err(Error::MissingSubBlock("decorr terms before weights")),
            Some(v) => {
                let ghost old_v = v@;
                let r = read_decorr_weights(sub.data, v, mono);
                proof {
                    if r is Ok {
                        let ps = acc.0.unwrap();
                        assert(pass_models(v@) =~= passes_weighted(ps, sub.data@, mono)) by {
                            assert forall|k: int| 0 <= k < v@.len() implies #[trigger] pass_models(v@)[k] == passes_weighted(ps, sub.data@, mono)[k] by {
                                assert(pass_models(old_v)[k] == ps[k]);
                            }
                        }
                    }
                }
                r
            },
        }
    } else if sub.id == meta::DECORR_SAMPLES {
        match passes {
            None => Err(Error::MissingSubBlock("decorr terms before samples")),
            Some(v) => {
                let ghost old_v = v@;
                proof {
                    let ps = acc.0.unwrap();
                    assert(terms(old_v) =~= Seq::new(ps.len(), |k: int| ps[k].0)) by {
                        assert forall|k: int| 0 <= k < ps.len() implies #[trigger] terms(old_v)[k] == ps[k].0 by {
                            assert(pass_models(old_v)[k] == ps[k]);
                        }
                    }
                    assert forall|k: int| 0 <= k < old_v.len() implies term_ok(#[trigger] old_v[k].term, false) by {
                        assert(term_ok(old_v[k].term, mono));
                    }
                }
                let r = read_decorr_samples(sub.data, v, mono);
                proof {
                    if r is Ok {
                        let ps = acc.0.unwrap();
                        let hs = load_histories(terms(old_v), zero_histories(old_v.len()), sub.data@, mono, 0, 0).unwrap();
                        assert(pass_models(v@) =~= passes_loaded(ps, hs)) by {
                            assert forall|k: int| 0 <= k < v@.len() implies #[trigger] pass_models(v@)[k] == passes_loaded(ps, hs)[k] by {
                                assert(pass_models(old_v)[k] == ps[k]);
                                assert(histories(v@)[k] == hs[k]);
                            }
                        }
                    }
                }
                r
            },
        }
    } else if sub.id == meta::ENTROPY_VARS {
        match WordsDecoder::from_entropy_vars(sub.data, mono) {
            Err(e) => Err(e),
            Ok(w) => {
                *words = Some(w);
                Ok(())
            },
        }
    } else if sub.id == meta::WV_BITSTREAM {
        *wv = Some(sub.data);
        Ok(())
    } else {
        Ok(())
    }
}


/// Take in a block's sub-blocks (see `block_inputs`).
fn block_inputs_exec<'a>(block: &Block<'a>, mono: bool) -> (r: Result<(Vec<DecorrPass>, WordsDecoder, &'a [u8]), Error>)
    ensures
        match block_inputs(block.data@, mono) {
            Err(e) => r == Err::<(Vec<DecorrPass>, WordsDecoder, &'a [u8]), Error>(e),
            Ok((ps, m, d)) => r matches Ok((v, w, s)) && passes_match(v@, ps, mono) && w@ == m && s@ == d,
        },
{
    let mut passes: Option<Vec<DecorrPass>> = None;
    let mut words: Option<WordsDecoder> = None;
    let mut wv: Option<&'a [u8]> = None;
    let ghost init: Supplied = (None, None, None);
    let ghost total = take_subs(subs_of(block.data@), init, mono);
    let ghost mut acc: Supplied = init;
    let mut subs = block.sub_blocks();
    loop
        invariant_except_break
            subs.wf(),
            total == take_subs(subs_of(block.data@), (None, None, None), mono),
            total == take_subs(subs.pending(), acc, mono),
            match acc.0 {
                None => passes is None,
                Some(ps) => passes matches Some(v) && passes_match(v@, ps, mono),
            },
            match acc.1 {
                None => words is None,
                Some(m) => words matches Some(w) && w@ == m,
            },
            match acc.2 {
                None => wv is None,
                Some(d) => wv matches Some(s) && s@ == d,
            },
        ensures
            total == Ok::<Supplied, Error>(acc),
            match acc.0 {
                None => passes is None,
                Some(ps) => passes matches Some(v) && passes_match(v@, ps, mono),
            },
            match acc.1 {
                None => words is None,
                Some(m) => words matches Some(w) && w@ == m,
            },
            match acc.2 {
                None => wv is None,
                Some(d) => wv matches Some(s) && s@ == d,
            },
            total == take_subs(subs_of(block.data@), (None, None, None), mono),
        decreases subs.pending().len(),
    {
        let ghost pend = subs.pending();
        match subs.next() {
            None => break,
            Some(Err(e)) => return Err(e),
            Some(Ok(sub)) => {
                let ghost id = sub.id;
                let ghost d = sub.data@;
                let r = take_sub_exec(&mut passes, &mut words, &mut wv, sub, mono, Ghost(acc));
                match r {
                    Err(e) => return Err(e),
                    Ok(()) => {
                        proof {
                            acc = take_sub(acc, id, d, mono).unwrap();
                        }
                    },
                }
            },
        }
    }
    let passes = match passes {
        None => return Err(Error::MissingSubBlock("decorr terms")),
        Some(v) => v,
    };
    let words = match words {
        None => return Err(Error::MissingSubBlock("entropy vars")),
        Some(w) => w,
    };
    let wv = match wv {
        None => return Err(Error::MissingSubBlock("wv bitstream")),
        Some(s) => s,
    };
    Ok((passes, words, wv))
}



/// Undoing the passes in order over the buffer.
pub open spec fn undo_passes(ps: Seq<PassModel>, buf: Seq<i32>, mono: bool) -> Seq<i32>
    decreases ps.len(),
{
    if ps.len() == 0 {
        buf
    } else {
        let p = ps[0];
        let out = if mono {
            mono_run(p.0, p.1, p.2.0, p.2.2, buf, 0).2
        } else {
            stereo_run(p.0, p.1, p.2, buf, 0).1 + buf.skip(2 * (buf.len() / 2) as int)
        };
        undo_passes(ps.drop_first(), out, mono)
    }
}

/// Undo every pass in order, in place.
fn undo_passes_exec(passes: &mut Vec<DecorrPass>, buffer: &mut Vec<i32>, mono: bool)
    requires
        forall|k: int| 0 <= k < old(passes)@.len() ==> term_ok(#[trigger] old(passes)@[k].term, mono),
    ensures
        final(buffer)@ == undo_passes(pass_models(old(passes)@), old(buffer)@, mono),
        final(buffer)@.len() == old(buffer)@.len(),
{
    let ghost len0 = buffer@.len();
    let n = passes.len();
    let ghost ps = pass_models(passes@);
    let ghost total = undo_passes(ps, buffer@, mono);
    let mut i: usize = 0;
    proof {
        assert(ps.skip(0) =~= ps);
    }
    while i < n
        invariant
            n == passes@.len(),
            ps.len() == n,
            i <= n,
            forall|k: int| i <= k < n ==> #[trigger] pass_model(passes@[k]) == ps[k],
            forall|k: int| i <= k < n ==> term_ok(#[trigger] passes@[k].term, mono),
            total == undo_passes(ps.skip(i as int), buffer@, mono),
            buffer@.len() == len0,
        decreases n - i,
    {
        let mut p = passes[i];
        let ghost b0 = buffer@;
        proof {
            assert(ps.skip(i as int)[0] == pass_model(p));
            assert(ps.skip(i as int).drop_first() =~= ps.skip(i + 1));
        }
        if mono {
            decorr_mono_pass(&mut p, buffer.as_mut_slice());
        } else {
            decorr_stereo_pass(&mut p, buffer.as_mut_slice());
        }
        proof {
            let q = ps[i as int];
            if mono {
                lemma_mono_run_len(q.0, q.1, q.2.0, q.2.2, b0, 0);
            } else {
                lemma_stereo_run_len(q.0, q.1, q.2, b0, 0);
            }
        }
        passes.set(i, p);
        i = i + 1;
    }
    proof {
        assert(ps.skip(n as int).len() == 0);
    }
}

/// Whether a sample's magnitude exceeds `limit`.
pub open spec fn over(s: i32, limit: int) -> bool {
    (if s < 0 {
        -(s as int)
    } else {
        s as int
    }) > limit
}

/// Joint stereo stores (mid, side); restore (left, right).
pub open spec fn unjoint(xs: Seq<i32>) -> Seq<i32> {
    Seq::new(xs.len(), |i: int| {
        let l = xs[2 * (i / 2)];
        let r = xs[2 * (i / 2) + 1];
        let r2 = i32_specs::wrapping_sub(r, l >> 1u32);
        if i % 2 == 1 {
            r2
        } else {
            i32_specs::wrapping_add(l, r2)
        }
    })
}

/// The joint-stereo transform of (left, right) frames: each stored pair is
/// (side, mid) with side = left - right and mid = right + side / 2 (an
/// arithmetic shift), modulo 2^32.
pub open spec fn joint(xs: Seq<i32>) -> Seq<i32> {
    Seq::new(xs.len(), |i: int| {
        let l = xs[2 * (i / 2)];
        let r = xs[2 * (i / 2) + 1];
        let side = i32_specs::wrapping_sub(l, r);
        if i % 2 == 0 {
            side
        } else {
            i32_specs::wrapping_add(r, side >> 1u32)
        }
    })
}

/// Joint-stereo restore undoes the transform: a joint-stereo block built
/// from (left, right) frames decodes back to those frames.
pub proof fn lemma_unjoint_joint(xs: Seq<i32>)
    requires
        xs.len() % 2 == 0,
    ensures
        unjoint(joint(xs)) == xs,
{
    let ys = joint(xs);
    assert forall|i: int| 0 <= i < xs.len() implies #[trigger] unjoint(ys)[i] == xs[i] by {
        let j = 2 * (i / 2);
        let l = xs[j];
        let r = xs[j + 1];
        let side = i32_specs::wrapping_sub(l, r);
        assert(ys[j] == side);
        assert(ys[j + 1] == i32_specs::wrapping_add(r, side >> 1u32));
        assert(i32_specs::wrapping_sub(i32_specs::wrapping_add(r, side >> 1u32), side >> 1u32) == r);
        assert(i32_specs::wrapping_add(side, r) == l);
    }
    assert(unjoint(ys) =~= xs);
}

/// The mono block checksum over samples `i..`: crc * 3 + sample.
pub open spec fn crc_mono(xs: Seq<i32>, i: nat, crc: u32) -> u32
    decreases xs.len() - i,
{
    if i >= xs.len() {
        crc
    } else {
        crc_mono(xs, i + 1, u32_specs::wrapping_add(u32_specs::wrapping_mul(crc, 3), xs[i as int] as u32))
    }
}

/// The stereo block checksum over frames `j..`: crc * 9 + 3 * left + right.
pub open spec fn crc_stereo(xs: Seq<i32>, j: nat, crc: u32) -> u32
    decreases xs.len() / 2 - j,
{
    if j >= xs.len() / 2 {
        crc
    } else {
        let l = xs[2 * j as int] as u32;
        let r = xs[2 * j as int + 1] as u32;
        let c = u32_specs::wrapping_add(
            u32_specs::wrapping_add(
                u32_specs::wrapping_add(u32_specs::wrapping_add(crc, crc << 3u32), l << 1u32),
                l,
            ),
            r,
        );
        crc_stereo(xs, j + 1, c)
    }
}

/// The samples shifted left by `sh` bits.
pub open spec fn shifted(xs: Seq<i32>, sh: u32) -> Seq<i32> {
    if sh == 0 {
        xs
    } else {
        Seq::new(xs.len(), |i: int| ((xs[i] as u32) << sh) as i32)
    }
}

/// Each stored sample output on both channels.
pub open spec fn duplicated(xs: Seq<i32>) -> Seq<i32> {
    Seq::new(2 * xs.len(), |i: int| xs[i / 2])
}

/// Some sample's magnitude exceeds `limit`.
pub open spec fn any_over(zs: Seq<i32>, limit: int) -> bool {
    exists|i: int| 0 <= i < zs.len() && over(#[trigger] zs[i], limit)
}

/// The stored channels as (left, right) or the one mono channel.
pub open spec fn restored(ys: Seq<i32>, f: u32, mono: bool) -> Seq<i32> {
    if mono || f & JOINT_STEREO == 0 {
        ys
    } else {
        unjoint(ys)
    }
}

/// The block checksum of the restored samples.
pub open spec fn block_crc(zs: Seq<i32>, mono: bool) -> u32 {
    if mono {
        crc_mono(zs, 0, 0xffff_ffff)
    } else {
        crc_stereo(zs, 0, 0xffff_ffff)
    }
}

/// The last steps of a block's decode: joint-stereo restore, the magnitude
/// bound, the checksum, the output shift, and false-stereo expansion.
pub open spec fn finish_block(h: BlockHeader, ys: Seq<i32>, mono: bool) -> Result<Seq<i32>, Error> {
    let f = h.flags.0;
    let zs = restored(ys, f, mono);
    if any_over(zs, p2(((f >> 18u32) & 0x1f) as nat) as int + 2) {
        Err(Error::OverMagnitude)
    } else if block_crc(zs, mono) != h.crc {
        Err(Error::CrcMismatch { stored: h.crc, computed: block_crc(zs, mono) })
    } else {
        let ws = shifted(zs, (f >> 13u32) & 0x1f);
        Ok(if f & FALSE_STEREO != 0 {
            duplicated(ws)
        } else {
            ws
        })
    }
}

/// `2^m + 2`, the magnitude bound for a magnitude field `m`.
fn mute_limit(m: u32) -> (r: i64)
    requires
        m < 32,
    ensures
        r == p2(m as nat) + 2,
{
    let mut lim: i64 = 1;
    let mut k: u32 = 0;
    proof {
        lemma_p2_values();
    }
    while k < m
        invariant
            k <= m < 32,
            lim == p2(k as nat),
        decreases m - k,
    {
        proof {
            lemma_p2_mono(k as nat, 31);
            lemma_p2_values();
        }
        lim = lim * 2;
        k = k + 1;
    }
    proof {
        lemma_p2_mono(m as nat, 31);
        lemma_p2_values();
    }
    lim + 2
}

/// Whether a sample's magnitude exceeds `limit`.
fn over_exec(s: i32, limit: i64) -> (r: bool)
    ensures
        r == over(s, limit as int),
{
    let a: i64 = if s < 0 {
        -(s as i64)
    } else {
        s as i64
    };
    a > limit
}

/// The mono checksum step.
pub(crate) fn crc_mono_step(crc: u32, s: i32) -> (r: u32)
    ensures
        r == u32_specs::wrapping_add(u32_specs::wrapping_mul(crc, 3), s as u32),
{
    crc.wrapping_mul(3).wrapping_add(s as u32)
}

/// The stereo checksum step.
pub(crate) fn crc_stereo_step(crc: u32, l: i32, r: i32) -> (c: u32)
    ensures
        c == u32_specs::wrapping_add(
            u32_specs::wrapping_add(
                u32_specs::wrapping_add(u32_specs::wrapping_add(crc, crc << 3u32), (l as u32) << 1u32),
                l as u32,
            ),
            r as u32,
        ),
{
    crc.wrapping_add(crc << 3).wrapping_add((l as u32) << 1).wrapping_add(l as u32).wrapping_add(r as u32)
}

/// The magnitude check and checksum of a mono block: the checksum, or
/// `None` where some sample is over the limit.
fn mono_scan(ys: &Vec<i32>, limit: i64) -> (r: Option<u32>)
    ensures
        any_over(ys@, limit as int) ==> r is None,
        !any_over(ys@, limit as int) ==> r == Some(crc_mono(ys@, 0, 0xffff_ffff)),
{
    let n = ys.len();
    let mut crc: u32 = 0xffff_ffff;
    let mut i: usize = 0;
    while i < n
        invariant
            n == ys@.len(),
            i <= n,
            crc_mono(ys@, 0, 0xffff_ffff) == crc_mono(ys@, i as nat, crc),
            forall|k: int| 0 <= k < i ==> !over(#[trigger] ys@[k], limit as int),
        decreases n - i,
    {
        let s = ys[i];
        if over_exec(s, limit) {
            proof {
                assert(over(ys@[i as int], limit as int));
            }
            return None;
        }
        crc = crc_mono_step(crc, s);
        i = i + 1;
    }
    Some(crc)
}

/// The joint-stereo restore, magnitude check and checksum of a stereo
/// block, in one pass: the checksum, or `None` where some sample is over
/// the limit.
fn stereo_scan(buf: &mut Vec<i32>, joint: bool, limit: i64) -> (r: Option<u32>)
    requires
        old(buf)@.len() % 2 == 0,
    ensures
        ({
            let zs = if joint {
                unjoint(old(buf)@)
            } else {
                old(buf)@
            };
            &&& any_over(zs, limit as int) ==> r is None
            &&& !any_over(zs, limit as int) ==> r == Some(crc_stereo(zs, 0, 0xffff_ffff)) && final(buf)@ == zs
        }),
{
    let ghost ys = buf@;
    let ghost zs = if joint {
        unjoint(ys)
    } else {
        ys
    };
    let n = buf.len();
    let m = n / 2;
    let mut crc: u32 = 0xffff_ffff;
    let mut j: usize = 0;
    while j < m
        invariant
            n == buf@.len(),
            n == ys.len(),
            ys == old(buf)@,
            n % 2 == 0,
            m == n / 2,
            j <= m,
            zs == (if joint { unjoint(ys) } else { ys }),
            forall|k: int| 0 <= k < 2 * j ==> buf@[k] == #[trigger] zs[k],
            forall|k: int| 2 * j <= k < n ==> buf@[k] == #[trigger] ys[k],
            crc_stereo(zs, 0, 0xffff_ffff) == crc_stereo(zs, j as nat, crc),
            forall|k: int| 0 <= k < 2 * j ==> !over(#[trigger] zs[k], limit as int),
        decreases m - j,
    {
        let a = buf[2 * j];
        let b = buf[2 * j + 1];
        let mut l = a;
        let mut r = b;
        if joint {
            r = b.wrapping_sub(a >> 1);
            l = a.wrapping_add(r);
            buf.set(2 * j, l);
            buf.set(2 * j + 1, r);
        }
        proof {
            assert(l == zs[2 * j as int]);
            assert(r == zs[2 * j + 1]);
        }
        crc = crc_stereo_step(crc, l, r);
        if over_exec(l, limit) || over_exec(r, limit) {
            proof {
                if over(l, limit as int) {
                    assert(over(zs[2 * j as int], limit as int));
                } else {
                    assert(over(zs[2 * j + 1], limit as int));
                }
            }
            return None;
        }
        j = j + 1;
    }
    proof {
        assert(buf@ =~= zs);
    }
    Some(crc)
}

/// The last steps of a block's decode (see `finish_block`).
fn finish_block_exec(h: &BlockHeader, buffer: Vec<i32>, mono: bool) -> (r: Result<Vec<i32>, Error>)
    requires
        mono || buffer@.len() % 2 == 0,
    ensures
        match finish_block(*h, buffer@, mono) {
            Err(e) => r == Err::<Vec<i32>, Error>(e),
            Ok(v) => r matches Ok(w) && w@ == v,
        },
{
    let ghost ys = buffer@;
    let f = h.flags.0;
    let limit = mute_limit(h.flags.magnitude());
    let mut buf = buffer;
    let n = buf.len();
    let scanned = if mono {
        mono_scan(&buf, limit)
    } else {
        stereo_scan(&mut buf, f & JOINT_STEREO != 0, limit)
    };
    let crc = match scanned {
        None => return Err(Error::OverMagnitude),
        Some(c) => c,
    };
    let ghost zs = buf@;
    if crc != h.crc {
        return Err(Error::CrcMismatch { stored: h.crc, computed: crc });
    }
    let sh = h.flags.output_shift();
    if sh != 0 {
        let mut i: usize = 0;
        while i < n
            invariant
                n == buf@.len(),
                n == zs.len(),
                0 < sh < 32,
                i <= n,
                forall|k: int| 0 <= k < i ==> buf@[k] == ((#[trigger] zs[k] as u32) << sh) as i32,
                forall|k: int| i <= k < n ==> buf@[k] == #[trigger] zs[k],
            decreases n - i,
        {
            let v = buf[i];
            let u: u32 = (v as u32) << sh;
            buf.set(i, #[verifier::truncate] (u as i32));
            i = i + 1;
        }
        proof {
            assert(buf@ =~= shifted(zs, sh));
        }
    }
    if f & FALSE_STEREO != 0 {
        let mut out: Vec<i32> = Vec::new();
        let mut i: usize = 0;
        while i < n
            invariant
                n == buf@.len(),
                i <= n,
                out@.len() == 2 * i,
                forall|k: int| 0 <= k < 2 * i ==> out@[k] == buf@[k / 2],
            decreases n - i,
        {
            let v = buf[i];
            out.push(v);
            out.push(v);
            i = i + 1;
        }
        proof {
            assert(out@ =~= duplicated(buf@));
        }
        Ok(out)
    } else {
        Ok(buf)
    }
}

/// One channel stored: a mono block or a false-stereo one.
pub open spec fn mono_data(h: BlockHeader) -> bool {
    h.flags.0 & MONO_FLAG != 0 || h.flags.0 & FALSE_STEREO != 0
}

/// Decoding one block (header `h`, sub-block area `d`) to output samples.
pub open spec fn block_decode(h: BlockHeader, d: Seq<u8>) -> Result<Seq<i32>, Error> {
    let mono = mono_data(h);
    match block_inputs(d, mono) {
        Err(e) => Err(e),
        Ok((ps, w, wv)) => {
            let frames = h.block_samples;
            let n = if mono {
                frames as nat
            } else {
                2 * frames as nat
            };
            let bits = bits_of(wv);
            let (xs, s2, pos) = words_run(w, bits, 0, 0, n, mono);
            let produced = if mono {
                xs.len()
            } else {
                xs.len() / 2
            };
            if produced != frames || pos > bits.len() {
                Err(Error::Truncated { need: frames as usize, have: produced as usize })
            } else {
                finish_block(h, undo_passes(ps, xs, mono), mono)
            }
        },
    }
}


/// The bitstream a block supplies lies within its sub-block area.
proof fn lemma_take_subs_within(subs: Seq<Result<(u8, Seq<u8>), Error>>, acc: Supplied, mono: bool, bound: nat)
    requires
        forall|i: int| 0 <= i < subs.len() ==> (#[trigger] subs[i] matches Ok((id, x)) ==> x.len() <= bound),
        acc.2 matches Some(x) ==> x.len() <= bound,
    ensures
        take_subs(subs, acc, mono) matches Ok(a) ==> (a.2 matches Some(x) ==> x.len() <= bound),
    decreases subs.len(),
{
    if subs.len() > 0 {
        if let Ok((id, d)) = subs[0] {
            if let Ok(a) = take_sub(acc, id, d, mono) {
                assert forall|i: int| 0 <= i < subs.drop_first().len() implies (#[trigger] subs.drop_first()[i] matches Ok((id2, x)) ==> x.len() <= bound) by {
                    assert(subs.drop_first()[i] == subs[i + 1]);
                }
                lemma_take_subs_within(subs.drop_first(), a, mono, bound);
            }
        }
    }
}

proof fn lemma_inputs_within(d: Seq<u8>, mono: bool)
    ensures
        block_inputs(d, mono) matches Ok((ps, w, wv)) ==> wv.len() <= d.len(),
{
    lemma_subs_within(d);
    lemma_take_subs_within(subs_of(d), (None, None, None), mono, d.len());
}

/// Decode one audio block to its output samples (joint stereo undone,
/// shifted, false stereo expanded, the checksum checked).
fn decode_block(block: &Block) -> (r: Result<Vec<i32>, Error>)
    requires
        block.data@.len() <= u32::MAX,
        block.header.block_samples <= MAX_BLOCK_SAMPLES,
    ensures
        match block_decode(block.header, block.data@) {
            Err(e) => r == Err::<Vec<i32>, Error>(e),
            Ok(v) => r matches Ok(w) && w@ == v,
        },
{
    let h = block.header;
    let mono = h.flags.mono_stored() || h.flags.0 & FALSE_STEREO != 0;
    let (mut passes, mut words, wv) = match block_inputs_exec(block, mono) {
        Err(e) => return Err(e),
        Ok(t) => t,
    };
    proof {
        lemma_inputs_within(block.data@, mono);
    }
    let frames = h.block_samples as usize;
    let stored_len = if mono {
        frames
    } else {
        frames * 2
    };
    let mut buffer = vec![0i32; stored_len];
    let mut bs = BitReader::new(wv);
    let produced = words.get_words_lossless(&mut bs, buffer.as_mut_slice(), h.block_samples, mono);
    if produced != h.block_samples || bs.errored() {
        return Err(Error::Truncated { need: h.block_samples as usize, have: produced as usize });
    }
    undo_passes_exec(&mut passes, &mut buffer, mono);
    finish_block_exec(&h, buffer, mono)
}

/// What a decoded stream holds, as plain values: the interleaved samples,
/// the channel count, the sample rate, the bits per sample and whether the
/// samples are floats.
pub type StreamModel = (Seq<i32>, u32, u32, u32, bool);

/// A fully decoded stream: interleaved samples plus the facts needed to
/// interpret them.
#[derive(Clone, Debug)]
pub struct DecodedStream {
    /// Interleaved output samples (mono: one per frame; stereo: two).
    pub samples: Vec<i32>,
    pub channels: u32,
    pub sample_rate: u32,
    pub bits_per_sample: u32,
    pub is_float: bool,
}

impl View for DecodedStream {
    type V = StreamModel;

    open spec fn view(&self) -> StreamModel {
        (self.samples@, self.channels, self.sample_rate, self.bits_per_sample, self.is_float)
    }
}

/// Decoding the blocks `bl` after the stream so far, `acc`: the first
/// block with samples fixes the channels and the rate, later ones append
/// their samples. Empty blocks are passed over; float, extended-integer and
/// other than 16-bit blocks are not yet decoded.
pub open spec fn decode_blocks(bl: Seq<Result<(BlockHeader, Seq<u8>), Error>>, acc: Option<StreamModel>) -> Result<Option<StreamModel>, Error>
    decreases bl.len(),
{
    if bl.len() == 0 {
        Ok(acc)
    } else {
        match bl[0] {
            Err(e) => Err(e),
            Ok((h, d)) => {
                let f = h.flags.0;
                if h.block_samples == 0 {
                    decode_blocks(bl.drop_first(), acc)
                } else if f & FLOAT_DATA != 0 {
                    Err(Error::NotYetImplemented("32-bit float decode (M3)"))
                } else if f & INT32_DATA != 0 {
                    Err(Error::NotYetImplemented("extended integer decode (M2)"))
                } else if (f & 3) + 1 != 2 {
                    Err(Error::NotYetImplemented("non-16-bit integer decode (M2)"))
                } else {
                    match block_decode(h, d) {
                        Err(e) => Err(e),
                        Ok(xs) => {
                            let ri = (f >> 23u32) & 0xf;
                            if ri == 15 {
                                Err(Error::NotYetImplemented("non-standard sample rate"))
                            } else {
                                let next: StreamModel = match acc {
                                    None => (
                                        xs,
                                        if f & MONO_FLAG != 0 {
                                            1u32
                                        } else {
                                            2u32
                                        },
                                        rate_at(ri as int),
                                        16u32,
                                        false,
                                    ),
                                    Some(m) => (m.0 + xs, m.1, m.2, m.3, m.4),
                                };
                                decode_blocks(bl.drop_first(), Some(next))
                            }
                        },
                    }
                }
            },
        }
    }
}

/// Decoding a whole stream; one with no samples at all is truncated.
pub open spec fn stream_decode(s: Seq<u8>) -> Result<StreamModel, Error> {
    match decode_blocks(blocks_of(s), None) {
        Err(e) => Err(e),
        Ok(None) => Err(Error::Truncated { need: 32, have: 0 }),
        Ok(Some(m)) => Ok(m),
    }
}

/// A block the decoder takes without error: empty, or a 16-bit integer
/// block at a standard rate whose samples decode.
pub open spec fn block_decodes(b: Result<(BlockHeader, Seq<u8>), Error>) -> bool {
    match b {
        Err(_) => false,
        Ok((h, d)) => {
            let f = h.flags.0;
            h.block_samples == 0 || (f & FLOAT_DATA == 0 && f & INT32_DATA == 0 && (f & 3) + 1 == 2
                && block_decode(h, d) is Ok && (f >> 23u32) & 0xf != 15)
        },
    }
}

/// The samples of the blocks with samples, in order.
pub open spec fn all_samples(bl: Seq<Result<(BlockHeader, Seq<u8>), Error>>) -> Seq<i32>
    decreases bl.len(),
{
    if bl.len() == 0 {
        Seq::empty()
    } else {
        match bl[0] {
            Ok((h, d)) => if h.block_samples != 0 {
                block_decode(h, d).unwrap() + all_samples(bl.drop_first())
            } else {
                all_samples(bl.drop_first())
            },
            Err(_) => all_samples(bl.drop_first()),
        }
    }
}

/// The channel count and rate of the first block with samples.
pub open spec fn first_format(bl: Seq<Result<(BlockHeader, Seq<u8>), Error>>) -> Option<(u32, u32)>
    decreases bl.len(),
{
    if bl.len() == 0 {
        None
    } else {
        match bl[0] {
            Ok((h, d)) => if h.block_samples != 0 {
                let f = h.flags.0;
                Some(
                    (
                        if f & MONO_FLAG != 0 {
                            1u32
                        } else {
                            2u32
                        },
                        rate_at(((f >> 23u32) & 0xf) as int),
                    ),
                )
            } else {
                first_format(bl.drop_first())
            },
            Err(_) => first_format(bl.drop_first()),
        }
    }
}

/// Decoding blocks that all decode: the stream so far, extended by their
/// samples; the first block with samples fixes channels and rate.
proof fn lemma_decode_blocks_all(bl: Seq<Result<(BlockHeader, Seq<u8>), Error>>, acc: Option<StreamModel>)
    requires
        forall|i: int| 0 <= i < bl.len() ==> #[trigger] block_decodes(bl[i]),
    ensures
        decode_blocks(bl, acc) == Ok::<Option<StreamModel>, Error>(
            match acc {
                Some(m) => Some((m.0 + all_samples(bl), m.1, m.2, m.3, m.4)),
                None => match first_format(bl) {
                    None => None,
                    Some((c, r)) => Some((all_samples(bl), c, r, 16u32, false)),
                },
            },
        ),
    decreases bl.len(),
{
    if bl.len() == 0 {
        if let Some(m) = acc {
            assert(m.0 + Seq::<i32>::empty() =~= m.0);
        }
    } else {
        let rest = bl.drop_first();
        assert forall|i: int| 0 <= i < rest.len() implies #[trigger] block_decodes(rest[i]) by {
            assert(block_decodes(bl[i + 1]));
        }
        assert(block_decodes(bl[0]));
        if let Ok((h, d)) = bl[0] {
            if h.block_samples != 0 {
                let xs = block_decode(h, d).unwrap();
                let f = h.flags.0;
                let next: StreamModel = match acc {
                    None => (
                        xs,
                        if f & MONO_FLAG != 0 {
                            1u32
                        } else {
                            2u32
                        },
                        rate_at(((f >> 23u32) & 0xf) as int),
                        16u32,
                        false,
                    ),
                    Some(m) => (m.0 + xs, m.1, m.2, m.3, m.4),
                };
                lemma_decode_blocks_all(rest, Some(next));
                if let Some(m) = acc {
                    assert(m.0 + xs + all_samples(rest) =~= m.0 + (xs + all_samples(rest)));
                }
            } else {
                lemma_decode_blocks_all(rest, acc);
            }
        }
    }
}

/// A stream whose blocks all decode gives the samples of its blocks with
/// samples concatenated in order, with the channel count and rate of the
/// first of them, 16 bits per sample, integer samples.
pub proof fn lemma_stream_concatenates(s: Seq<u8>)
    requires
        forall|i: int| 0 <= i < blocks_of(s).len() ==> #[trigger] block_decodes(blocks_of(s)[i]),
        first_format(blocks_of(s)) is Some,
    ensures
        stream_decode(s) == Ok::<StreamModel, Error>(
            (
                all_samples(blocks_of(s)),
                first_format(blocks_of(s)).unwrap().0,
                first_format(blocks_of(s)).unwrap().1,
                16u32,
                false,
            ),
        ),
{
    lemma_decode_blocks_all(blocks_of(s), None);
}

pub open spec fn stream_so_far(out: Option<DecodedStream>) -> Option<StreamModel> {
    match out {
        None => None,
        Some(d) => Some(d@),
    }
}

/// Decode an entire `.wv` byte stream losslessly: 16-bit integer PCM, mono
/// or stereo (false stereo and joint stereo included). Float and
/// extended-integer streams parse but are `Error::NotYetImplemented`.
pub fn decode_stream(stream: &[u8]) -> (r: Result<DecodedStream, Error>)
    ensures
        match stream_decode(stream@) {
            Err(e) => r == Err::<DecodedStream, Error>(e),
            Ok(m) => r matches Ok(d) && d@ == m,
        },
{
    let mut out: Option<DecodedStream> = None;
    let mut blocks = Blocks::new(stream);
    let ghost total = decode_blocks(blocks_of(stream@), None);
    loop
        invariant_except_break
            blocks.wf(),
            total == decode_blocks(blocks_of(stream@), None),
            total == decode_blocks(blocks.pending(), stream_so_far(out)),
        ensures
            total == decode_blocks(blocks_of(stream@), None),
            total == Ok::<Option<StreamModel>, Error>(stream_so_far(out)),
        decreases blocks.pending().len(),
    {
        let ghost pend = blocks.pending();
        match blocks.next() {
            None => break,
            Some(Err(e)) => return Err(e),
            Some(Ok(block)) => {
                let h = block.header;
                let f = h.flags.0;
                if h.block_samples == 0 {
                    continue;
                }
                if h.flags.is_float() {
                    return Err(Error::NotYetImplemented("32-bit float decode (M3)"));
                }
                if f & INT32_DATA != 0 {
                    return Err(Error::NotYetImplemented("extended integer decode (M2)"));
                }
                if h.flags.bytes_per_sample() != 2 {
                    return Err(Error::NotYetImplemented("non-16-bit integer decode (M2)"));
                }
                let mut samples = match decode_block(&block) {
                    Err(e) => return Err(e),
                    Ok(v) => v,
                };
                let rate = match h.flags.sample_rate() {
                    None => return Err(Error::NotYetImplemented("non-standard sample rate")),
                    Some(r) => r,
                };
                match out {
                    None => {
                        out = Some(
                            DecodedStream {
                                samples,
                                channels: h.flags.output_channels(),
                                sample_rate: rate,
                                bits_per_sample: h.flags.bytes_per_sample() * 8,
                                is_float: false,
                            },
                        );
                    },
                    Some(mut existing) => {
                        existing.samples.append(&mut samples);
                        out = Some(existing);
                    },
                }
            },
        }
    }
    match out {
        None => Err(Error::Truncated { need: 32, have: 0 }),
        Some(d) => Ok(d),
    }
}

} // verus!
