//! Decorrelation: the adaptive prediction passes that turn samples into
//! residuals (encode) and back (decode), and their metadata.

use vstd::prelude::*;
use vstd::wrapping::i32_specs;
use crate::entropy::{exp2s_nonneg, exp2s_nonneg_exec};
use crate::error::Error;

verus! {

/// Terms 1..=8 predict from the sample `term` positions back.
pub const MAX_TERM: usize = 8;
/// At most this many passes per block.
pub const MAX_NTERMS: usize = 16;

/// One decorrelation pass: its term (1..=8, 17, 18, or -1..=-3 for the
/// cross-channel stereo terms), adaptation rate, weights and history.
#[derive(Clone, Copy, Debug)]
pub struct DecorrPass {
    pub term: i32,
    pub delta: i32,
    pub weight_a: i32,
    pub weight_b: i32,
    pub samples_a: [i32; 8],
    pub samples_b: [i32; 8],
}

/// A pass's adaptive state: (weight A, weight B, history A, history B).
pub type PassState = (i32, i32, Seq<i32>, Seq<i32>);

pub open spec fn pass_state(p: DecorrPass) -> PassState {
    (p.weight_a, p.weight_b, p.samples_a@, p.samples_b@)
}

impl DecorrPass {
    /// A pass with the given term and rate, zero weights and history.
    pub fn with_term(term: i32, delta: i32) -> (r: DecorrPass)
        ensures
            r.term == term,
            r.delta == delta,
            r.weight_a == 0,
            r.weight_b == 0,
            r.samples_a@ == Seq::new(8, |i: int| 0i32),
            r.samples_b@ == Seq::new(8, |i: int| 0i32),
    {
        let r = DecorrPass {
            term,
            delta,
            weight_a: 0,
            weight_b: 0,
            samples_a: [0i32; 8],
            samples_b: [0i32; 8],
        };
        assert(r.samples_a@ =~= Seq::new(8, |i: int| 0i32));
        assert(r.samples_b@ =~= Seq::new(8, |i: int| 0i32));
        r
    }
}

/// `apply_weight`: the prediction `weight * sample / 1024`, rounded, in
/// 32-bit arithmetic (split in two for samples wider than 16 bits).
pub open spec fn apply_weight(w: i32, s: i32) -> i32 {
    if s != (s as i16) as i32 {
        let lo = i32_specs::wrapping_mul(s & 0xffffi32, w) >> 9u32;
        let hi = i32_specs::wrapping_mul((s & !0xffffi32) >> 9u32, w);
        i32_specs::wrapping_add(i32_specs::wrapping_add(lo, hi), 1) >> 1u32
    } else {
        i32_specs::wrapping_add(i32_specs::wrapping_mul(w, s), 512) >> 10u32
    }
}

/// `update_weight`: move the weight by `delta` towards agreement of the
/// signs of source and result (unchanged when either is zero).
pub open spec fn update_weight(w: i32, delta: i32, src: i32, res: i32) -> i32 {
    if src != 0 && res != 0 {
        let s = (src ^ res) >> 31u32;
        i32_specs::wrapping_add(delta ^ s, i32_specs::wrapping_sub(w, s))
    } else {
        w
    }
}

/// `update_weight_clip`: as `update_weight`, with the weight's magnitude
/// capped at 1024.
pub open spec fn update_weight_clip(w: i32, delta: i32, src: i32, res: i32) -> i32 {
    if src != 0 && res != 0 {
        let s = (src ^ res) >> 31u32;
        let w1 = i32_specs::wrapping_add(w ^ s, i32_specs::wrapping_sub(delta, s));
        let w2 = if w1 > 1024 {
            1024i32
        } else {
            w1
        };
        i32_specs::wrapping_sub(w2 ^ s, s)
    } else {
        w
    }
}

fn apply_weight_exec(w: i32, s: i32) -> (r: i32)
    ensures
        r == apply_weight(w, s),
{
    if s != (#[verifier::truncate] (s as i16)) as i32 {
        let lo = (s & 0xffff).wrapping_mul(w) >> 9;
        let hi = ((s & !0xffff) >> 9).wrapping_mul(w);
        lo.wrapping_add(hi).wrapping_add(1) >> 1
    } else {
        w.wrapping_mul(s).wrapping_add(512) >> 10
    }
}

fn update_weight_exec(w: i32, delta: i32, src: i32, res: i32) -> (r: i32)
    ensures
        r == update_weight(w, delta, src, res),
{
    if src != 0 && res != 0 {
        let s = (src ^ res) >> 31;
        (delta ^ s).wrapping_add(w.wrapping_sub(s))
    } else {
        w
    }
}

fn update_weight_clip_exec(w: i32, delta: i32, src: i32, res: i32) -> (r: i32)
    ensures
        r == update_weight_clip(w, delta, src, res),
{
    if src != 0 && res != 0 {
        let s = (src ^ res) >> 31;
        let mut w1 = (w ^ s).wrapping_add(delta.wrapping_sub(s));
        if w1 > 1024 {
            w1 = 1024;
        }
        (w1 ^ s).wrapping_sub(s)
    } else {
        w
    }
}

/// The prediction source of term 17 or 18 from the two newest samples.
pub open spec fn extrapolate(term: i32, h0: i32, h1: i32) -> i32 {
    if term == 17 {
        i32_specs::wrapping_sub(i32_specs::wrapping_mul(2, h0), h1)
    } else {
        i32_specs::wrapping_sub(i32_specs::wrapping_mul(3, h0), h1) >> 1u32
    }
}

fn extrapolate_exec(term: i32, h0: i32, h1: i32) -> (r: i32)
    ensures
        r == extrapolate(term, h0, h1),
{
    if term == 17 {
        2i32.wrapping_mul(h0).wrapping_sub(h1)
    } else {
        3i32.wrapping_mul(h0).wrapping_sub(h1) >> 1
    }
}

/// Undoing one channel's prediction at position `i` for term 17, 18 or
/// 1..=8: (weight, history, restored sample).
#[verifier::opaque]
pub open spec fn unpredict(term: i32, delta: i32, w: i32, h: Seq<i32>, i: int, x: i32) -> (i32, Seq<i32>, i32) {
    if term == 17 || term == 18 {
        let sam = extrapolate(term, h[0], h[1]);
        let v = i32_specs::wrapping_add(apply_weight(w, sam), x);
        (update_weight(w, delta, sam, x), h.update(1, h[0]).update(0, v), v)
    } else {
        let m = i % 8;
        let k = (i + term) % 8;
        let sam = h[m];
        let v = i32_specs::wrapping_add(apply_weight(w, sam), x);
        (update_weight(w, delta, sam, x), h.update(k, v), v)
    }
}

/// The history after a default-term pass over `n` samples, rotated so the
/// next sample's source is at index 0 again.
pub open spec fn settle(term: i32, h: Seq<i32>, n: int) -> Seq<i32> {
    if term == 17 || term == 18 {
        h
    } else {
        Seq::new(8, |k: int| h[(n + k) % 8])
    }
}

/// Undoing a mono pass over samples `i..` of `xs`: the final state before
/// settling and the restored samples.
pub open spec fn mono_run(term: i32, delta: i32, w: i32, h: Seq<i32>, xs: Seq<i32>, i: nat) -> (i32, Seq<i32>, Seq<i32>)
    decreases xs.len() - i,
{
    if i >= xs.len() {
        (w, h, Seq::empty())
    } else {
        let (w1, h1, v) = unpredict(term, delta, w, h, i as int, xs[i as int]);
        let (w2, h2, rest) = mono_run(term, delta, w1, h1, xs, i + 1);
        (w2, h2, seq![v] + rest)
    }
}

/// A valid pass term for the given channel layout.
pub open spec fn term_ok(term: i32, mono: bool) -> bool {
    &&& term != 0
    &&& term >= -3
    &&& !(8 < term < 17)
    &&& term <= 18
    &&& !(mono && term < 0)
}

/// One step of `unpredict` on a history array.
fn unpredict_exec(term: i32, delta: i32, w: i32, h: &mut [i32; 8], i: usize, x: i32) -> (r: (i32, i32))
    requires
        term_ok(term, false),
        term > 0,
    ensures
        (r.0, final(h)@, r.1) == unpredict(term, delta, w, old(h)@, i as int, x),
{
    proof {
        reveal(unpredict);
    }
    if term == 17 || term == 18 {
        let sam = extrapolate_exec(term, h[0], h[1]);
        let v = apply_weight_exec(w, sam).wrapping_add(x);
        let w2 = update_weight_exec(w, delta, sam, x);
        h[1] = h[0];
        h[0] = v;
        assert(h@ =~= old(h)@.update(1, old(h)@[0]).update(0, v));
        (w2, v)
    } else {
        let m = i % 8;
        let k = (i % 8 + (term as usize)) % 8;
        assert(k == (i + term) % 8);
        let sam = h[m];
        let v = apply_weight_exec(w, sam).wrapping_add(x);
        let w2 = update_weight_exec(w, delta, sam, x);
        h[k] = v;
        assert(h@ =~= old(h)@.update(k as int, v));
        (w2, v)
    }
}

/// Undo a mono pass in place: each residual becomes the sample it predicts
/// from the history plus the residual.
pub fn decorr_mono_pass(pass: &mut DecorrPass, buffer: &mut [i32])
    requires
        term_ok(old(pass).term, true),
    ensures
        ({
            let p = *old(pass);
            let (w, h, out) = mono_run(p.term, p.delta, p.weight_a, p.samples_a@, old(buffer)@, 0);
            &&& final(buffer)@ == out
            &&& final(pass).term == p.term
            &&& final(pass).delta == p.delta
            &&& final(pass).weight_a == w
            &&& final(pass).weight_b == p.weight_b
            &&& final(pass).samples_a@ == settle(p.term, h, out.len() as int)
            &&& final(pass).samples_b == p.samples_b
        }),
{
    let ghost p0 = *pass;
    let ghost xs = buffer@;
    let ghost total = mono_run(p0.term, p0.delta, p0.weight_a, p0.samples_a@, xs, 0);
    let term = pass.term;
    let delta = pass.delta;
    let mut weight = pass.weight_a;
    let n = buffer.len();
    let mut i: usize = 0;
    let mut m: usize = 0;
    while i < n
        invariant
            n == xs.len(),
            buffer@.len() == n,
            i <= n,
            term == p0.term,
            delta == p0.delta,
            term_ok(term, true),
            pass.term == term,
            pass.delta == delta,
            pass.weight_b == p0.weight_b,
            pass.samples_b == p0.samples_b,
            m == i % 8,
            buffer@.skip(i as int) == xs.skip(i as int),
            ({
                let cur = mono_run(term, delta, weight, pass.samples_a@, xs, i as nat);
                &&& total.0 == cur.0
                &&& total.1 == cur.1
                &&& total.2 == buffer@.take(i as int) + cur.2
            }),
        decreases n - i,
    {
        let x = buffer[i];
        let ghost before = buffer@;
        proof {
            assert(x == xs[i as int]) by {
                assert(before.skip(i as int)[0] == xs.skip(i as int)[0]);
            }
        }
        let (w2, v) = unpredict_exec(term, delta, weight, &mut pass.samples_a, i, x);
        weight = w2;
        buffer[i] = v;
        proof {
            assert(buffer@.take(i as int + 1) =~= before.take(i as int) + seq![v]);
            assert(buffer@.skip(i as int + 1) =~= before.skip(i as int).skip(1));
            assert(xs.skip(i as int + 1) =~= xs.skip(i as int).skip(1));
        }
        m = (m + 1) % 8;
        i = i + 1;
    }
    pass.weight_a = weight;
    let ghost h = pass.samples_a@;
    if !(term == 17 || term == 18) && m != 0 {
        let temp = pass.samples_a;
        let mut j: usize = 0;
        while j < 8
            invariant
                j <= 8,
                m < 8,
                temp@ == h,
                pass.term == term,
                pass.delta == delta,
                pass.weight_a == weight,
                pass.weight_b == p0.weight_b,
                pass.samples_b == p0.samples_b,
                forall|jj: int| 0 <= jj < j ==> #[trigger] pass.samples_a@[jj] == temp@[(m + jj) % 8],
            decreases 8 - j,
        {
            pass.samples_a[j] = temp[(m + j) % 8];
            j = j + 1;
        }
    }
    proof {
        assert(buffer@.take(n as int) =~= buffer@);
        assert(h == total.1);
        if !(term == 17 || term == 18) {
            assert forall|jj: int| 0 <= jj < 8 implies pass.samples_a@[jj] == settle(term, h, n as int)[jj] by {
                if m != 0 {
                    assert((m + jj) % 8 == (n + jj) % 8);
                } else {
                    assert((n + jj) % 8 == jj);
                }
            }
            assert(pass.samples_a@ =~= settle(term, h, n as int));
        }
    }
}


/// Undoing a cross-channel stereo term (-1, -2, -3) on one frame.
#[verifier::opaque]
pub open spec fn uncross(term: i32, delta: i32, st: PassState, l: i32, r: i32) -> (PassState, i32, i32) {
    let (wa, wb, ha, hb) = st;
    if term == -1 {
        let sam_a = i32_specs::wrapping_add(l, apply_weight(wa, ha[0]));
        let wa2 = update_weight_clip(wa, delta, ha[0], l);
        let a0 = i32_specs::wrapping_add(r, apply_weight(wb, sam_a));
        let wb2 = update_weight_clip(wb, delta, sam_a, r);
        ((wa2, wb2, ha.update(0, a0), hb), sam_a, a0)
    } else if term == -2 {
        let sam_b = i32_specs::wrapping_add(r, apply_weight(wb, hb[0]));
        let wb2 = update_weight_clip(wb, delta, hb[0], r);
        let b0 = i32_specs::wrapping_add(l, apply_weight(wa, sam_b));
        let wa2 = update_weight_clip(wa, delta, sam_b, l);
        ((wa2, wb2, ha, hb.update(0, b0)), b0, sam_b)
    } else {
        let sam_a = i32_specs::wrapping_add(l, apply_weight(wa, ha[0]));
        let wa2 = update_weight_clip(wa, delta, ha[0], l);
        let sam_b = i32_specs::wrapping_add(r, apply_weight(wb, hb[0]));
        let wb2 = update_weight_clip(wb, delta, hb[0], r);
        ((wa2, wb2, ha.update(0, sam_b), hb.update(0, sam_a)), sam_a, sam_b)
    }
}

/// Undoing a stereo pass on frame `j` (left `l`, right `r`).
pub open spec fn stereo_step(term: i32, delta: i32, st: PassState, j: int, l: i32, r: i32) -> (PassState, i32, i32) {
    if term > 0 {
        let (wa, ha, l2) = unpredict(term, delta, st.0, st.2, j, l);
        let (wb, hb, r2) = unpredict(term, delta, st.1, st.3, j, r);
        ((wa, wb, ha, hb), l2, r2)
    } else {
        uncross(term, delta, st, l, r)
    }
}

/// Undoing a stereo pass over frames `j..` of interleaved `xs`.
pub open spec fn stereo_run(term: i32, delta: i32, st: PassState, xs: Seq<i32>, j: nat) -> (PassState, Seq<i32>)
    decreases xs.len() / 2 - j,
{
    if j >= xs.len() / 2 {
        (st, Seq::empty())
    } else {
        let (st1, l, r) = stereo_step(term, delta, st, j as int, xs[2 * j as int], xs[2 * j as int + 1]);
        let (st2, rest) = stereo_run(term, delta, st1, xs, j + 1);
        (st2, seq![l, r] + rest)
    }
}

fn uncross_exec(pass: &mut DecorrPass, l: i32, r: i32) -> (res: (i32, i32))
    requires
        -3 <= old(pass).term <= -1,
    ensures
        final(pass).term == old(pass).term,
        final(pass).delta == old(pass).delta,
        (pass_state(*final(pass)), res.0, res.1) == uncross(old(pass).term, old(pass).delta, pass_state(*old(pass)), l, r),
{
    proof {
        reveal(uncross);
    }
    let delta = pass.delta;
    if pass.term == -1 {
        let sam_a = l.wrapping_add(apply_weight_exec(pass.weight_a, pass.samples_a[0]));
        pass.weight_a = update_weight_clip_exec(pass.weight_a, delta, pass.samples_a[0], l);
        let a0 = r.wrapping_add(apply_weight_exec(pass.weight_b, sam_a));
        pass.weight_b = update_weight_clip_exec(pass.weight_b, delta, sam_a, r);
        pass.samples_a[0] = a0;
        assert(pass.samples_a@ =~= old(pass).samples_a@.update(0, a0));
        (sam_a, a0)
    } else if pass.term == -2 {
        let sam_b = r.wrapping_add(apply_weight_exec(pass.weight_b, pass.samples_b[0]));
        pass.weight_b = update_weight_clip_exec(pass.weight_b, delta, pass.samples_b[0], r);
        let b0 = l.wrapping_add(apply_weight_exec(pass.weight_a, sam_b));
        pass.weight_a = update_weight_clip_exec(pass.weight_a, delta, sam_b, l);
        pass.samples_b[0] = b0;
        assert(pass.samples_b@ =~= old(pass).samples_b@.update(0, b0));
        (b0, sam_b)
    } else {
        let sam_a = l.wrapping_add(apply_weight_exec(pass.weight_a, pass.samples_a[0]));
        pass.weight_a = update_weight_clip_exec(pass.weight_a, delta, pass.samples_a[0], l);
        let sam_b = r.wrapping_add(apply_weight_exec(pass.weight_b, pass.samples_b[0]));
        pass.weight_b = update_weight_clip_exec(pass.weight_b, delta, pass.samples_b[0], r);
        pass.samples_b[0] = sam_a;
        pass.samples_a[0] = sam_b;
        assert(pass.samples_a@ =~= old(pass).samples_a@.update(0, sam_b));
        assert(pass.samples_b@ =~= old(pass).samples_b@.update(0, sam_a));
        (sam_a, sam_b)
    }
}

/// Rotate a history array so that index `m` becomes index 0.
fn rotate_history(h: &mut [i32; 8], m: usize)
    requires
        m < 8,
    ensures
        final(h)@ == Seq::new(8, |k: int| old(h)@[(m + k) % 8]),
{
    let temp = *h;
    let mut j: usize = 0;
    while j < 8
        invariant
            j <= 8,
            m < 8,
            temp@ == old(h)@,
            forall|jj: int| 0 <= jj < j ==> #[trigger] h@[jj] == temp@[(m + jj) % 8],
        decreases 8 - j,
    {
        h[j] = temp[(m + j) % 8];
        j = j + 1;
    }
    assert(h@ =~= Seq::new(8, |k: int| old(h)@[(m + k) % 8]));
}

/// Settle both histories of a stereo pass after `n` frames.
fn settle_histories(pass: &mut DecorrPass, n: usize)
    ensures
        final(pass).term == old(pass).term,
        final(pass).delta == old(pass).delta,
        final(pass).weight_a == old(pass).weight_a,
        final(pass).weight_b == old(pass).weight_b,
        final(pass).samples_a@ == (if old(pass).term > 0 { settle(old(pass).term, old(pass).samples_a@, n as int) } else { old(pass).samples_a@ }),
        final(pass).samples_b@ == (if old(pass).term > 0 { settle(old(pass).term, old(pass).samples_b@, n as int) } else { old(pass).samples_b@ }),
{
    let term = pass.term;
    let ghost ha = pass.samples_a@;
    let ghost hb = pass.samples_b@;
    if term > 0 && term != 17 && term != 18 {
        let m = n % 8;
        rotate_history(&mut pass.samples_a, m);
        rotate_history(&mut pass.samples_b, m);
        proof {
            assert(pass.samples_a@ =~= settle(term, ha, n as int));
            assert(pass.samples_b@ =~= settle(term, hb, n as int));
        }
    }
}

/// Undo a stereo pass in place over the interleaved frames of `buffer`.
pub fn decorr_stereo_pass(pass: &mut DecorrPass, buffer: &mut [i32])
    requires
        term_ok(old(pass).term, false),
    ensures
        ({
            let p = *old(pass);
            let (st, out) = stereo_run(p.term, p.delta, pass_state(p), old(buffer)@, 0);
            let n = old(buffer)@.len() / 2;
            &&& final(buffer)@ == out + old(buffer)@.skip(2 * n as int)
            &&& final(pass).term == p.term
            &&& final(pass).delta == p.delta
            &&& final(pass).weight_a == st.0
            &&& final(pass).weight_b == st.1
            &&& final(pass).samples_a@ == (if p.term > 0 { settle(p.term, st.2, n as int) } else { st.2 })
            &&& final(pass).samples_b@ == (if p.term > 0 { settle(p.term, st.3, n as int) } else { st.3 })
        }),
{
    let ghost p0 = *pass;
    let ghost xs = buffer@;
    let ghost total = stereo_run(p0.term, p0.delta, pass_state(p0), xs, 0);
    let term = pass.term;
    let delta = pass.delta;
    let blen = buffer.len();
    let nframes = blen / 2;
    let mut j: usize = 0;
    while j < nframes
        invariant
            blen == xs.len(),
            nframes == xs.len() / 2,
            2 * nframes <= xs.len(),
            buffer@.len() == xs.len(),
            j <= nframes,
            term == p0.term,
            delta == p0.delta,
            term_ok(term, false),
            pass.term == term,
            pass.delta == delta,
            buffer@.skip(2 * j) == xs.skip(2 * j),
            ({
                let cur = stereo_run(term, delta, pass_state(*pass), xs, j as nat);
                &&& total.0 == cur.0
                &&& total.1 == buffer@.take(2 * j) + cur.1
            }),
        decreases nframes - j,
    {
        let ghost before = buffer@;
        let l = buffer[2 * j];
        let r = buffer[2 * j + 1];
        proof {
            assert(l == xs[2 * j as int]) by {
                assert(before.skip(2 * j as int)[0] == xs.skip(2 * j as int)[0]);
            }
            assert(r == xs[2 * j + 1]) by {
                assert(before.skip(2 * j as int)[1] == xs.skip(2 * j as int)[1]);
            }
        }
        let (l2, r2) = if term > 0 {
            let (wa, l2) = unpredict_exec(term, delta, pass.weight_a, &mut pass.samples_a, j, l);
            let (wb, r2) = unpredict_exec(term, delta, pass.weight_b, &mut pass.samples_b, j, r);
            pass.weight_a = wa;
            pass.weight_b = wb;
            (l2, r2)
        } else {
            uncross_exec(pass, l, r)
        };
        buffer[2 * j] = l2;
        buffer[2 * j + 1] = r2;
        proof {
            assert(buffer@.take(2 * j + 2) =~= before.take(2 * j as int) + seq![l2, r2]);
            assert(buffer@.skip(2 * j + 2) =~= before.skip(2 * j as int).skip(2));
            assert(xs.skip(2 * j + 2) =~= xs.skip(2 * j as int).skip(2));
        }
        j = j + 1;
    }
    settle_histories(pass, nframes);
    proof {
        assert(buffer@ =~= buffer@.take(2 * nframes as int) + xs.skip(2 * nframes as int));
    }
}


/// The term stored in a `DECORR_TERMS` byte.
pub open spec fn term_of(b: u8) -> i32 {
    ((b & 0x1fu8) as int - 5) as i32
}

/// The adaptation rate stored in a `DECORR_TERMS` byte.
pub open spec fn delta_of(b: u8) -> i32 {
    ((b >> 5u8) & 7u8) as i32
}

/// All terms of a `DECORR_TERMS` payload are valid, and there are at most
/// `MAX_NTERMS` of them.
pub open spec fn terms_valid(d: Seq<u8>, mono: bool) -> bool {
    d.len() <= 16 && forall|i: int| 0 <= i < d.len() ==> #[trigger] term_ok(term_of(d[i]), mono)
}

/// Read the `DECORR_TERMS` payload: one byte per pass, listed last pass
/// first. Passes start with zero weights and history.
pub fn read_decorr_terms(data: &[u8], mono: bool) -> (r: Result<Vec<DecorrPass>, Error>)
    ensures
        !terms_valid(data@, mono) ==> r == Err::<Vec<DecorrPass>, Error>(Error::BadSubBlock { id: 0x02 }),
        terms_valid(data@, mono) ==> (r matches Ok(ps) && ps@.len() == data@.len() && forall|k: int| 0 <= k < ps@.len() ==> {
            let b = #[trigger] data@[data@.len() - 1 - k];
            &&& ps@[k].term == term_of(b)
            &&& ps@[k].delta == delta_of(b)
            &&& pass_state(ps@[k]) == zero_state()
        }),
{
    let n = data.len();
    if n > MAX_NTERMS {
        return Err(Error::BadSubBlock { id: 0x02 });
    }
    let mut ps: Vec<DecorrPass> = Vec::new();
    let mut k: usize = 0;
    while k < n
        invariant
            n == data@.len() <= 16,
            k <= n,
            ps@.len() == k,
            forall|i: int| n - k <= i < n ==> #[trigger] term_ok(term_of(data@[i]), mono),
            forall|kk: int| 0 <= kk < k ==> {
                let b = #[trigger] data@[n - 1 - kk];
                &&& ps@[kk].term == term_of(b)
                &&& ps@[kk].delta == delta_of(b)
                &&& pass_state(ps@[kk]) == zero_state()
            },
        decreases n - k,
    {
        let b = data[n - 1 - k];
        let term = (b & 0x1f) as i32 - 5;
        let delta = ((b >> 5) & 7) as i32;
        if term == 0 || term < -3 || (term > 8 && term < 17) || term > 18 || (mono && term < 0) {
            assert(!term_ok(term_of(data@[n - 1 - k as int]), mono));
            return Err(Error::BadSubBlock { id: 0x02 });
        }
        ps.push(DecorrPass::with_term(term, delta));
        k = k + 1;
    }
    Ok(ps)
}

/// Zero weights and history.
pub open spec fn zero_state() -> PassState {
    (0i32, 0i32, Seq::new(8, |i: int| 0i32), Seq::new(8, |i: int| 0i32))
}

/// `restore_weight`: expand a stored 8-bit weight.
pub open spec fn restore_weight(b: u8) -> i32 {
    let r = (b as i8) as int * 8;
    if r > 0 {
        (r + ((r + 64) / 128)) as i32
    } else {
        r as i32
    }
}

fn restore_weight_exec(b: u8) -> (r: i32)
    ensures
        r == restore_weight(b),
{
    let w = (b as i8) as i32 * 8;
    if w > 0 {
        w + (w + 64) / 128
    } else {
        w
    }
}

/// The number of passes, counted from the last, that a `DECORR_WEIGHTS`
/// payload gives weights to.
pub open spec fn weight_count(len: nat, mono: bool) -> nat {
    if mono {
        len
    } else {
        len / 2
    }
}

/// The weights of pass `k` of `n` after reading a `DECORR_WEIGHTS` payload:
/// the last passes get stored weights, the others zero.
pub open spec fn weights_after(d: Seq<u8>, mono: bool, n: int, k: int) -> (i32, i32) {
    let t = n - 1 - k;
    if t < weight_count(d.len(), mono) {
        if mono {
            (restore_weight(d[t]), 0i32)
        } else {
            (restore_weight(d[2 * t]), restore_weight(d[2 * t + 1]))
        }
    } else {
        (0i32, 0i32)
    }
}

/// Read the `DECORR_WEIGHTS` payload (one byte per channel per pass, last
/// pass first); more weights than passes is `BadSubBlock { id: 3 }`.
pub fn read_decorr_weights(data: &[u8], passes: &mut Vec<DecorrPass>, mono: bool) -> (r: Result<(), Error>)
    ensures
        weight_count(data@.len(), mono) > old(passes)@.len() ==> r == Err::<(), Error>(Error::BadSubBlock { id: 0x03 }) && final(passes)@ == old(passes)@,
        weight_count(data@.len(), mono) <= old(passes)@.len() ==> r is Ok && final(passes)@.len() == old(passes)@.len() && forall|k: int| 0 <= k < old(passes)@.len() ==> {
            let p = #[trigger] final(passes)@[k];
            let q = old(passes)@[k];
            &&& p.term == q.term
            &&& p.delta == q.delta
            &&& p.samples_a == q.samples_a
            &&& p.samples_b == q.samples_b
            &&& (p.weight_a, p.weight_b) == weights_after(data@, mono, old(passes)@.len() as int, k)
        },
{
    let dlen = data.len();
    let termcnt = if mono { dlen } else { dlen / 2 };
    let n = passes.len();
    if termcnt > n {
        return Err(Error::BadSubBlock { id: 0x03 });
    }
    let ghost old_ps = passes@;
    let mut k: usize = 0;
    while k < n
        invariant
            dlen == data@.len(),
            n == old_ps.len(),
            termcnt == weight_count(data@.len(), mono),
            termcnt <= n,
            k <= n,
            passes@.len() == n,
            forall|kk: int| 0 <= kk < n ==> {
                let p = #[trigger] passes@[kk];
                let q = old_ps[kk];
                &&& p.term == q.term
                &&& p.delta == q.delta
                &&& p.samples_a == q.samples_a
                &&& p.samples_b == q.samples_b
                &&& kk < k ==> (p.weight_a, p.weight_b) == weights_after(data@, mono, n as int, kk)
            },
        decreases n - k,
    {
        let t = n - 1 - k;
        let mut p = passes[k];
        if t < termcnt {
            if mono {
                p.weight_a = restore_weight_exec(data[t]);
                p.weight_b = 0;
            } else {
                p.weight_a = restore_weight_exec(data[2 * t]);
                p.weight_b = restore_weight_exec(data[2 * t + 1]);
            }
        } else {
            p.weight_a = 0;
            p.weight_b = 0;
        }
        passes.set(k, p);
        k = k + 1;
    }
    Ok(())
}

/// The sample at a signed 16-bit log: `wp_exp2s` with the negation taken
/// modulo 2^32.
pub open spec fn log_sample(d: Seq<u8>, o: int) -> i32 {
    let log = (d[o] + 256 * d[o + 1]) as u16 as i16 as i32;
    if log < 0 {
        i32_specs::wrapping_sub(0, exp2s_nonneg(-log as i32))
    } else {
        exp2s_nonneg(log)
    }
}

fn log_sample_exec(d: &[u8], o: usize) -> (r: i32)
    requires
        o + 2 <= d@.len(),
    ensures
        r == log_sample(d@, o as int),
{
    let u = crate::block::read_le16(d, o);
    let log = (#[verifier::truncate] (u as i16)) as i32;
    if log < 0 {
        0i32.wrapping_sub(exp2s_nonneg_exec(-log))
    } else {
        exp2s_nonneg_exec(log)
    }
}

/// The bytes of `DECORR_SAMPLES` a pass's history takes.
pub open spec fn history_bytes(term: i32, mono: bool) -> int {
    if term > 8 {
        if mono {
            4
        } else {
            8
        }
    } else if term < 0 {
        4
    } else if mono {
        2 * term
    } else {
        4 * term
    }
}

/// The history a pass loads from byte `pos`: the newest samples as logs.
pub open spec fn loaded_history(term: i32, d: Seq<u8>, pos: int, mono: bool) -> (Seq<i32>, Seq<i32>) {
    let z = Seq::new(8, |i: int| 0i32);
    if term > 8 {
        let a = z.update(0, log_sample(d, pos)).update(1, log_sample(d, pos + 2));
        if mono {
            (a, z)
        } else {
            (a, z.update(0, log_sample(d, pos + 4)).update(1, log_sample(d, pos + 6)))
        }
    } else if term < 0 {
        (z.update(0, log_sample(d, pos)), z.update(0, log_sample(d, pos + 2)))
    } else if mono {
        (Seq::new(8, |i: int| if i < term { log_sample(d, pos + 2 * i) } else { 0i32 }), z)
    } else {
        (
            Seq::new(8, |i: int| if i < term { log_sample(d, pos + 4 * i) } else { 0i32 }),
            Seq::new(8, |i: int| if i < term { log_sample(d, pos + 4 * i + 2) } else { 0i32 }),
        )
    }
}

/// Loading histories for passes from the last one back while bytes remain:
/// the histories, or `None` when a pass runs past the end or bytes are
/// left over.
pub open spec fn load_histories(terms: Seq<i32>, hs: Seq<(Seq<i32>, Seq<i32>)>, d: Seq<u8>, mono: bool, t: nat, pos: int) -> Option<Seq<(Seq<i32>, Seq<i32>)>>
    decreases terms.len() - t,
{
    if t >= terms.len() || pos >= d.len() {
        if pos == d.len() {
            Some(hs)
        } else {
            None
        }
    } else {
        let idx = terms.len() - 1 - t;
        let nb = history_bytes(terms[idx], mono);
        if pos + nb > d.len() {
            None
        } else {
            load_histories(terms, hs.update(idx, loaded_history(terms[idx], d, pos, mono)), d, mono, t + 1, pos + nb)
        }
    }
}


/// Load a pass's history from `DECORR_SAMPLES` bytes at `pos`.
fn load_history(p: &mut DecorrPass, d: &[u8], pos: usize, mono: bool)
    requires
        term_ok(old(p).term, false),
        pos + history_bytes(old(p).term, mono) <= d@.len(),
        old(p).samples_a@ == Seq::new(8, |i: int| 0i32),
        old(p).samples_b@ == Seq::new(8, |i: int| 0i32),
    ensures
        final(p).term == old(p).term,
        final(p).delta == old(p).delta,
        final(p).weight_a == old(p).weight_a,
        final(p).weight_b == old(p).weight_b,
        (final(p).samples_a@, final(p).samples_b@) == loaded_history(old(p).term, d@, pos as int, mono),
{
    let term = p.term;
    let dlen = d.len();
    let ghost z = Seq::new(8, |i: int| 0i32);
    if term > 8 {
        p.samples_a[0] = log_sample_exec(d, pos);
        p.samples_a[1] = log_sample_exec(d, pos + 2);
        if !mono {
            p.samples_b[0] = log_sample_exec(d, pos + 4);
            p.samples_b[1] = log_sample_exec(d, pos + 6);
        }
        proof {
            assert(p.samples_a@ =~= z.update(0, log_sample(d@, pos as int)).update(1, log_sample(d@, pos + 2)));
            if !mono {
                assert(p.samples_b@ =~= z.update(0, log_sample(d@, pos + 4)).update(1, log_sample(d@, pos + 6)));
            }
        }
    } else if term < 0 {
        p.samples_a[0] = log_sample_exec(d, pos);
        p.samples_b[0] = log_sample_exec(d, pos + 2);
        proof {
            assert(p.samples_a@ =~= z.update(0, log_sample(d@, pos as int)));
            assert(p.samples_b@ =~= z.update(0, log_sample(d@, pos + 2)));
        }
    } else {
        let t = term as usize;
        let mut m: usize = 0;
        while m < t
            invariant
                t == term,
                dlen == d@.len(),
                1 <= term <= 8,
                m <= t,
                p.term == old(p).term,
                p.delta == old(p).delta,
                p.weight_a == old(p).weight_a,
                p.weight_b == old(p).weight_b,
                pos + history_bytes(term, mono) <= d@.len(),
                forall|i: int| 0 <= i < 8 ==> #[trigger] p.samples_a@[i] == (if i < m { log_sample(d@, pos + (if mono { 2 * i } else { 4 * i })) } else { 0i32 }),
                forall|i: int| 0 <= i < 8 ==> #[trigger] p.samples_b@[i] == (if i < m && !mono { log_sample(d@, pos + 4 * i + 2) } else { 0i32 }),
            decreases t - m,
        {
            if mono {
                p.samples_a[m] = log_sample_exec(d, pos + 2 * m);
            } else {
                p.samples_a[m] = log_sample_exec(d, pos + 4 * m);
                p.samples_b[m] = log_sample_exec(d, pos + 4 * m + 2);
            }
            m = m + 1;
        }
        proof {
            let (a, b) = loaded_history(term, d@, pos as int, mono);
            assert(p.samples_a@ =~= a);
            assert(p.samples_b@ =~= b);
        }
    }
}

/// `n` cleared histories.
pub open spec fn zero_histories(n: nat) -> Seq<(Seq<i32>, Seq<i32>)> {
    Seq::new(n, |k: int| (Seq::new(8, |i: int| 0i32), Seq::new(8, |i: int| 0i32)))
}

/// The histories of passes as plain pairs.
pub open spec fn histories(ps: Seq<DecorrPass>) -> Seq<(Seq<i32>, Seq<i32>)> {
    Seq::new(ps.len(), |k: int| (ps[k].samples_a@, ps[k].samples_b@))
}

/// The terms of passes.
pub open spec fn terms(ps: Seq<DecorrPass>) -> Seq<i32> {
    Seq::new(ps.len(), |k: int| ps[k].term)
}

/// Read the `DECORR_SAMPLES` payload: every pass's history is cleared, then
/// the passes from the last back load theirs while bytes remain. A pass
/// running past the end, or bytes left over, is `BadSubBlock { id: 4 }`.
pub fn read_decorr_samples(data: &[u8], passes: &mut Vec<DecorrPass>, mono: bool) -> (r: Result<(), Error>)
    requires
        forall|k: int| 0 <= k < old(passes)@.len() ==> term_ok(#[trigger] old(passes)@[k].term, false),
    ensures
        final(passes)@.len() == old(passes)@.len(),
        forall|k: int| 0 <= k < old(passes)@.len() ==> {
            let p = #[trigger] final(passes)@[k];
            let q = old(passes)@[k];
            &&& p.term == q.term
            &&& p.delta == q.delta
            &&& p.weight_a == q.weight_a
            &&& p.weight_b == q.weight_b
        },
        ({
            match load_histories(terms(old(passes)@), zero_histories(old(passes)@.len()), data@, mono, 0, 0) {
                None => r == Err::<(), Error>(Error::BadSubBlock { id: 0x04 }),
                Some(hs) => r is Ok && histories(final(passes)@) == hs,
            }
        }),
{
    let n = passes.len();
    let ghost old_ps = passes@;
    let ghost z = Seq::new(8, |i: int| 0i32);
    let ghost zs = zero_histories(n as nat);
    let mut k: usize = 0;
    while k < n
        invariant
            n == old_ps.len(),
            old_ps == old(passes)@,
            z == Seq::new(8, |i: int| 0i32),
            passes@.len() == n,
            k <= n,
            forall|kk: int| 0 <= kk < n ==> {
                let p = #[trigger] passes@[kk];
                let q = old_ps[kk];
                &&& p.term == q.term
                &&& p.delta == q.delta
                &&& p.weight_a == q.weight_a
                &&& p.weight_b == q.weight_b
                &&& kk < k ==> p.samples_a@ == z && p.samples_b@ == z
            },
        decreases n - k,
    {
        let mut p = passes[k];
        let blank = DecorrPass::with_term(p.term, p.delta);
        assert(blank.samples_a@ =~= z);
        p.samples_a = blank.samples_a;
        p.samples_b = blank.samples_b;
        assert(p.samples_a@ =~= z);
        assert(p.samples_b@ =~= z);
        passes.set(k, p);
        k = k + 1;
    }
    proof {
        assert forall|kk: int| 0 <= kk < n implies #[trigger] histories(passes@)[kk] == zs[kk] by {
            assert(passes@[kk].samples_a@ == z);
            assert(z =~= Seq::new(8, |i: int| 0i32));
        }
        assert(histories(passes@) =~= zs);
        assert(terms(passes@) =~= terms(old_ps));
    }
    let ghost ts = terms(old_ps);
    let ghost total = load_histories(ts, zs, data@, mono, 0, 0);
    let mut pos: usize = 0;
    let mut t: usize = 0;
    while t < n && pos < data.len()
        invariant
            n == old_ps.len(),
            old_ps == old(passes)@,
            z == Seq::new(8, |i: int| 0i32),
            ts == terms(old_ps),
            passes@.len() == n,
            t <= n,
            pos <= data@.len(),
            forall|kk: int| 0 <= kk < n ==> {
                let p = #[trigger] passes@[kk];
                let q = old_ps[kk];
                &&& p.term == q.term
                &&& p.delta == q.delta
                &&& p.weight_a == q.weight_a
                &&& p.weight_b == q.weight_b
                &&& kk < n - t ==> p.samples_a@ == z && p.samples_b@ == z
            },
            forall|kk: int| 0 <= kk < n ==> term_ok(#[trigger] old_ps[kk].term, false),
            total == load_histories(ts, histories(passes@), data@, mono, t as nat, pos as int),
            total == load_histories(ts, zero_histories(n as nat), data@, mono, 0, 0),
        decreases n - t,
    {
        let idx = n - 1 - t;
        let mut p = passes[idx];
        let term = p.term;
        let nb: usize = if term > 8 {
            if mono { 4 } else { 8 }
        } else if term < 0 {
            4
        } else if mono {
            2 * (term as usize)
        } else {
            4 * (term as usize)
        };
        assert(nb == history_bytes(term, mono));
        if nb > data.len() - pos {
            return Err(Error::BadSubBlock { id: 0x04 });
        }
        let ghost hs0 = histories(passes@);
        load_history(&mut p, data, pos, mono);
        passes.set(idx, p);
        proof {
            assert(histories(passes@) =~= hs0.update(idx as int, loaded_history(term, data@, pos as int, mono)));
        }
        pos = pos + nb;
        t = t + 1;
    }
    if pos == data.len() {
        Ok(())
    } else {
        Err(Error::BadSubBlock { id: 0x04 })
    }
}


/// Predicting one channel's sample at position `i` with a term in 1..=8:
/// (weight, history, residual). The history keeps the samples themselves.
#[verifier::opaque]
pub open spec fn predict(term: i32, delta: i32, w: i32, h: Seq<i32>, i: int, x: i32) -> (i32, Seq<i32>, i32) {
    let m = i % 8;
    let k = (i + term) % 8;
    let sam = h[m];
    let res = i32_specs::wrapping_sub(x, apply_weight(w, sam));
    (update_weight(w, delta, sam, res), h.update(k, x), res)
}

/// Predicting a mono channel over samples `i..` of `xs`.
pub open spec fn mono_fwd_run(term: i32, delta: i32, w: i32, h: Seq<i32>, xs: Seq<i32>, i: nat) -> (i32, Seq<i32>, Seq<i32>)
    decreases xs.len() - i,
{
    if i >= xs.len() {
        (w, h, Seq::empty())
    } else {
        let (w1, h1, r) = predict(term, delta, w, h, i as int, xs[i as int]);
        let (w2, h2, rest) = mono_fwd_run(term, delta, w1, h1, xs, i + 1);
        (w2, h2, seq![r] + rest)
    }
}

/// Predicting a stereo pair of channels over frames `j..` of `xs`.
pub open spec fn stereo_fwd_run(term: i32, delta: i32, st: PassState, xs: Seq<i32>, j: nat) -> (PassState, Seq<i32>)
    decreases xs.len() / 2 - j,
{
    if j >= xs.len() / 2 {
        (st, Seq::empty())
    } else {
        let (wa, ha, l) = predict(term, delta, st.0, st.2, j as int, xs[2 * j as int]);
        let (wb, hb, r) = predict(term, delta, st.1, st.3, j as int, xs[2 * j as int + 1]);
        let (st2, rest) = stereo_fwd_run(term, delta, (wa, wb, ha, hb), xs, j + 1);
        (st2, seq![l, r] + rest)
    }
}

fn predict_exec(term: i32, delta: i32, w: i32, h: &mut [i32; 8], i: usize, x: i32) -> (r: (i32, i32))
    requires
        1 <= term <= 8,
    ensures
        (r.0, final(h)@, r.1) == predict(term, delta, w, old(h)@, i as int, x),
{
    proof {
        reveal(predict);
    }
    let m = i % 8;
    let k = (i % 8 + (term as usize)) % 8;
    assert(k == (i + term) % 8);
    let sam = h[m];
    let res = x.wrapping_sub(apply_weight_exec(w, sam));
    let w2 = update_weight_exec(w, delta, sam, res);
    h[k] = x;
    assert(h@ =~= old(h)@.update(k as int, x));
    (w2, res)
}

/// Apply a mono pass with a term in 1..=8 in place: each sample becomes its
/// residual against the weighted sample `term` positions back.
pub fn forward_decorr_mono_pass(pass: &mut DecorrPass, buffer: &mut [i32])
    requires
        1 <= old(pass).term <= 8,
    ensures
        ({
            let p = *old(pass);
            let (w, h, out) = mono_fwd_run(p.term, p.delta, p.weight_a, p.samples_a@, old(buffer)@, 0);
            &&& final(buffer)@ == out
            &&& final(pass).term == p.term
            &&& final(pass).delta == p.delta
            &&& final(pass).weight_a == w
            &&& final(pass).weight_b == p.weight_b
            &&& final(pass).samples_a@ == settle(p.term, h, out.len() as int)
            &&& final(pass).samples_b == p.samples_b
        }),
{
    let ghost p0 = *pass;
    let ghost xs = buffer@;
    let ghost total = mono_fwd_run(p0.term, p0.delta, p0.weight_a, p0.samples_a@, xs, 0);
    let term = pass.term;
    let delta = pass.delta;
    let mut weight = pass.weight_a;
    let n = buffer.len();
    let mut i: usize = 0;
    while i < n
        invariant
            n == xs.len(),
            buffer@.len() == n,
            i <= n,
            term == p0.term,
            delta == p0.delta,
            1 <= term <= 8,
            pass.term == term,
            pass.delta == delta,
            pass.weight_b == p0.weight_b,
            pass.samples_b == p0.samples_b,
            buffer@.skip(i as int) == xs.skip(i as int),
            total == mono_fwd_run(p0.term, p0.delta, p0.weight_a, p0.samples_a@, xs, 0),
            ({
                let cur = mono_fwd_run(term, delta, weight, pass.samples_a@, xs, i as nat);
                &&& total.0 == cur.0
                &&& total.1 == cur.1
                &&& total.2 == buffer@.take(i as int) + cur.2
            }),
        decreases n - i,
    {
        let x = buffer[i];
        let ghost before = buffer@;
        proof {
            assert(x == xs[i as int]) by {
                assert(before.skip(i as int)[0] == xs.skip(i as int)[0]);
            }
        }
        let (w2, res) = predict_exec(term, delta, weight, &mut pass.samples_a, i, x);
        weight = w2;
        buffer[i] = res;
        proof {
            assert(buffer@.take(i as int + 1) =~= before.take(i as int) + seq![res]);
            assert(buffer@.skip(i as int + 1) =~= before.skip(i as int).skip(1));
            assert(xs.skip(i as int + 1) =~= xs.skip(i as int).skip(1));
        }
        i = i + 1;
    }
    pass.weight_a = weight;
    let ghost h = pass.samples_a@;
    rotate_history(&mut pass.samples_a, n % 8);
    proof {
        assert(buffer@.take(n as int) =~= buffer@);
        assert(pass.samples_a@ =~= settle(term, h, n as int));
    }
}

/// Apply a stereo pass with a term in 1..=8 in place to both channels of
/// the interleaved frames.
pub fn forward_decorr_stereo_pass(pass: &mut DecorrPass, buffer: &mut [i32])
    requires
        1 <= old(pass).term <= 8,
    ensures
        ({
            let p = *old(pass);
            let (st, out) = stereo_fwd_run(p.term, p.delta, pass_state(p), old(buffer)@, 0);
            let n = old(buffer)@.len() / 2;
            &&& final(buffer)@ == out + old(buffer)@.skip(2 * n as int)
            &&& final(pass).term == p.term
            &&& final(pass).delta == p.delta
            &&& final(pass).weight_a == st.0
            &&& final(pass).weight_b == st.1
            &&& final(pass).samples_a@ == settle(p.term, st.2, n as int)
            &&& final(pass).samples_b@ == settle(p.term, st.3, n as int)
        }),
{
    let ghost p0 = *pass;
    let ghost xs = buffer@;
    let ghost total = stereo_fwd_run(p0.term, p0.delta, pass_state(p0), xs, 0);
    let term = pass.term;
    let delta = pass.delta;
    let blen = buffer.len();
    let nframes = blen / 2;
    let mut j: usize = 0;
    while j < nframes
        invariant
            blen == xs.len(),
            nframes == xs.len() / 2,
            2 * nframes <= xs.len(),
            buffer@.len() == xs.len(),
            j <= nframes,
            term == p0.term,
            delta == p0.delta,
            1 <= term <= 8,
            pass.term == term,
            pass.delta == delta,
            buffer@.skip(2 * j) == xs.skip(2 * j),
            total == stereo_fwd_run(p0.term, p0.delta, pass_state(p0), xs, 0),
            ({
                let cur = stereo_fwd_run(term, delta, pass_state(*pass), xs, j as nat);
                &&& total.0 == cur.0
                &&& total.1 == buffer@.take(2 * j) + cur.1
            }),
        decreases nframes - j,
    {
        let ghost before = buffer@;
        let l = buffer[2 * j];
        let r = buffer[2 * j + 1];
        proof {
            assert(l == xs[2 * j as int]) by {
                assert(before.skip(2 * j as int)[0] == xs.skip(2 * j as int)[0]);
            }
            assert(r == xs[2 * j + 1]) by {
                assert(before.skip(2 * j as int)[1] == xs.skip(2 * j as int)[1]);
            }
        }
        let (wa, l2) = predict_exec(term, delta, pass.weight_a, &mut pass.samples_a, j, l);
        let (wb, r2) = predict_exec(term, delta, pass.weight_b, &mut pass.samples_b, j, r);
        pass.weight_a = wa;
        pass.weight_b = wb;
        buffer[2 * j] = l2;
        buffer[2 * j + 1] = r2;
        proof {
            assert(buffer@.take(2 * j + 2) =~= before.take(2 * j as int) + seq![l2, r2]);
            assert(buffer@.skip(2 * j + 2) =~= before.skip(2 * j as int).skip(2));
            assert(xs.skip(2 * j + 2) =~= xs.skip(2 * j as int).skip(2));
        }
        j = j + 1;
    }
    settle_histories(pass, nframes);
    proof {
        assert(buffer@ =~= buffer@.take(2 * nframes as int) + xs.skip(2 * nframes as int));
    }
}

/// Undoing a prediction restores the sample, the weight and the history.
pub proof fn lemma_unpredict_predict(term: i32, delta: i32, w: i32, h: Seq<i32>, i: int, x: i32)
    requires
        1 <= term <= 8,
    ensures
        ({
            let (w1, h1, r) = predict(term, delta, w, h, i, x);
            unpredict(term, delta, w, h, i, r) == (w1, h1, x)
        }),
{
    reveal(unpredict);
    reveal(predict);
    let sam = h[i % 8];
    let a = apply_weight(w, sam);
    assert(i32_specs::wrapping_add(a, i32_specs::wrapping_sub(x, a)) == x);
}

/// Undoing a mono pass over what the forward pass produced gives back the
/// samples and the same final state.
pub proof fn lemma_mono_roundtrip(term: i32, delta: i32, w: i32, h: Seq<i32>, xs: Seq<i32>, rs: Seq<i32>, i: nat)
    requires
        1 <= term <= 8,
        rs.len() == xs.len(),
        i <= xs.len(),
        rs.skip(i as int) == mono_fwd_run(term, delta, w, h, xs, i).2,
    ensures
        ({
            let (w2, h2, _) = mono_fwd_run(term, delta, w, h, xs, i);
            mono_run(term, delta, w, h, rs, i) == (w2, h2, xs.skip(i as int))
        }),
    decreases xs.len() - i,
{
    if i < xs.len() {
        let (w1, h1, r) = predict(term, delta, w, h, i as int, xs[i as int]);
        lemma_unpredict_predict(term, delta, w, h, i as int, xs[i as int]);
        let rest = mono_fwd_run(term, delta, w1, h1, xs, i + 1);
        assert(rs.skip(i as int)[0] == r);
        assert(rs[i as int] == r);
        assert(rs.skip(i + 1 as int) =~= rs.skip(i as int).skip(1));
        assert((seq![r] + rest.2).skip(1) =~= rest.2);
        lemma_mono_roundtrip(term, delta, w1, h1, xs, rs, i + 1);
        assert(xs.skip(i as int) =~= seq![xs[i as int]] + xs.skip(i + 1 as int));
    } else {
        assert(xs.skip(i as int) =~= Seq::<i32>::empty());
    }
}

/// Undoing a stereo pass over what the forward pass produced gives back the
/// samples and the same final state.
pub proof fn lemma_stereo_roundtrip(term: i32, delta: i32, st: PassState, xs: Seq<i32>, rs: Seq<i32>, j: nat)
    requires
        1 <= term <= 8,
        rs.len() == xs.len(),
        j <= xs.len() / 2,
        rs.skip(2 * j as int).take(2 * (xs.len() / 2 - j)) == stereo_fwd_run(term, delta, st, xs, j).1,
    ensures
        ({
            let (st2, _) = stereo_fwd_run(term, delta, st, xs, j);
            stereo_run(term, delta, st, rs, j) == (st2, xs.subrange(2 * j as int, 2 * (xs.len() / 2) as int))
        }),
    decreases xs.len() / 2 - j,
{
    let n = xs.len() / 2;
    if j < n {
        let l = xs[2 * j as int];
        let r = xs[2 * j as int + 1];
        let (wa, ha, l2) = predict(term, delta, st.0, st.2, j as int, l);
        let (wb, hb, r2) = predict(term, delta, st.1, st.3, j as int, r);
        lemma_unpredict_predict(term, delta, st.0, st.2, j as int, l);
        lemma_unpredict_predict(term, delta, st.1, st.3, j as int, r);
        let seg = rs.skip(2 * j as int).take(2 * (n - j));
        assert(seg[0] == l2);
        assert(seg[1] == r2);
        assert(rs[2 * j as int] == l2);
        assert(rs[2 * j as int + 1] == r2);
        let rest = stereo_fwd_run(term, delta, (wa, wb, ha, hb), xs, j + 1);
        assert(rs.skip(2 * (j + 1) as int).take(2 * (n - (j + 1))) =~= seg.skip(2));
        assert((seq![l2, r2] + rest.1).skip(2) =~= rest.1);
        lemma_stereo_roundtrip(term, delta, (wa, wb, ha, hb), xs, rs, j + 1);
        assert(xs.subrange(2 * j as int, 2 * n as int) =~= seq![l, r] + xs.subrange(2 * (j + 1) as int, 2 * n as int));
    } else {
        assert(xs.subrange(2 * j as int, 2 * n as int) =~= Seq::<i32>::empty());
    }
}

/// Undoing a mono pass keeps the samples' count.
pub proof fn lemma_mono_run_len(term: i32, delta: i32, w: i32, h: Seq<i32>, xs: Seq<i32>, i: nat)
    requires
        i <= xs.len(),
    ensures
        mono_run(term, delta, w, h, xs, i).2.len() == xs.len() - i,
    decreases xs.len() - i,
{
    if i < xs.len() {
        let (w1, h1, v) = unpredict(term, delta, w, h, i as int, xs[i as int]);
        lemma_mono_run_len(term, delta, w1, h1, xs, i + 1);
    }
}

/// Undoing a stereo pass yields every whole frame.
pub proof fn lemma_stereo_run_len(term: i32, delta: i32, st: PassState, xs: Seq<i32>, j: nat)
    requires
        j <= xs.len() / 2,
    ensures
        stereo_run(term, delta, st, xs, j).1.len() == 2 * (xs.len() / 2 - j),
    decreases xs.len() / 2 - j,
{
    if j < xs.len() / 2 {
        let (st1, l, r) = stereo_step(term, delta, st, j as int, xs[2 * j as int], xs[2 * j as int + 1]);
        lemma_stereo_run_len(term, delta, st1, xs, j + 1);
    }
}

/// The forward mono pass keeps the samples' count.
pub proof fn lemma_mono_fwd_len(term: i32, delta: i32, w: i32, h: Seq<i32>, xs: Seq<i32>, i: nat)
    requires
        i <= xs.len(),
    ensures
        mono_fwd_run(term, delta, w, h, xs, i).2.len() == xs.len() - i,
    decreases xs.len() - i,
{
    if i < xs.len() {
        let (w1, h1, r) = predict(term, delta, w, h, i as int, xs[i as int]);
        lemma_mono_fwd_len(term, delta, w1, h1, xs, i + 1);
    }
}

/// The forward stereo pass yields every whole frame.
pub proof fn lemma_stereo_fwd_len(term: i32, delta: i32, st: PassState, xs: Seq<i32>, j: nat)
    requires
        j <= xs.len() / 2,
    ensures
        stereo_fwd_run(term, delta, st, xs, j).1.len() == 2 * (xs.len() / 2 - j),
    decreases xs.len() / 2 - j,
{
    if j < xs.len() / 2 {
        let (wa, ha, l) = predict(term, delta, st.0, st.2, j as int, xs[2 * j as int]);
        let (wb, hb, r) = predict(term, delta, st.1, st.3, j as int, xs[2 * j as int + 1]);
        lemma_stereo_fwd_len(term, delta, (wa, wb, ha, hb), xs, j + 1);
    }
}

} // verus!
