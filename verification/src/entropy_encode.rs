//! The entropy encoder: the exact inverse of `entropy`'s decoder. It tracks
//! the decoder's state sample by sample and writes the bits that lead the
//! decoder to each sample, looking one sample ahead for the carried bit.

use vstd::prelude::*;
use vstd::wrapping::u32_specs;
use crate::bitstream::{
    BitWriter, at, enc_code, enc_egc, enc_ones, lemma_at_bit, lemma_at_split, lemma_code_roundtrip,
    lemma_egc_roundtrip, lemma_enc_code_len, lemma_enc_egc_len, lemma_enc_ones_len, lemma_ones_count_roundtrip,
    lemma_p2_values, sbit,
};
use crate::entropy::{
    CoderModel, LIMIT_ONES, Medians, chan, chan_of, coded_step, fresh_model, lemma_med_get_bound,
    med_dec, med_get, meds, run_mode, sample_value, word_step, words_run, zone, with_chan,
};

verus! {

/// The magnitude code of a sample: its value, or its one's complement when
/// negative.
pub open spec fn fold(x: i32) -> u32 {
    if x < 0 {
        (!x) as u32
    } else {
        x as u32
    }
}

/// The unary zone a magnitude falls in under medians `m`.
pub open spec fn zone_of(m: (u32, u32, u32), v: u32) -> u32 {
    let g0 = med_get(m.0) as int;
    let g1 = med_get(m.1) as int;
    let g2 = med_get(m.2) as int;
    if v < g0 {
        0
    } else if v < g0 + g1 {
        1
    } else if v < g0 + g1 + g2 {
        2
    } else {
        (2 + (v - g0 - g1) / g2) as u32
    }
}

/// The number of consecutive zero samples from `j` on.
pub open spec fn zero_run_len(xs: Seq<i32>, j: int) -> nat
    decreases xs.len() - j,
{
    if 0 <= j < xs.len() && xs[j] == 0 {
        1 + zero_run_len(xs, j + 1)
    } else {
        0
    }
}

/// The bit carried into the next sample's code: 1 when that sample's ones
/// count is at least 1 (0 after the last sample).
pub open spec fn next_bit(s1: CoderModel, xs: Seq<i32>, j: int, mono: bool) -> u32 {
    if j + 1 < xs.len() && fold(xs[j + 1]) >= med_get(chan(s1, chan_of(j + 1, mono)).0) {
        1
    } else {
        0
    }
}

/// The bits of sample `j` coded through its zone, and the state after it.
pub open spec fn enc_coded(s: CoderModel, xs: Seq<i32>, j: int, mono: bool) -> (Seq<bool>, CoderModel) {
    let ch = chan_of(j, mono);
    let x = xs[j];
    let v = fold(x);
    let m = chan(s, ch);
    let k = zone_of(m, v);
    let (low, high, m2) = zone(m, k);
    let s1 = with_chan(s, ch, m2);
    let nb = next_bit(s1, xs, j, mono);
    let raw = 2 * (k - s.holding_one) + nb;
    (
        enc_ones(raw as nat, LIMIT_ONES as nat) + enc_code((v - low) as nat, (high - low) as nat)
            + seq![x < 0],
        CoderModel { holding_one: nb, holding_zero: nb == 0, ..s1 },
    )
}

/// The bits of sample `j` and the state after it: the counterpart of
/// `word_step`.
#[verifier::opaque]
pub open spec fn enc_step(s: CoderModel, xs: Seq<i32>, j: int, mono: bool) -> (Seq<bool>, CoderModel) {
    let ch = chan_of(j, mono);
    if s.holding_zero {
        let x = xs[j];
        let m = chan(s, ch);
        (
            enc_code(fold(x) as nat, (med_get(m.0) - 1) as nat) + seq![x < 0],
            CoderModel {
                holding_zero: false,
                ..with_chan(s, ch, (crate::entropy::med_dec(m.0, 128), m.1, m.2))
            },
        )
    } else if run_mode(s) {
        if s.zeros_acc > 0 {
            let acc = (s.zeros_acc - 1) as u32;
            if acc > 0 {
                (Seq::empty(), CoderModel { zeros_acc: acc, ..s })
            } else {
                enc_coded(CoderModel { zeros_acc: 0, ..s }, xs, j, mono)
            }
        } else {
            let z = zero_run_len(xs, j);
            if z > 0 {
                (
                    enc_egc(z),
                    CoderModel {
                        zeros_acc: z as u32,
                        c0: (0u32, 0u32, 0u32),
                        c1: (0u32, 0u32, 0u32),
                        ..s
                    },
                )
            } else {
                let (b, s2) = enc_coded(s, xs, j, mono);
                (enc_egc(0) + b, s2)
            }
        }
    } else {
        enc_coded(s, xs, j, mono)
    }
}

/// The bits of samples `j..` and the final state.
pub open spec fn enc_run(s: CoderModel, xs: Seq<i32>, j: nat, mono: bool) -> (Seq<bool>, CoderModel)
    decreases xs.len() - j,
{
    if j >= xs.len() {
        (Seq::empty(), s)
    } else {
        let (b, s1) = enc_step(s, xs, j as int, mono);
        let (rest, s2) = enc_run(s1, xs, j + 1, mono);
        (b + rest, s2)
    }
}

/// What the encoder's state promises about the samples from `j` on: the
/// carried bit matches sample `j`, and a pending zero run covers zeros.
pub open spec fn enc_inv(s: CoderModel, xs: Seq<i32>, j: int, mono: bool) -> bool {
    &&& 0 <= j <= xs.len()
    &&& xs.len() <= u32::MAX
    &&& s.holding_one <= 1
    &&& s.holding_zero ==> s.holding_one == 0 && s.zeros_acc == 0
    &&& (j < xs.len() && s.holding_zero) ==> fold(xs[j]) < med_get(chan(s, chan_of(j, mono)).0)
    &&& (j < xs.len() && s.holding_one == 1) ==> fold(xs[j]) >= med_get(
        chan(s, chan_of(j, mono)).0,
    )
    &&& s.zeros_acc > 0 ==> {
        &&& run_mode(s)
        &&& j + s.zeros_acc - 1 <= xs.len()
        &&& forall|i: int| 0 <= i < s.zeros_acc - 1 ==> #[trigger] xs[j + i] == 0
    }
}

pub proof fn lemma_fold(x: i32)
    ensures
        fold(x) < 0x8000_0000,
        crate::entropy::sample_value(fold(x), if x < 0 { 1nat } else { 0nat }) == x,
{
    if x < 0 {
        assert(x < 0 ==> ((!x) as u32) < 0x8000_0000 && !(((!x) as u32) as i32) == x) by (bit_vector);
    } else {
        assert(x >= 0 ==> (x as u32) < 0x8000_0000 && ((x as u32) as i32) == x) by (bit_vector);
    }
}

/// The zone chosen for a magnitude brackets it, without any wrap-around in
/// the decoder's arithmetic.
pub proof fn lemma_zone_of(m: (u32, u32, u32), v: u32)
    requires
        v < 0x8000_0000,
    ensures
        ({
            let k = zone_of(m, v);
            let (low, high, m2) = zone(m, k);
            &&& low <= v <= high
            &&& high - low < 0x1000_0000
            &&& u32_specs::wrapping_sub(high, low) & 0x7fff_ffffu32 == high - low
            &&& (k >= 1 <==> v >= med_get(m.0))
            &&& k <= v
        }),
{
    let g0 = med_get(m.0);
    let g1 = med_get(m.1);
    let g2 = med_get(m.2);
    lemma_med_get_bound(m.0);
    lemma_med_get_bound(m.1);
    lemma_med_get_bound(m.2);
    let k = zone_of(m, v);
    let (low, high, m2) = zone(m, k);
    if v >= g0 + g1 + g2 {
        let d = v - g0 - g1;
        let q = d / (g2 as int);
        assert(q * g2 <= d && d < q * g2 + g2 && q >= 1) by (nonlinear_arith)
            requires
                q == d / (g2 as int),
                g2 >= 1,
                d >= g2,
        ;
        assert(q <= d) by (nonlinear_arith)
            requires
                q * g2 <= d,
                g2 >= 1,
                q >= 1,
        ;
        assert(k == 2 + q);
        assert(u32_specs::wrapping_mul((k - 2) as u32, g2) == q * g2) by (nonlinear_arith)
            requires
                (k - 2) as u32 == q,
                0 <= q * g2 <= d,
                d < 0x8000_0000,
        ;
    }
    let diff = (high - low) as u32;
    assert(diff < 0x1000_0000 ==> diff & 0x7fff_ffffu32 == diff) by (bit_vector);
}

/// The entropy encoder: the decoder's state, advanced in step with the
/// samples it writes.
pub struct WordsEncoder {
    c: [Medians; 2],
    holding_one: u32,
    holding_zero: bool,
    zeros_acc: u32,
}

impl View for WordsEncoder {
    type V = CoderModel;

    closed spec fn view(&self) -> CoderModel {
        CoderModel {
            c0: meds(self.c[0]),
            c1: meds(self.c[1]),
            holding_one: self.holding_one,
            holding_zero: self.holding_zero,
            zeros_acc: self.zeros_acc,
        }
    }
}

/// The magnitude code of a sample (see `fold`).
fn fold_exec(x: i32) -> (r: u32)
    ensures
        r == fold(x),
{
    if x < 0 {
        (!x) as u32
    } else {
        x as u32
    }
}

/// Pick the zone of magnitude `v` and advance the medians as coding in it
/// does: (zone, low, high).
fn zone_for(med: &mut Medians, v: u32) -> (r: (u32, u32, u32))
    requires
        v < 0x8000_0000,
    ensures
        r.0 == zone_of(meds(*old(med)), v),
        (r.1, r.2, meds(*final(med))) == zone(meds(*old(med)), r.0),
{
    let ghost m = meds(*med);
    proof {
        lemma_zone_of(m, v);
    }
    let g0 = med.get(0);
    let g1 = med.get(1);
    let g2 = med.get(2);
    if v < g0 {
        med.dec0();
        (0, 0, g0 - 1)
    } else if v - g0 < g1 {
        med.inc0();
        med.dec1();
        (1, g0, g0.wrapping_add(g1).wrapping_sub(1))
    } else if v - g0 - g1 < g2 {
        med.inc0();
        med.inc1();
        med.dec2();
        let low = g0.wrapping_add(g1);
        (2, low, low.wrapping_add(g2).wrapping_sub(1))
    } else {
        let k = 2 + (v - g0 - g1) / g2;
        let low = g0.wrapping_add(g1).wrapping_add((k - 2).wrapping_mul(g2));
        med.inc0();
        med.inc1();
        med.inc2();
        (k, low, low.wrapping_add(g2).wrapping_sub(1))
    }
}

impl WordsEncoder {
    /// An encoder whose medians all start at zero.
    pub fn new() -> (r: Self)
        ensures
            r@ == fresh_model((0u32, 0u32, 0u32), (0u32, 0u32, 0u32)),
    {
        WordsEncoder {
            c: [Medians::zero(), Medians::zero()],
            holding_one: 0,
            holding_zero: false,
            zeros_acc: 0,
        }
    }

    /// The `ID_ENTROPY_VARS` payload for the starting medians: a zero log
    /// for each (6 bytes mono, 12 stereo); `wp_exp2s(0)` is 0.
    pub fn entropy_vars(mono: bool) -> (r: Vec<u8>)
        ensures
            r@.len() == (if mono { 6int } else { 12int }),
            forall|i: int| 0 <= i < r@.len() ==> r@[i] == 0,
    {
        let n: usize = if mono { 6 } else { 12 };
        let mut v: Vec<u8> = Vec::new();
        let mut i: usize = 0;
        while i < n
            invariant
                i <= n,
                v@.len() == i,
                forall|k: int| 0 <= k < i ==> v@[k] == 0,
            decreases n - i,
        {
            v.push(0);
            i = i + 1;
        }
        v
    }

    /// Write sample `j` through its zone (see `enc_coded`).
    #[verifier::rlimit(40)]
    fn coded(&mut self, bw: &mut BitWriter, xs: &[i32], j: usize, mono: bool)
        requires
            j < xs@.len() <= u32::MAX,
            old(self)@.holding_one <= 1,
            old(self)@.holding_one == 1 ==> fold(xs@[j as int]) >= med_get(
                chan(old(self)@, chan_of(j as int, mono)).0,
            ),
        ensures
            final(bw)@ == old(bw)@ + enc_coded(old(self)@, xs@, j as int, mono).0,
            final(self)@ == enc_coded(old(self)@, xs@, j as int, mono).1,
    {
        let ch: usize = if mono { 0 } else { j % 2 };
        let x = xs[j];
        let v = fold_exec(x);
        let ghost s0 = self@;
        let ghost m = chan(s0, ch as int);
        proof {
            lemma_fold(x);
            lemma_zone_of(m, v);
        }
        let (k, low, high) = zone_for(&mut self.c[ch], v);
        let ghost s1 = self@;
        assert(s1 == with_chan(s0, ch as int, zone(m, k).2));
        let nb: u32 = if j + 1 < xs.len() {
            let ch1: usize = if mono { 0 } else { (j + 1) % 2 };
            if fold_exec(xs[j + 1]) >= self.c[ch1].get(0) {
                1
            } else {
                0
            }
        } else {
            0
        };
        assert(nb == next_bit(s1, xs@, j as int, mono));
        let raw: u32 = 2 * (k - self.holding_one) + nb;
        let ghost b0 = bw@;
        bw.write_ones_count(raw, LIMIT_ONES);
        bw.write_code(v - low, high - low);
        bw.putbit(x < 0);
        self.holding_one = nb;
        self.holding_zero = nb == 0;
        proof {
            let e1 = enc_ones(raw as nat, LIMIT_ONES as nat);
            let e2 = enc_code((v - low) as nat, (high - low) as nat);
            assert(bw@ =~= b0 + (e1 + e2 + seq![x < 0]));
        }
    }

    /// Write sample `j` (see `enc_step`).
    fn encode_sample(&mut self, bw: &mut BitWriter, xs: &[i32], j: usize, mono: bool)
        requires
            enc_inv(old(self)@, xs@, j as int, mono),
            j < xs@.len(),
        ensures
            final(bw)@ == old(bw)@ + enc_step(old(self)@, xs@, j as int, mono).0,
            final(self)@ == enc_step(old(self)@, xs@, j as int, mono).1,
    {
        proof {
            reveal(enc_step);
        }
        let ch: usize = if mono { 0 } else { j % 2 };
        if self.holding_zero {
            let x = xs[j];
            let v = fold_exec(x);
            self.holding_zero = false;
            let max = self.c[ch].get(0) - 1;
            bw.write_code(v, max);
            self.c[ch].dec0();
            bw.putbit(x < 0);
            assert(final(bw)@ =~= old(bw)@ + enc_step(old(self)@, xs@, j as int, mono).0);
        } else if self.c[0].median[0] < 2 && self.holding_one == 0 && self.c[1].median[0] < 2 {
            if self.zeros_acc > 0 {
                self.zeros_acc = self.zeros_acc - 1;
                if self.zeros_acc > 0 {
                    assert(final(bw)@ =~= old(bw)@ + Seq::<bool>::empty());
                    return;
                }
                self.coded(bw, xs, j, mono);
            } else {
                let z = zero_run(xs, j);
                if z > 0 {
                    bw.write_egc(z);
                    self.zeros_acc = z;
                    self.c[0] = Medians::zero();
                    self.c[1] = Medians::zero();
                } else {
                    bw.write_egc(0);
                    self.coded(bw, xs, j, mono);
                    assert(final(bw)@ =~= old(bw)@ + enc_step(old(self)@, xs@, j as int, mono).0);
                }
            }
        } else {
            self.coded(bw, xs, j, mono);
        }
    }

    /// Entropy-code `nframes` frames of residuals (one sample each mono, two
    /// interleaved stereo).
    pub fn send_words_lossless(&mut self, bw: &mut BitWriter, residuals: &[i32], nframes: u32, mono: bool)
        requires
            residuals@.len() == (if mono { nframes as int } else { 2 * nframes }),
            enc_inv(old(self)@, residuals@, 0, mono),
        ensures
            final(bw)@ == old(bw)@ + enc_run(old(self)@, residuals@, 0, mono).0,
            final(self)@ == enc_run(old(self)@, residuals@, 0, mono).1,
    {
        let ghost s0 = self@;
        let ghost xs = residuals@;
        let ghost b0 = bw@;
        let n = residuals.len();
        let mut j: usize = 0;
        while j < n
            invariant
                n == xs.len(),
                residuals@ == xs,
                j <= n,
                enc_inv(self@, xs, j as int, mono),
                b0 + enc_run(s0, xs, 0, mono).0 == bw@ + enc_run(self@, xs, j as nat, mono).0,
                enc_run(s0, xs, 0, mono).1 == enc_run(self@, xs, j as nat, mono).1,
            decreases n - j,
        {
            let ghost s = self@;
            let ghost bb = bw@;
            proof {
                let e = enc_step(s, xs, j as int, mono).0;
                assert(e.subrange(0, e.len() as int) =~= e);
                lemma_step_roundtrip(s, xs, j as int, mono, e, 0);
            }
            self.encode_sample(bw, residuals, j, mono);
            proof {
                let e = enc_step(s, xs, j as int, mono).0;
                let rest = enc_run(self@, xs, (j + 1) as nat, mono).0;
                assert(bb + (e + rest) =~= (bb + e) + rest);
            }
            j = j + 1;
        }
        assert(bw@ + Seq::<bool>::empty() =~= bw@);
    }
}

/// The number of zero samples from `j` on (see `zero_run_len`).
fn zero_run(xs: &[i32], j: usize) -> (r: u32)
    requires
        j <= xs@.len() <= u32::MAX,
    ensures
        r == zero_run_len(xs@, j as int),
{
    let mut k = j;
    while k < xs.len() && xs[k] == 0
        invariant
            j <= k <= xs@.len() <= u32::MAX,
            zero_run_len(xs@, j as int) == (k - j) + zero_run_len(xs@, k as int),
        decreases xs@.len() - k,
    {
        k = k + 1;
    }
    (k - j) as u32
}

/// The sign bit read back after a magnitude gives the sample.
proof fn lemma_sign_bit(bs: Seq<bool>, p: int, x: i32)
    requires
        at(bs, p, seq![x < 0]),
    ensures
        sample_value(fold(x), sbit(bs, p)) == x,
{
    lemma_at_bit(bs, p, seq![x < 0], 0);
    lemma_fold(x);
}

/// Decoding what `enc_coded` wrote gives the sample and the encoder's state.
pub proof fn lemma_coded_roundtrip(s: CoderModel, xs: Seq<i32>, j: int, mono: bool, bs: Seq<bool>, p: int)
    requires
        0 <= j < xs.len() <= u32::MAX,
        s.holding_one <= 1,
        s.holding_one == 1 ==> fold(xs[j]) >= med_get(chan(s, chan_of(j, mono)).0),
        s.zeros_acc == 0,
        at(bs, p, enc_coded(s, xs, j, mono).0),
    ensures
        coded_step(s, bs, p, chan_of(j, mono)) == (Some(xs[j]), enc_coded(s, xs, j, mono).1, p + enc_coded(s, xs, j, mono).0.len()),
        enc_inv(enc_coded(s, xs, j, mono).1, xs, j + 1, mono),
{
    let ch = chan_of(j, mono);
    let x = xs[j];
    let v = fold(x);
    let m = chan(s, ch);
    lemma_fold(x);
    lemma_zone_of(m, v);
    let k = zone_of(m, v);
    let (low, high, m2) = zone(m, k);
    let s1 = with_chan(s, ch, m2);
    let nb = next_bit(s1, xs, j, mono);
    let raw = 2 * (k - s.holding_one) + nb;
    let e1 = enc_ones(raw as nat, LIMIT_ONES as nat);
    let e2 = enc_code((v - low) as nat, (high - low) as nat);
    lemma_at_split(bs, p, e1 + e2, seq![x < 0]);
    lemma_at_split(bs, p, e1, e2);
    lemma_ones_count_roundtrip(bs, p, raw as nat, LIMIT_ONES as nat);
    let p1 = p + e1.len();
    assert(ones_count_raw(bs, p) == raw);
    assert((raw as u32) % 2 == nb);
    assert(u32_specs::wrapping_add((raw as u32) / 2, s.holding_one) == k);
    lemma_code_roundtrip(bs, p1, (v - low) as nat, (high - low) as nat);
    let p2 = p1 + e2.len();
    assert(u32_specs::wrapping_add(low, (v - low) as u32) == v);
    lemma_sign_bit(bs, p2, x);
    let s2 = enc_coded(s, xs, j, mono).1;
    assert(forall|c: int| chan(s2, c) == chan(s1, c));
}

/// The ones count read at `p`, as a plain number (for the proofs).
spec fn ones_count_raw(bs: Seq<bool>, p: int) -> nat {
    match crate::bitstream::ones_count_read(bs, p, LIMIT_ONES as nat).0 {
        Some(r) => r as nat,
        None => 0,
    }
}


proof fn lemma_zero_run(xs: Seq<i32>, j: int)
    requires
        0 <= j <= xs.len(),
    ensures
        j + zero_run_len(xs, j) <= xs.len(),
        forall|i: int| 0 <= i < zero_run_len(xs, j) ==> #[trigger] xs[j + i] == 0,
    decreases xs.len() - j,
{
    if j < xs.len() && xs[j] == 0 {
        lemma_zero_run(xs, j + 1);
        assert forall|i: int| 0 <= i < zero_run_len(xs, j) implies #[trigger] xs[j + i] == 0 by {
            if i > 0 {
                assert(xs[(j + 1) + (i - 1)] == 0);
            }
        }
    }
}

/// Decoding what `enc_step` wrote gives the sample and the encoder's state,
/// and the encoder's promises carry over to the next sample.
pub proof fn lemma_step_roundtrip(s: CoderModel, xs: Seq<i32>, j: int, mono: bool, bs: Seq<bool>, p: int)
    requires
        enc_inv(s, xs, j, mono),
        j < xs.len(),
        at(bs, p, enc_step(s, xs, j, mono).0),
    ensures
        word_step(s, bs, p, chan_of(j, mono)) == (Some(xs[j]), enc_step(s, xs, j, mono).1, p + enc_step(s, xs, j, mono).0.len()),
        enc_inv(enc_step(s, xs, j, mono).1, xs, j + 1, mono),
{
    reveal(word_step);
    reveal(enc_step);
    let ch = chan_of(j, mono);
    let x = xs[j];
    if s.holding_zero {
        let m = chan(s, ch);
        let e1 = enc_code(fold(x) as nat, (med_get(m.0) - 1) as nat);
        lemma_med_get_bound(m.0);
        lemma_fold(x);
        lemma_at_split(bs, p, e1, seq![x < 0]);
        lemma_code_roundtrip(bs, p, fold(x) as nat, (med_get(m.0) - 1) as nat);
        lemma_sign_bit(bs, p + e1.len(), x);
    } else if run_mode(s) {
        if s.zeros_acc > 0 {
            let acc = (s.zeros_acc - 1) as u32;
            if acc > 0 {
                assert(xs[j + 0] == 0);
                let s1 = CoderModel { zeros_acc: acc, ..s };
                assert forall|i: int| 0 <= i < s1.zeros_acc - 1 implies #[trigger] xs[(j + 1) + i] == 0 by {
                    assert(xs[j + (i + 1)] == 0);
                }
            } else {
                lemma_coded_roundtrip(CoderModel { zeros_acc: 0, ..s }, xs, j, mono, bs, p);
            }
        } else {
            let z = zero_run_len(xs, j);
            lemma_zero_run(xs, j);
            if z > 0 {
                lemma_egc_roundtrip(bs, p, z);
                assert(xs[j + 0] == 0);
                let s1 = enc_step(s, xs, j, mono).1;
                assert forall|i: int| 0 <= i < s1.zeros_acc - 1 implies #[trigger] xs[(j + 1) + i] == 0 by {
                    assert(xs[j + (i + 1)] == 0);
                }
            } else {
                let (b, s2) = enc_coded(s, xs, j, mono);
                lemma_at_split(bs, p, enc_egc(0), b);
                lemma_egc_roundtrip(bs, p, 0);
                lemma_coded_roundtrip(s, xs, j, mono, bs, p + enc_egc(0).len());
            }
        }
    } else {
        lemma_coded_roundtrip(s, xs, j, mono, bs, p);
    }
}

/// Decoding all that the encoder wrote for samples `j..` gives back exactly
/// those samples.
pub proof fn lemma_run_roundtrip(s: CoderModel, xs: Seq<i32>, j: nat, mono: bool, bs: Seq<bool>, p: int)
    requires
        enc_inv(s, xs, j as int, mono),
        at(bs, p, enc_run(s, xs, j, mono).0),
    ensures
        words_run(s, bs, p, j, xs.len(), mono) == (xs.subrange(j as int, xs.len() as int), enc_run(s, xs, j, mono).1, p + enc_run(s, xs, j, mono).0.len()),
    decreases xs.len() - j,
{
    if j < xs.len() {
        let (b, s1) = enc_step(s, xs, j as int, mono);
        let (rest, s2) = enc_run(s1, xs, j + 1, mono);
        lemma_at_split(bs, p, b, rest);
        lemma_step_roundtrip(s, xs, j as int, mono, bs, p);
        lemma_run_roundtrip(s1, xs, j + 1, mono, bs, p + b.len());
        assert(xs.subrange(j as int, xs.len() as int) =~= seq![xs[j as int]] + xs.subrange(j + 1 as int, xs.len() as int));
    } else {
        assert(xs.subrange(j as int, xs.len() as int) =~= Seq::<i32>::empty());
    }
}

/// A zero run never reaches past the samples.
proof fn lemma_zero_run_bound(xs: Seq<i32>, j: int)
    requires
        0 <= j <= xs.len(),
    ensures
        zero_run_len(xs, j) <= xs.len() - j,
    decreases xs.len() - j,
{
    if j < xs.len() {
        lemma_zero_run_bound(xs, j + 1);
    }
}

/// A sample coded through its zone takes at most 111 bits.
proof fn lemma_enc_coded_len(s: CoderModel, xs: Seq<i32>, j: int, mono: bool)
    requires
        0 <= j < xs.len(),
        s.holding_one <= 1,
        s.holding_one == 1 ==> fold(xs[j]) >= med_get(chan(s, chan_of(j, mono)).0),
    ensures
        enc_coded(s, xs, j, mono).0.len() <= 111,
{
    let ch = chan_of(j, mono);
    let x = xs[j];
    let v = fold(x);
    let m = chan(s, ch);
    lemma_fold(x);
    lemma_zone_of(m, v);
    let k = zone_of(m, v);
    let (low, high, m2) = zone(m, k);
    let s1 = with_chan(s, ch, m2);
    let nb = next_bit(s1, xs, j, mono);
    let raw = 2 * (k - s.holding_one) + nb;
    lemma_p2_values();
    lemma_enc_ones_len(raw as nat, LIMIT_ONES as nat, 32);
    lemma_enc_code_len((v - low) as nat, (high - low) as nat, 28);
}

/// Each sample's bits number at most 128.
proof fn lemma_enc_step_len(s: CoderModel, xs: Seq<i32>, j: int, mono: bool)
    requires
        enc_inv(s, xs, j, mono),
        j < xs.len(),
    ensures
        enc_step(s, xs, j, mono).0.len() <= 128,
{
    reveal(enc_step);
    let ch = chan_of(j, mono);
    lemma_p2_values();
    if s.holding_zero {
        let m = chan(s, ch);
        lemma_med_get_bound(m.0);
        lemma_enc_code_len(fold(xs[j]) as nat, (med_get(m.0) - 1) as nat, 28);
    } else if run_mode(s) {
        if s.zeros_acc > 0 {
            if s.zeros_acc - 1 == 0 {
                lemma_enc_coded_len(CoderModel { zeros_acc: 0, ..s }, xs, j, mono);
            }
        } else {
            let z = zero_run_len(xs, j);
            lemma_zero_run_bound(xs, j);
            if z > 0 {
                lemma_enc_egc_len(z, 32);
            } else {
                lemma_enc_egc_len(0, 0);
                lemma_enc_coded_len(s, xs, j, mono);
            }
        }
    } else {
        lemma_enc_coded_len(s, xs, j, mono);
    }
}

/// The encoder writes at most 128 bits per sample.
pub proof fn lemma_enc_run_len(s: CoderModel, xs: Seq<i32>, j: nat, mono: bool)
    requires
        enc_inv(s, xs, j as int, mono),
    ensures
        enc_run(s, xs, j, mono).0.len() <= 128 * (xs.len() - j),
    decreases xs.len() - j,
{
    if j < xs.len() {
        let (b, s1) = enc_step(s, xs, j as int, mono);
        assert(b.subrange(0, b.len() as int) =~= b);
        lemma_step_roundtrip(s, xs, j as int, mono, b, 0);
        lemma_enc_step_len(s, xs, j as int, mono);
        lemma_enc_run_len(s1, xs, j + 1, mono);
    }
}

} // verus!
