//! The median-adaptive entropy coder (WavPack's Rice variation), lossless
//! path only, and the `wp_exp2s` log2 expansion it is initialized with.

use vstd::prelude::*;
use vstd::arithmetic::div_mod::{lemma_div_by_multiple, lemma_div_denominator, lemma_div_is_ordered};
use vstd::arithmetic::mul::lemma_mul_inequality;
use vstd::arithmetic::power2::{lemma2_to64, lemma_pow2_adds, lemma_pow2_pos, lemma_pow2_strictly_increases, pow2};
use vstd::bits::{lemma_u32_shl_is_mul, lemma_u32_shr_is_div};
use vstd::wrapping::u32_specs;
use crate::bitstream::{BitReader, code_read, egc_read, ones_count_read, sbit};
use crate::error::Error;

verus! {

/// The fractional part of `2^x` for `x` in 1/256 steps, as 8-bit mantissas.
pub const EXP2_TABLE: [u8; 256] = [
    0x00, 0x01, 0x01, 0x02, 0x03, 0x03, 0x04, 0x05, 0x06, 0x06, 0x07, 0x08, 0x08, 0x09, 0x0a,
    0x0b, 0x0b, 0x0c, 0x0d, 0x0e, 0x0e, 0x0f, 0x10, 0x10, 0x11, 0x12, 0x13, 0x13, 0x14, 0x15,
    0x16, 0x16, 0x17, 0x18, 0x19, 0x19, 0x1a, 0x1b, 0x1c, 0x1d, 0x1d, 0x1e, 0x1f, 0x20, 0x20,
    0x21, 0x22, 0x23, 0x24, 0x24, 0x25, 0x26, 0x27, 0x28, 0x28, 0x29, 0x2a, 0x2b, 0x2c, 0x2c,
    0x2d, 0x2e, 0x2f, 0x30, 0x30, 0x31, 0x32, 0x33, 0x34, 0x35, 0x35, 0x36, 0x37, 0x38, 0x39,
    0x3a, 0x3a, 0x3b, 0x3c, 0x3d, 0x3e, 0x3f, 0x40, 0x41, 0x41, 0x42, 0x43, 0x44, 0x45, 0x46,
    0x47, 0x48, 0x48, 0x49, 0x4a, 0x4b, 0x4c, 0x4d, 0x4e, 0x4f, 0x50, 0x51, 0x51, 0x52, 0x53,
    0x54, 0x55, 0x56, 0x57, 0x58, 0x59, 0x5a, 0x5b, 0x5c, 0x5d, 0x5e, 0x5e, 0x5f, 0x60, 0x61,
    0x62, 0x63, 0x64, 0x65, 0x66, 0x67, 0x68, 0x69, 0x6a, 0x6b, 0x6c, 0x6d, 0x6e, 0x6f, 0x70,
    0x71, 0x72, 0x73, 0x74, 0x75, 0x76, 0x77, 0x78, 0x79, 0x7a, 0x7b, 0x7c, 0x7d, 0x7e, 0x7f,
    0x80, 0x81, 0x82, 0x83, 0x84, 0x85, 0x87, 0x88, 0x89, 0x8a, 0x8b, 0x8c, 0x8d, 0x8e, 0x8f,
    0x90, 0x91, 0x92, 0x93, 0x95, 0x96, 0x97, 0x98, 0x99, 0x9a, 0x9b, 0x9c, 0x9d, 0x9f, 0xa0,
    0xa1, 0xa2, 0xa3, 0xa4, 0xa5, 0xa6, 0xa8, 0xa9, 0xaa, 0xab, 0xac, 0xad, 0xaf, 0xb0, 0xb1,
    0xb2, 0xb3, 0xb4, 0xb6, 0xb7, 0xb8, 0xb9, 0xba, 0xbc, 0xbd, 0xbe, 0xbf, 0xc0, 0xc2, 0xc3,
    0xc4, 0xc5, 0xc6, 0xc8, 0xc9, 0xca, 0xcb, 0xcd, 0xce, 0xcf, 0xd0, 0xd2, 0xd3, 0xd4, 0xd6,
    0xd7, 0xd8, 0xd9, 0xdb, 0xdc, 0xdd, 0xde, 0xe0, 0xe1, 0xe2, 0xe4, 0xe5, 0xe6, 0xe8, 0xe9,
    0xea, 0xec, 0xed, 0xee, 0xf0, 0xf1, 0xf2, 0xf4, 0xf5, 0xf6, 0xf8, 0xf9, 0xfa, 0xfc, 0xfd,
    0xff,
];

/// `wp_exp2s` on a non-negative log: a 9-bit mantissa from the table,
/// shifted by the integer part of the log.
pub open spec fn exp2s_nonneg(log: i32) -> i32 {
    let value: u32 = (EXP2_TABLE[(log & 0xff) as int] as u32) | 0x100u32;
    let e: i32 = log >> 8u32;
    if e <= 9 {
        (value >> ((9 - e) as u32)) as i32
    } else {
        (value << (((e - 9) as u32) & 0x1fu32)) as i32
    }
}

/// Negation mirrors: a negated log expands to the negated expansion.
pub proof fn lemma_exp2s_odd(log: i32)
    requires
        0 < log,
    ensures
        exp2s_spec(-log as i32) == -exp2s_spec(log),
{
}

/// The table of mantissas is nondecreasing.
proof fn lemma_table_sorted(i: int, j: int)
    requires
        0 <= i <= j < 256,
    ensures
        EXP2_TABLE[i] <= EXP2_TABLE[j],
    decreases j - i,
{
    assert(forall|k: int| 0 <= k < 255 ==> #[trigger] EXP2_TABLE[k] <= EXP2_TABLE[k + 1]);
    if i < j {
        lemma_table_sorted(i, j - 1);
    }
}

/// The exact value behind `exp2s_nonneg(log)`, times 512: the 9-bit
/// mantissa (table entry plus 256) times 2^(log / 256).
spec fn exp2s_scaled(log: int) -> nat {
    (EXP2_TABLE[log % 256] as nat + 256) * pow2((log / 256) as nat)
}

/// `pow2` does not decrease.
proof fn lemma_pow2_le(a: nat, b: nat)
    requires
        a <= b,
    ensures
        pow2(a) <= pow2(b),
{
    if a < b {
        lemma_pow2_strictly_increases(a, b);
    }
}

/// On logs below 8192 the expansion is the scaled value over 512, rounded
/// down.
proof fn lemma_exp2s_scaled(log: i32)
    requires
        0 <= log < 8192,
    ensures
        exp2s_nonneg(log) as int == exp2s_scaled(log as int) / 512,
{
    let li = log as int;
    let t = EXP2_TABLE[(log & 0xff) as int] as u32;
    let e: i32 = log >> 8u32;
    let k: u32 = (e - 9) as u32;
    assert((0 <= log ==> (log & 0xffi32) == log % 256 && (log >> 8u32) == log / 256) && (t < 256 ==> (t | 0x100u32)
        == t + 256) && (k < 32 ==> k & 0x1fu32 == k)) by (bit_vector);
    let v: u32 = t | 0x100u32;
    let en = (li / 256) as nat;
    assert(v == EXP2_TABLE[li % 256] as nat + 256);
    assert(en <= 31);
    lemma2_to64();
    lemma_pow2_pos(en);
    if e <= 9 {
        let sh = (9 - e) as u32;
        lemma_u32_shr_is_div(v, sh);
        lemma_pow2_adds(en, sh as nat);
        lemma_pow2_pos(sh as nat);
        assert(en + sh as nat == 9);
        lemma_div_denominator((v * pow2(en)) as int, pow2(en) as int, pow2(sh as nat) as int);
        lemma_div_by_multiple(v as int, pow2(en) as int);
        assert((v * pow2(en)) as int == v as int * pow2(en) as int);
        assert(v as int * pow2(en) as int == pow2(en) as int * v as int) by (nonlinear_arith);
    } else {
        let kn = k as nat;
        assert(kn == en - 9);
        lemma_pow2_le(kn, 22);
        assert(v * pow2(kn) <= 511 * 0x400000) by (nonlinear_arith)
            requires
                v <= 511,
                pow2(kn) <= 0x400000,
        ;
        lemma_u32_shl_is_mul(v, k);
        lemma_pow2_adds(kn, 9);
        assert(v * pow2(en) == (v * pow2(kn)) * 512) by (nonlinear_arith)
            requires
                pow2(en) == pow2(kn) * 512,
        ;
        lemma_div_by_multiple((v * pow2(kn)) as int, 512);
    }
}

/// On logs 0 to 8191 the expansion never decreases and stays within
/// 0x7fc0_0000.
pub proof fn lemma_exp2s_monotone(a: i32, b: i32)
    requires
        0 <= a <= b < 8192,
    ensures
        0 <= exp2s_spec(a) <= exp2s_spec(b) <= 0x7fc0_0000,
{
    lemma_exp2s_scaled(a);
    lemma_exp2s_scaled(b);
    let ai = a as int;
    let bi = b as int;
    let ea = (ai / 256) as nat;
    let eb = (bi / 256) as nat;
    let va = EXP2_TABLE[ai % 256] as nat + 256;
    let vb = EXP2_TABLE[bi % 256] as nat + 256;
    lemma2_to64();
    if ea == eb {
        lemma_table_sorted(ai % 256, bi % 256);
        lemma_mul_inequality(va as int, vb as int, pow2(ea) as int);
    } else {
        assert(ea < eb);
        lemma_pow2_le(ea + 1, eb);
        lemma_pow2_adds(ea, 1);
        assert(va * pow2(ea) <= vb * pow2(eb)) by (nonlinear_arith)
            requires
                va <= 511,
                vb >= 256,
                pow2(ea + 1) == pow2(ea) * 2,
                pow2(ea + 1) <= pow2(eb),
        ;
    }
    lemma_div_is_ordered(exp2s_scaled(ai) as int, exp2s_scaled(bi) as int, 512);
    lemma_pow2_le(eb, 31);
    assert(vb * pow2(eb) <= 0x7fc0_0000 * 512) by (nonlinear_arith)
        requires
            vb <= 511,
            pow2(eb) <= 0x8000_0000,
    ;
    lemma_div_is_ordered(exp2s_scaled(bi) as int, 0x7fc0_0000int * 512, 512);
}

/// A zero log expands to zero.
pub proof fn lemma_exp2s_zero()
    ensures
        exp2s_nonneg(0) == 0,
{
    assert(0i32 & 0xffi32 == 0 && 0i32 >> 8u32 == 0 && (0u32 | 0x100u32) >> 9u32 == 0) by (bit_vector);
    assert(EXP2_TABLE[0] == 0);
}

/// `wp_exp2s`: expand a signed fixed-point (8 fraction bits) log2 value back
/// to a 32-bit integer; a negative log gives the negated expansion.
pub open spec fn exp2s_spec(log: i32) -> int {
    if log < 0 {
        -(exp2s_nonneg(-log as i32) as int)
    } else {
        exp2s_nonneg(log) as int
    }
}

/// The inputs on which `wp_exp2s` does not overflow a negation.
pub open spec fn exp2s_defined(log: i32) -> bool {
    log != i32::MIN && (log < 0 ==> exp2s_nonneg(-log as i32) != i32::MIN)
}

pub(crate) fn exp2s_nonneg_exec(log: i32) -> (r: i32)
    requires
        log >= 0,
    ensures
        r == exp2s_nonneg(log),
{
    assert(0 <= log & 0xff < 256) by (bit_vector);
    let value: u32 = (EXP2_TABLE[(log & 0xff) as usize] as u32) | 0x100u32;
    let e: i32 = log >> 8u32;
    assert(log >= 0 ==> log >> 8u32 >= 0) by (bit_vector);
    if e <= 9 {
        (value >> ((9 - e) as u32)) as i32
    } else {
        let sh: u32 = ((e - 9) as u32) & 0x1fu32;
        assert(((e - 9) as u32) & 0x1fu32 < 32) by (bit_vector);
        (value << sh) as i32
    }
}

/// `wp_exp2s`: table-driven 2^(log/256), negation mirrored.
pub fn wp_exp2s(log: i32) -> (r: i32)
    requires
        exp2s_defined(log),
    ensures
        r as int == exp2s_spec(log),
{
    if log < 0 {
        let p = exp2s_nonneg_exec(-log);
        -p
    } else {
        exp2s_nonneg_exec(log)
    }
}


/// The unary count at which the ones count escapes to an Elias-gamma count.
pub const LIMIT_ONES: u32 = 16;
pub const DIV0: u32 = 128;
pub const DIV1: u32 = 64;
pub const DIV2: u32 = 32;

/// `GET_MED`: a median's breakpoint (medians are stored times 16), at least 1.
pub open spec fn med_get(m: u32) -> u32 {
    ((m >> 4u32) + 1) as u32
}

pub proof fn lemma_med_get_bound(m: u32)
    ensures
        1 <= med_get(m) <= 0x1000_0000,
{
    assert(m >> 4u32 <= 0x0fff_ffff) by (bit_vector);
}

/// `INC_MED`: raise a median by about 5/`div` (modulo 2^32).
pub open spec fn med_inc(m: u32, div: u32) -> u32 {
    u32_specs::wrapping_add(m, ((u32_specs::wrapping_add(m, div) / div) * 5) as u32)
}

/// `DEC_MED`: lower a median by about 2/`div`.
pub open spec fn med_dec(m: u32, div: u32) -> u32 {
    (m - (u32_specs::wrapping_add(m, (div - 2) as u32) / div) * 2) as u32
}

proof fn lemma_med_dec_ok(m: u32, div: u32)
    requires
        div == 128 || div == 64 || div == 32,
    ensures
        (u32_specs::wrapping_add(m, (div - 2) as u32) / div) * 2 <= m,
{
    let q = u32_specs::wrapping_add(m, (div - 2) as u32) / div;
    if m + div - 2 <= u32::MAX {
        assert(q * div <= m + div - 2) by (nonlinear_arith)
            requires
                q == (m + div - 2) / (div as int),
                div > 0,
        ;
        if m >= 2 {
            assert(q * 2 <= m) by (nonlinear_arith)
                requires
                    q * div <= m + div - 2,
                    div >= 32,
                    m >= 2,
            ;
        } else {
            assert(q == 0) by (nonlinear_arith)
                requires
                    q * div <= m + div - 2,
                    div >= 32,
                    m < 2,
            ;
        }
    } else {
        assert(q == 0) by (nonlinear_arith)
            requires
                q == (m + div - 2 - 0x1_0000_0000) / (div as int),
                m + div - 2 > u32::MAX,
                m <= u32::MAX,
                div >= 32,
        ;
    }
}

/// One channel's three medians, each stored times 16.
#[derive(Clone, Copy, Debug)]
pub struct Medians {
    pub median: [u32; 3],
}

impl Default for Medians {
    /// All three medians at zero.
    fn default() -> (r: Medians)
        ensures
            meds(r) == (0u32, 0u32, 0u32),
    {
        Medians::zero()
    }
}

/// A channel's medians as a plain triple.
pub open spec fn meds(m: Medians) -> (u32, u32, u32) {
    (m.median[0], m.median[1], m.median[2])
}

impl Medians {
    /// All three medians at zero.
    pub fn zero() -> (r: Medians)
        ensures
            meds(r) == (0u32, 0u32, 0u32),
    {
        Medians { median: [0u32; 3] }
    }

    /// `GET_MED`: the current breakpoint of median `i`.
    pub(crate) fn get(&self, i: usize) -> (r: u32)
        requires
            i < 3,
        ensures
            r == med_get(self.median[i as int]),
            1 <= r <= 0x1000_0000,
    {
        let m = self.median[i];
        assert(m >> 4u32 <= 0x0fff_ffff) by (bit_vector);
        (m >> 4) + 1
    }

    pub(crate) fn inc0(&mut self)
        ensures
            meds(*final(self)) == (med_inc(old(self).median[0], DIV0), old(self).median[1], old(
                self,
            ).median[2]),
    {
        let m = self.median[0];
        self.median[0] = m.wrapping_add((m.wrapping_add(DIV0) / DIV0) * 5);
    }

    pub(crate) fn dec0(&mut self)
        ensures
            meds(*final(self)) == (med_dec(old(self).median[0], DIV0), old(self).median[1], old(
                self,
            ).median[2]),
    {
        let m = self.median[0];
        proof {
            lemma_med_dec_ok(m, DIV0);
        }
        self.median[0] = m - (m.wrapping_add(DIV0 - 2) / DIV0) * 2;
    }

    pub(crate) fn inc1(&mut self)
        ensures
            meds(*final(self)) == (old(self).median[0], med_inc(old(self).median[1], DIV1), old(
                self,
            ).median[2]),
    {
        let m = self.median[1];
        self.median[1] = m.wrapping_add((m.wrapping_add(DIV1) / DIV1) * 5);
    }

    pub(crate) fn dec1(&mut self)
        ensures
            meds(*final(self)) == (old(self).median[0], med_dec(old(self).median[1], DIV1), old(
                self,
            ).median[2]),
    {
        let m = self.median[1];
        proof {
            lemma_med_dec_ok(m, DIV1);
        }
        self.median[1] = m - (m.wrapping_add(DIV1 - 2) / DIV1) * 2;
    }

    pub(crate) fn inc2(&mut self)
        ensures
            meds(*final(self)) == (old(self).median[0], old(self).median[1], med_inc(
                old(self).median[2],
                DIV2,
            )),
    {
        let m = self.median[2];
        self.median[2] = m.wrapping_add((m.wrapping_add(DIV2) / DIV2) * 5);
    }

    pub(crate) fn dec2(&mut self)
        ensures
            meds(*final(self)) == (old(self).median[0], old(self).median[1], med_dec(
                old(self).median[2],
                DIV2,
            )),
    {
        let m = self.median[2];
        proof {
            lemma_med_dec_ok(m, DIV2);
        }
        self.median[2] = m - (m.wrapping_add(DIV2 - 2) / DIV2) * 2;
    }
}

/// The entropy coder's state as plain values: both channels' medians, the
/// one-bit carry between adjacent unary codes, and the zero-run counter.
pub struct CoderModel {
    pub c0: (u32, u32, u32),
    pub c1: (u32, u32, u32),
    pub holding_one: u32,
    pub holding_zero: bool,
    pub zeros_acc: u32,
}

/// The medians of channel `ch`.
pub open spec fn chan(s: CoderModel, ch: int) -> (u32, u32, u32) {
    if ch == 0 {
        s.c0
    } else {
        s.c1
    }
}

/// Replace the medians of channel `ch`.
pub open spec fn with_chan(s: CoderModel, ch: int, m: (u32, u32, u32)) -> CoderModel {
    if ch == 0 {
        CoderModel { c0: m, ..s }
    } else {
        CoderModel { c1: m, ..s }
    }
}

/// Zero runs are coded when both first medians are below 2 and no one-bit
/// is carried.
pub open spec fn run_mode(s: CoderModel) -> bool {
    s.c0.0 < 2 && s.holding_one == 0 && s.c1.0 < 2
}

/// The sample for a magnitude code and a sign bit: negative samples are
/// stored as their one's complement.
pub open spec fn sample_value(low: u32, sign: nat) -> i32 {
    if sign == 1 {
        !(low as i32)
    } else {
        low as i32
    }
}

/// The code range of zone `k` and the medians after coding in it:
/// (low, high, medians').
pub open spec fn zone(m: (u32, u32, u32), k: u32) -> (u32, u32, (u32, u32, u32)) {
    let g0 = med_get(m.0);
    let g1 = med_get(m.1);
    let g2 = med_get(m.2);
    if k == 0 {
        (0, (g0 - 1) as u32, (med_dec(m.0, 128), m.1, m.2))
    } else if k == 1 {
        (g0, u32_specs::wrapping_sub(u32_specs::wrapping_add(g0, g1), 1), (med_inc(m.0, 128), med_dec(m.1, 64), m.2))
    } else {
        let base = u32_specs::wrapping_add(g0, g1);
        if k == 2 {
            (base, u32_specs::wrapping_sub(u32_specs::wrapping_add(base, g2), 1), (med_inc(m.0, 128), med_inc(m.1, 64), med_dec(m.2, 32)))
        } else {
            let low = u32_specs::wrapping_add(base, u32_specs::wrapping_mul((k - 2) as u32, g2));
            (low, u32_specs::wrapping_sub(u32_specs::wrapping_add(low, g2), 1), (med_inc(m.0, 128), med_inc(m.1, 64), med_inc(m.2, 32)))
        }
    }
}

/// Decoding a sample through its unary zone count: the ones count (with the
/// carried bit), the position inside the zone, and the sign.
pub open spec fn coded_step(s: CoderModel, bs: Seq<bool>, p: int, ch: int) -> (Option<i32>, CoderModel, int) {
    let (r, p1) = ones_count_read(bs, p, LIMIT_ONES as nat);
    match r {
        None => (None, s, p1),
        Some(raw) => {
            let carry = s.holding_one;
            let ho = raw % 2;
            let k = u32_specs::wrapping_add(raw / 2, carry);
            let (low, high, m2) = zone(chan(s, ch), k);
            let maxcode = u32_specs::wrapping_sub(high, low) & 0x7fff_ffffu32;
            let (code, p2) = code_read(bs, p1, maxcode as nat);
            let v = u32_specs::wrapping_add(low, code as u32);
            let s2 = CoderModel { holding_one: ho, holding_zero: ho == 0, ..with_chan(s, ch, m2) };
            (Some(sample_value(v, sbit(bs, p2))), s2, p2 + 1)
        },
    }
}

/// Decoding one sample of channel `ch` at bit position `p`: the sample
/// (`None` where the stream breaks off), the next state and position.
#[verifier::opaque]
pub open spec fn word_step(s: CoderModel, bs: Seq<bool>, p: int, ch: int) -> (Option<i32>, CoderModel, int) {
    if s.holding_zero {
        let m = chan(s, ch);
        let (low, p1) = code_read(bs, p, (med_get(m.0) - 1) as nat);
        let s1 = CoderModel { holding_zero: false, ..with_chan(s, ch, (med_dec(m.0, 128), m.1, m.2)) };
        (Some(sample_value(low as u32, sbit(bs, p1))), s1, p1 + 1)
    } else if run_mode(s) {
        if s.zeros_acc > 0 {
            let acc = (s.zeros_acc - 1) as u32;
            if acc > 0 {
                (Some(0i32), CoderModel { zeros_acc: acc, ..s }, p)
            } else {
                coded_step(CoderModel { zeros_acc: 0, ..s }, bs, p, ch)
            }
        } else {
            let (e, p1) = egc_read(bs, p);
            match e {
                None => (None, s, p1),
                Some(n) => if n > 0 {
                    (Some(0i32), CoderModel { zeros_acc: n as u32, c0: (0u32, 0u32, 0u32), c1: (0u32, 0u32, 0u32), ..s }, p1)
                } else {
                    coded_step(s, bs, p1, ch)
                },
            }
        }
    } else {
        coded_step(s, bs, p, ch)
    }
}

/// The channel of sample `j`: stereo samples alternate left/right.
pub open spec fn chan_of(j: int, mono: bool) -> int {
    if mono {
        0
    } else {
        j % 2
    }
}

/// Decoding samples `j..n`, stopping where the stream breaks off: the
/// samples, the final state and position.
pub open spec fn words_run(s: CoderModel, bs: Seq<bool>, p: int, j: nat, n: nat, mono: bool) -> (Seq<i32>, CoderModel, int)
    decreases n - j,
{
    if j >= n {
        (Seq::empty(), s, p)
    } else {
        let (x, s1, p1) = word_step(s, bs, p, chan_of(j as int, mono));
        match x {
            None => (Seq::empty(), s1, p1),
            Some(v) => {
                let (rest, s2, p2) = words_run(s1, bs, p1, j + 1, n, mono);
                (seq![v] + rest, s2, p2)
            },
        }
    }
}

/// The little-endian 16-bit log at byte `o`, expanded: the initial median.
pub open spec fn initial_median(data: Seq<u8>, o: int) -> u32 {
    exp2s_nonneg((data[o] as nat + data[o + 1] as nat * 256) as i32) as u32
}

/// Each initial median is `wp_exp2s` of the full little-endian 16-bit log
/// at its offset: the table entry of the low byte, plus 256, times two to
/// the high byte, over 512 (for high bytes below 32, where nothing wraps).
pub proof fn lemma_initial_median(data: Seq<u8>, o: int)
    requires
        0 <= o,
        o + 2 <= data.len(),
        data[o + 1] < 32,
    ensures
        initial_median(data, o) as int == exp2s_spec((data[o] as int + 256 * data[o + 1] as int) as i32),
        initial_median(data, o) as int == (EXP2_TABLE[data[o] as int] as int + 256) * pow2(data[o + 1] as nat) as int / 512,
{
    let log = (data[o] as int + 256 * data[o + 1] as int) as i32;
    assert(log as int == data[o] as int + 256 * data[o + 1] as int);
    assert(log as int % 256 == data[o] as int && log as int / 256 == data[o + 1] as int);
    lemma_exp2s_scaled(log);
    lemma_exp2s_monotone(log, log);
    assert((data[o] as nat + data[o + 1] as nat * 256) as i32 == log);
}

/// Decoder state shared across one block's samples (both channels).
pub struct WordsDecoder {
    pub c: [Medians; 2],
    holding_one: u32,
    holding_zero: bool,
    zeros_acc: u32,
}

impl View for WordsDecoder {
    type V = CoderModel;

    closed spec fn view(&self) -> CoderModel {
        CoderModel {
            c0: meds(self.c[0]),
            c1: meds(self.c[1]),
            holding_one: self.holding_one,
            holding_zero: self.holding_zero,
            zeros_acc: self.zeros_acc,
        }
    }
}

/// The state a block's decoding starts from: the given medians, nothing
/// carried, no zero run.
pub open spec fn fresh_model(c0: (u32, u32, u32), c1: (u32, u32, u32)) -> CoderModel {
    CoderModel { c0, c1, holding_one: 0, holding_zero: false, zeros_acc: 0 }
}

impl WordsDecoder {
    /// Both channels' medians: the ones the decoder's state (its view)
    /// speaks of.
    pub fn medians(&self) -> (r: [Medians; 2])
        ensures
            meds(r[0]) == self@.c0,
            meds(r[1]) == self@.c1,
    {
        self.c
    }

    /// Initialize from an `ID_ENTROPY_VARS` payload: three little-endian u16
    /// log2 medians per channel (6 bytes mono, 12 stereo), expanded by
    /// `wp_exp2s`. Any other length is `BadSubBlock { id: 5 }`.
    pub fn from_entropy_vars(data: &[u8], mono: bool) -> (r: Result<Self, Error>)
        ensures
            data@.len() != (if mono { 6int } else { 12int }) ==> r == Err::<Self, Error>(Error::BadSubBlock { id: 0x05 }),
            data@.len() == (if mono { 6int } else { 12int }) ==> (r matches Ok(d) && d@ == fresh_model(
                (initial_median(data@, 0), initial_median(data@, 2), initial_median(data@, 4)),
                if mono {
                    (0u32, 0u32, 0u32)
                } else {
                    (initial_median(data@, 6), initial_median(data@, 8), initial_median(data@, 10))
                },
            )),
    {
        let need: usize = if mono { 6 } else { 12 };
        if data.len() != need {
            return Err(Error::BadSubBlock { id: 0x05 });
        }
        let mut c = [Medians::zero(), Medians::zero()];
        let nch: usize = if mono { 1 } else { 2 };
        let mut ch: usize = 0;
        while ch < nch
            invariant
                nch == (if mono { 1usize } else { 2usize }),
                data@.len() == need,
                need == nch * 6,
                ch <= nch,
                forall|k: int| 0 <= k < ch ==> #[trigger] meds(c[k]) == (initial_median(data@, k * 6), initial_median(data@, k * 6 + 2), initial_median(data@, k * 6 + 4)),
                forall|k: int| ch <= k < 2 ==> #[trigger] meds(c[k]) == (0u32, 0u32, 0u32),
            decreases nch - ch,
        {
            let mut i: usize = 0;
            assert(meds(c[ch as int]) == (0u32, 0u32, 0u32));
            while i < 3
                invariant
                    nch == (if mono { 1usize } else { 2usize }),
                    data@.len() == need,
                    need == nch * 6,
                    ch < nch,
                    i <= 3,
                    forall|k: int| 0 <= k < ch ==> #[trigger] meds(c[k]) == (initial_median(data@, k * 6), initial_median(data@, k * 6 + 2), initial_median(data@, k * 6 + 4)),
                    forall|k: int| ch < k < 2 ==> #[trigger] meds(c[k]) == (0u32, 0u32, 0u32),
                    forall|ii: int| 0 <= ii < i ==> #[trigger] c[ch as int].median[ii] == initial_median(data@, ch * 6 + ii * 2),
                    forall|ii: int| i <= ii < 3 ==> #[trigger] c[ch as int].median[ii] == 0,
                decreases 3 - i,
            {
                let o = ch * 6 + i * 2;
                let log: u32 = (data[o] as u32) | ((data[o + 1] as u32) << 8u32);
                let b0 = data[o];
                let b1 = data[o + 1];
                assert((b0 as u32) | ((b1 as u32) << 8u32) == b0 as u32 + (b1 as u32) * 256 && (b0 as u32) | ((b1 as u32) << 8u32) < 0x10000) by (bit_vector);
                let e = wp_exp2s(log as i32);
                c[ch].median[i] = #[verifier::truncate] (e as u32);
                i = i + 1;
            }
            ch = ch + 1;
        }
        Ok(WordsDecoder { c, holding_one: 0, holding_zero: false, zeros_acc: 0 })
    }

    /// Decode a sample through its unary zone count (see `coded_step`).
    fn coded_sample(&mut self, bs: &mut BitReader<'_>, ch: usize) -> (r: Option<i32>)
        requires
            old(bs).wf(),
            ch < 2,
        ensures
            final(bs).wf(),
            final(bs).bits() == old(bs).bits(),
            (r, final(self)@, final(bs).pos() as int) == coded_step(old(self)@, old(bs).bits(), old(bs).pos() as int, ch as int),
    {
        let raw = match bs.read_ones_count(LIMIT_ONES) {
            None => return None,
            Some(r) => r,
        };
        let low_carry = self.holding_one;
        assert(raw & 1u32 == raw % 2 && raw >> 1u32 == raw / 2) by (bit_vector);
        self.holding_one = raw & 1;
        self.holding_zero = self.holding_one == 0;
        let ones_count = (raw >> 1).wrapping_add(low_carry);
        let mut low: u32;
        let high: u32;
        if ones_count == 0 {
            low = 0;
            high = self.c[ch].get(0) - 1;
            self.c[ch].dec0();
        } else {
            low = self.c[ch].get(0);
            self.c[ch].inc0();
            if ones_count == 1 {
                high = low.wrapping_add(self.c[ch].get(1)).wrapping_sub(1);
                self.c[ch].dec1();
            } else {
                low = low.wrapping_add(self.c[ch].get(1));
                self.c[ch].inc1();
                if ones_count == 2 {
                    high = low.wrapping_add(self.c[ch].get(2)).wrapping_sub(1);
                    self.c[ch].dec2();
                } else {
                    low = low.wrapping_add((ones_count - 2).wrapping_mul(self.c[ch].get(2)));
                    high = low.wrapping_add(self.c[ch].get(2)).wrapping_sub(1);
                    self.c[ch].inc2();
                }
            }
        }
        let d = high.wrapping_sub(low);
        let maxcode = d & 0x7fff_ffff;
        assert(d & 0x7fff_ffffu32 <= 0x7fff_ffff) by (bit_vector);
        let code = bs.read_code(maxcode);
        low = low.wrapping_add(code);
        let sign = bs.getbit();
        Some(if sign != 0 { !(#[verifier::truncate] (low as i32)) } else { #[verifier::truncate] (low as i32) })
    }

    /// The sample after a carried zero: its ones count is zero.
    fn held_sample(&mut self, bs: &mut BitReader<'_>, ch: usize) -> (r: Option<i32>)
        requires
            old(bs).wf(),
            ch < 2,
            old(self)@.holding_zero,
        ensures
            final(bs).wf(),
            final(bs).bits() == old(bs).bits(),
            (r, final(self)@, final(bs).pos() as int) == word_step(old(self)@, old(bs).bits(), old(bs).pos() as int, ch as int),
    {
        proof {
            reveal(word_step);
        }
        self.holding_zero = false;
        let max = self.c[ch].get(0) - 1;
        let low = bs.read_code(max);
        self.c[ch].dec0();
        let sign = bs.getbit();
        Some(if sign != 0 { !(#[verifier::truncate] (low as i32)) } else { #[verifier::truncate] (low as i32) })
    }

    /// A sample in zero-run mode: inside a run, or reading a run's length.
    fn run_sample(&mut self, bs: &mut BitReader<'_>, ch: usize) -> (r: Option<i32>)
        requires
            old(bs).wf(),
            ch < 2,
            !old(self)@.holding_zero,
            run_mode(old(self)@),
        ensures
            final(bs).wf(),
            final(bs).bits() == old(bs).bits(),
            (r, final(self)@, final(bs).pos() as int) == word_step(old(self)@, old(bs).bits(), old(bs).pos() as int, ch as int),
    {
        proof {
            reveal(word_step);
        }
        if self.zeros_acc > 0 {
            self.zeros_acc = self.zeros_acc - 1;
            if self.zeros_acc > 0 {
                return Some(0);
            }
            self.coded_sample(bs, ch)
        } else {
            match bs.read_egc_count() {
                None => None,
                Some(count) => {
                    if count > 0 {
                        self.zeros_acc = count;
                        self.c[0] = Medians::zero();
                        self.c[1] = Medians::zero();
                        Some(0)
                    } else {
                        self.coded_sample(bs, ch)
                    }
                },
            }
        }
    }

    /// Decode one sample of channel `ch` (see `word_step`).
    fn decode_sample(&mut self, bs: &mut BitReader<'_>, ch: usize) -> (r: Option<i32>)
        requires
            old(bs).wf(),
            ch < 2,
        ensures
            final(bs).wf(),
            final(bs).bits() == old(bs).bits(),
            (r, final(self)@, final(bs).pos() as int) == word_step(old(self)@, old(bs).bits(), old(bs).pos() as int, ch as int),
    {
        proof {
            reveal(word_step);
        }
        if self.holding_zero {
            self.held_sample(bs, ch)
        } else if self.c[0].median[0] < 2 && self.holding_one == 0 && self.c[1].median[0] < 2 {
            self.run_sample(bs, ch)
        } else {
            self.coded_sample(bs, ch)
        }
    }

    /// Lossless word decoding: decode `nframes` frames (one
    /// sample each mono, two interleaved stereo) into `buffer`. Returns the
    /// number of frames produced, short only where the stream breaks off.
    pub fn get_words_lossless(&mut self, bs: &mut BitReader<'_>, buffer: &mut [i32], nframes: u32, mono: bool) -> (r: u32)
        requires
            old(bs).wf(),
            mono || nframes <= u32::MAX / 2,
            old(buffer)@.len() >= (if mono { nframes as int } else { 2 * nframes }),
        ensures
            ({
                let nsamples = (if mono { nframes as nat } else { 2 * nframes as nat });
                let (xs, s2, p2) = words_run(old(self)@, old(bs).bits(), old(bs).pos() as int, 0, nsamples, mono);
                &&& final(bs).wf()
                &&& final(bs).bits() == old(bs).bits()
                &&& final(bs).pos() == p2
                &&& final(self)@ == s2
                &&& xs.len() <= nsamples
                &&& final(buffer)@ == xs + old(buffer)@.skip(xs.len() as int)
                &&& r == (if mono { xs.len() } else { xs.len() / 2 })
            }),
    {
        let nsamples: usize = (if mono { nframes } else { nframes * 2 }) as usize;
        let ghost s0 = self@;
        let ghost bits = bs.bits();
        let ghost p0 = bs.pos() as int;
        let ghost buf0 = buffer@;
        let ghost total = words_run(s0, bits, p0, 0, nsamples as nat, mono);
        let mut csamples: usize = 0;
        loop
            invariant_except_break
                bs.wf(),
                bs.bits() == bits,
                csamples <= nsamples,
                nsamples <= buf0.len(),
                buffer@.len() == buf0.len(),
                buffer@.skip(csamples as int) == buf0.skip(csamples as int),
                ({
                    let cur = words_run(self@, bits, bs.pos() as int, csamples as nat, nsamples as nat, mono);
                    &&& total.0 == buffer@.take(csamples as int) + cur.0
                    &&& total.1 == cur.1
                    &&& total.2 == cur.2
                }),
            ensures
                bs.wf(),
                bs.bits() == bits,
                csamples <= nsamples,
                buffer@.len() == buf0.len(),
                buffer@.skip(csamples as int) == buf0.skip(csamples as int),
                total.0 == buffer@.take(csamples as int),
                total.1 == self@,
                total.2 == bs.pos() as int,
            decreases nsamples - csamples,
        {
            if csamples >= nsamples {
                break;
            }
            let ch: usize = if mono { 0 } else { csamples % 2 };
            let ghost before = buffer@;
            match self.decode_sample(bs, ch) {
                None => break,
                Some(v) => {
                    buffer[csamples] = v;
                    proof {
                        assert(buffer@.take(csamples as int + 1) =~= before.take(csamples as int) + seq![v]);
                        assert(buffer@.skip(csamples as int + 1) =~= before.skip(csamples as int).skip(1));
                        assert(buf0.skip(csamples as int + 1) =~= buf0.skip(csamples as int).skip(1));
                    }
                    csamples = csamples + 1;
                },
            }
        }
        proof {
            assert(total.0 + buf0.skip(csamples as int) =~= buffer@);
        }
        (if mono { csamples } else { csamples / 2 }) as u32
    }
}

} // verus!
