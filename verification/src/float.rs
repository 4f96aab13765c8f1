//! 32-bit IEEE float reconstruction (decode half), with integer operations
//! only: the decorrelated integers are aligned mantissas, and this module
//! rebuilds each sample's exact sign/exponent/mantissa bit pattern, restoring
//! residual low bits from the `wvx` stream. The results are the float bit
//! patterns held as `i32`.

use vstd::prelude::*;
use vstd::wrapping::u32_specs;
use crate::bitstream::{BitReader, lemma_p2_mono, lemma_p2_values, p2, sbit, sbits};
use crate::error::Error;

verus! {

pub const FLOAT_SHIFT_ONES: u8 = 1;
pub const FLOAT_SHIFT_SAME: u8 = 2;
pub const FLOAT_SHIFT_SENT: u8 = 4;
pub const FLOAT_ZEROS_SENT: u8 = 8;
pub const FLOAT_NEG_ZEROS: u8 = 0x10;
pub const FLOAT_EXCEPTIONS: u8 = 0x20;

/// The `ID_FLOAT_INFO` payload (4 bytes).
#[derive(Clone, Copy, Debug)]
pub struct FloatInfo {
    pub flags: u8,
    pub shift: u8,
    pub max_exp: u8,
    /// Only used by host-side normalization, which is not applied here.
    pub norm_exp: u8,
}

impl FloatInfo {
    /// Parse the 4-byte payload; any other length is `BadSubBlock { id: 8 }`.
    pub fn parse(data: &[u8]) -> (r: Result<Self, Error>)
        ensures
            data@.len() != 4 ==> r == Err::<Self, Error>(Error::BadSubBlock { id: 0x08 }),
            data@.len() == 4 ==> (r matches Ok(i) && i.flags == data@[0] && i.shift == data@[1]
                && i.max_exp == data@[2] && i.norm_exp == data@[3]),
    {
        if data.len() != 4 {
            return Err(Error::BadSubBlock { id: 0x08 });
        }
        Ok(FloatInfo { flags: data[0], shift: data[1], max_exp: data[2], norm_exp: data[3] })
    }
}

/// Replace the 23-bit mantissa field.
pub open spec fn with_mantissa(f: u32, v: u32) -> u32 {
    (f & !0x7f_ffffu32) | (v & 0x7f_ffffu32)
}

/// Replace the 8-bit exponent field.
pub open spec fn with_exponent(f: u32, v: u32) -> u32 {
    (f & !0x7f80_0000u32) | ((v << 23u32) & 0x7f80_0000u32)
}

/// Replace the sign bit.
pub open spec fn with_sign(f: u32, v: u32) -> u32 {
    (f & !0x8000_0000u32) | ((v << 31u32) & 0x8000_0000u32)
}

pub open spec fn mantissa_of(f: u32) -> u32 {
    f & 0x7f_ffffu32
}

pub open spec fn exponent_of(f: u32) -> u32 {
    (f >> 23u32) & 0xffu32
}

pub open spec fn sign_of(f: u32) -> u32 {
    (f >> 31u32) & 1u32
}

/// Each field setter changes its own field, to the low bits of the value,
/// and leaves the other two as they were.
pub proof fn lemma_field_setters(f: u32, v: u32)
    ensures
        mantissa_of(with_mantissa(f, v)) == v & 0x7f_ffff,
        exponent_of(with_mantissa(f, v)) == exponent_of(f),
        sign_of(with_mantissa(f, v)) == sign_of(f),
        exponent_of(with_exponent(f, v)) == v & 0xff,
        mantissa_of(with_exponent(f, v)) == mantissa_of(f),
        sign_of(with_exponent(f, v)) == sign_of(f),
        sign_of(with_sign(f, v)) == v & 1,
        mantissa_of(with_sign(f, v)) == mantissa_of(f),
        exponent_of(with_sign(f, v)) == exponent_of(f),
{
    assert({
        let m = (f & !0x7f_ffffu32) | (v & 0x7f_ffffu32);
        let e = (f & !0x7f80_0000u32) | ((v << 23u32) & 0x7f80_0000u32);
        let s = (f & !0x8000_0000u32) | ((v << 31u32) & 0x8000_0000u32);
        &&& m & 0x7f_ffffu32 == v & 0x7f_ffffu32
        &&& (m >> 23u32) & 0xffu32 == (f >> 23u32) & 0xffu32
        &&& (m >> 31u32) & 1u32 == (f >> 31u32) & 1u32
        &&& (e >> 23u32) & 0xffu32 == v & 0xffu32
        &&& e & 0x7f_ffffu32 == f & 0x7f_ffffu32
        &&& (e >> 31u32) & 1u32 == (f >> 31u32) & 1u32
        &&& (s >> 31u32) & 1u32 == v & 1u32
        &&& s & 0x7f_ffffu32 == f & 0x7f_ffffu32
        &&& (s >> 23u32) & 0xffu32 == (f >> 23u32) & 0xffu32
    }) by (bit_vector);
}

fn set_mantissa(f: &mut u32, v: u32)
    ensures
        *final(f) == with_mantissa(*old(f), v),
{
    *f = (*f & !0x7fffff) | (v & 0x7fffff);
}

fn set_exponent(f: &mut u32, v: u32)
    ensures
        *final(f) == with_exponent(*old(f), v),
{
    *f = (*f & !0x7f80_0000) | ((v << 23) & 0x7f80_0000);
}

fn set_sign(f: &mut u32, v: u32)
    ensures
        *final(f) == with_sign(*old(f), v),
{
    *f = (*f & !0x8000_0000) | ((v << 31) & 0x8000_0000);
}

fn get_mantissa(f: u32) -> (r: u32)
    ensures
        r == mantissa_of(f),
{
    f & 0x7fffff
}

fn get_exponent(f: u32) -> (r: u32)
    ensures
        r == exponent_of(f),
{
    (f >> 23) & 0xff
}

fn get_sign(f: u32) -> (r: u32)
    ensures
        r == sign_of(f),
{
    (f >> 31) & 1
}

/// Shift a mantissa up until bit 23 is set, lowering the exponent, but not
/// below 1: the result (mantissa, exponent, shift count).
pub open spec fn normalize(v: u32, exp: nat, sc: nat) -> (u32, nat, nat)
    decreases exp,
{
    if v & 0x80_0000u32 != 0 || exp == 0 {
        (v, exp, sc)
    } else if exp == 1 {
        (v, 0, sc)
    } else {
        normalize(v << 1u32, (exp - 1) as nat, sc + 1)
    }
}

/// The magnitude and sign of a nonzero stored value after the stored shift.
pub open spec fn shifted_magnitude(value: i32, shift: u32) -> (u32, bool) {
    let v = (value as u32) << shift;
    if (#[verifier::truncate] (v as i32)) < 0 {
        (vstd::wrapping::i32_specs::wrapping_sub(0, v as i32) as u32, true)
    } else {
        (v, false)
    }
}

/// The count of low bits restored from the stream when `sc` bits were
/// shifted in: the zeros are implied, the rest are sent.
pub open spec fn implied_zeros(sc: u32, min_shifted_zeros: u32, max_shifted_ones: u32) -> u32 {
    let nz: u32 = if max_shifted_ones != 0 && sc > max_shifted_ones {
        (sc - max_shifted_ones) as u32
    } else {
        0
    };
    if min_shifted_zeros > nz {
        if min_shifted_zeros > sc {
            sc
        } else {
            min_shifted_zeros
        }
    } else {
        nz
    }
}

/// Restoring the `sc` low bits of a normalized mantissa: all ones, ones on a
/// stream bit, or bits sent in the stream. (mantissa, position)
pub open spec fn restore_low_bits(v: u32, sc: u32, flags: u8, mz: u32, mo: u32, bs: Seq<bool>, p: int) -> (u32, int) {
    if sc == 0 {
        (v, p)
    } else if flags & FLOAT_SHIFT_ONES != 0 {
        (v | (((1u32 << sc) - 1) as u32), p)
    } else if flags & FLOAT_SHIFT_SAME != 0 && sbit(bs, p) == 1 {
        (v | (((1u32 << sc) - 1) as u32), p + 1)
    } else {
        let p1 = if flags & FLOAT_SHIFT_SAME != 0 {
            p + 1
        } else {
            p
        };
        if flags & FLOAT_SHIFT_SENT != 0 {
            let mask = ((1u32 << sc) - 1) as u32;
            let nz = implied_zeros(sc, mz, mo);
            if sc > nz {
                let temp = sbits(bs, p1, (sc - nz) as nat) as u32;
                (v | ((temp << nz) & mask), p1 + (sc - nz))
            } else {
                (v, p1)
            }
        } else {
            (v, p1)
        }
    }
}

/// The float bits of a zero stored value: a zero, or a value sent whole in
/// the stream. (bits, position)
pub open spec fn zero_float(info: FloatInfo, bs: Seq<bool>, p: int) -> (u32, int) {
    if info.flags & FLOAT_ZEROS_SENT != 0 {
        if sbit(bs, p) == 1 {
            let o1 = with_mantissa(0, sbits(bs, p + 1, 23) as u32);
            let (o2, p2) = if info.max_exp >= 25 {
                (with_exponent(o1, sbits(bs, p + 24, 8) as u32), p + 32)
            } else {
                (o1, p + 24)
            };
            (with_sign(o2, sbit(bs, p2) as u32), p2 + 1)
        } else if info.flags & FLOAT_NEG_ZEROS != 0 {
            (with_sign(0, sbit(bs, p + 1) as u32), p + 2)
        } else {
            (0, p + 1)
        }
    } else {
        (0, p)
    }
}

/// The float bits of one stored value (see `float_values`).
pub open spec fn float_value(value: i32, info: FloatInfo, mz: u32, mo: u32, bs: Seq<bool>, p: int) -> (u32, int) {
    if value == 0 {
        zero_float(info, bs, p)
    } else {
        let (v, neg) = shifted_magnitude(value, (info.shift as u32) & 0x1fu32);
        let o0: u32 = if neg {
            with_sign(0, 1)
        } else {
            0
        };
        if v == 0x100_0000 {
            let (o1, p1) = if sbit(bs, p) == 1 {
                (with_mantissa(o0, sbits(bs, p + 1, 23) as u32), p + 24)
            } else {
                (o0, p + 1)
            };
            (with_exponent(o1, 255), p1)
        } else {
            let (v1, exp, sc) = normalize(v, info.max_exp as nat, 0);
            let (v2, p1) = restore_low_bits(v1, (sc as u32) & 0x1fu32, info.flags, mz, mo, bs, p);
            (with_exponent(with_mantissa(o0, v2), exp as u32), p1)
        }
    }
}

/// The checksum over reconstructed floats.
pub open spec fn float_crc_step(crc: u32, f: u32) -> u32 {
    u32_specs::wrapping_add(
        u32_specs::wrapping_add(
            u32_specs::wrapping_add(
                u32_specs::wrapping_mul(crc, 27),
                u32_specs::wrapping_mul(mantissa_of(f), 9),
            ),
            u32_specs::wrapping_mul(exponent_of(f), 3),
        ),
        sign_of(f),
    )
}

/// Reconstructing values `i..`: (float bits as i32, position, checksum).
pub open spec fn float_run(vals: Seq<i32>, i: nat, info: FloatInfo, mz: u32, mo: u32, bs: Seq<bool>, p: int, crc: u32) -> (Seq<i32>, int, u32)
    decreases vals.len() - i,
{
    if i >= vals.len() {
        (Seq::empty(), p, crc)
    } else {
        let (f, p1) = float_value(vals[i as int], info, mz, mo, bs, p);
        let (rest, p2, crc2) = float_run(vals, i + 1, info, mz, mo, bs, p1, float_crc_step(crc, f));
        (seq![f as i32] + rest, p2, crc2)
    }
}


/// Bit facts the float laws use: a word read as `i32` and back is itself,
/// a shift by zero changes nothing, and the zero word has no sign.
proof fn lemma_word_facts(x: u32)
    ensures
        ((x as i32) as u32) == x,
        x << 0u32 == x,
        0u32 & 0x1fu32 == 0,
        1u32 & 1u32 == 1,
        sign_of(0) == 0,
{
    assert(((x as i32) as u32) == x && x << 0u32 == x && 0u32 & 0x1fu32 == 0 && 1u32 & 1u32 == 1u32 && (0u32 >> 31u32)
        & 1u32 == 0)
        by (bit_vector);
}

/// The sign of a nonzero value's float is its own: set exactly when the
/// shifted stored value is negative.
pub proof fn lemma_float_sign(value: i32, info: FloatInfo, mz: u32, mo: u32, bs: Seq<bool>, p: int)
    requires
        value != 0,
    ensures
        sign_of(float_value(value, info, mz, mo, bs, p).0) == (if (((value as u32) << ((info.shift as u32) & 0x1fu32))
            as i32) < 0 {
            1u32
        } else {
            0u32
        }),
        sign_of(float_value_nowvx(value, info)) == (if (((value as u32) << ((info.shift as u32) & 0x1fu32)) as i32)
            < 0 {
            1u32
        } else {
            0u32
        }),
{
    lemma_word_facts(0);
    lemma_field_setters(0, 1);
    let (v, neg) = shifted_magnitude(value, (info.shift as u32) & 0x1fu32);
    let o0: u32 = if neg {
        with_sign(0, 1)
    } else {
        0
    };
    assert(sign_of(o0) == (if neg { 1u32 } else { 0u32 }));
    assert forall|w: u32, m: u32, e: u32| #[trigger] sign_of(with_exponent(with_mantissa(w, m), e)) == sign_of(w) by {
        lemma_field_setters(w, m);
        lemma_field_setters(with_mantissa(w, m), e);
    }
    assert forall|w: u32, e: u32| #[trigger] sign_of(with_exponent(w, e)) == sign_of(w) by {
        lemma_field_setters(w, e);
    }
    assert forall|w: u32, m: u32| #[trigger] sign_of(with_mantissa(w, m)) == sign_of(w) by {
        lemma_field_setters(w, m);
    }
}

/// Without a wvx stream, a stored value counts only through its shifted
/// value: shifting it first and storing it unshifted gives the same float.
pub proof fn lemma_nowvx_shift(value: i32, info: FloatInfo)
    requires
        value != 0,
        ((value as u32) << ((info.shift as u32) & 0x1fu32)) != 0,
    ensures
        float_value_nowvx(value, info) == float_value_nowvx(
            (((value as u32) << ((info.shift as u32) & 0x1fu32)) as i32),
            FloatInfo { shift: 0, ..info },
        ),
{
    let w = (value as u32) << ((info.shift as u32) & 0x1fu32);
    lemma_word_facts(w);
    assert(((0u8 as u32) & 0x1fu32) == 0);
    assert(shifted_magnitude((w as i32), 0) == shifted_magnitude(value, (info.shift as u32) & 0x1fu32));
}

fn zero_float_exec(info: FloatInfo, xbits: &mut BitReader<'_>) -> (r: u32)
    requires
        old(xbits).wf(),
    ensures
        final(xbits).wf(),
        final(xbits).bits() == old(xbits).bits(),
        (r, final(xbits).pos() as int) == zero_float(info, old(xbits).bits(), old(xbits).pos() as int),
{
    let mut outval: u32 = 0;
    if info.flags & FLOAT_ZEROS_SENT != 0 {
        if xbits.getbit() != 0 {
            let m = xbits.getbits(23);
            set_mantissa(&mut outval, m);
            if info.max_exp >= 25 {
                let e = xbits.getbits(8);
                set_exponent(&mut outval, e);
            }
            let s = xbits.getbit();
            set_sign(&mut outval, s);
        } else if info.flags & FLOAT_NEG_ZEROS != 0 {
            let s = xbits.getbit();
            set_sign(&mut outval, s);
        }
    }
    outval
}

/// Shift up to bit 23 (see `normalize`): (mantissa, exponent, shift count).
fn normalize_exec(v0: u32, exp0: i32) -> (r: (u32, i32, i32))
    requires
        0 <= exp0 <= 255,
    ensures
        (r.0, r.1 as nat, r.2 as nat) == normalize(v0, exp0 as nat, 0),
        0 <= r.1 <= 255,
        0 <= r.2 <= 255,
{
    let mut v = v0;
    let mut exp = exp0;
    let mut shift_count: i32 = 0;
    if exp != 0 {
        loop
            invariant_except_break
                1 <= exp <= 255,
                0 <= shift_count <= 255 - exp,
                normalize(v0, exp0 as nat, 0) == normalize(v, exp as nat, shift_count as nat),
            ensures
                0 <= exp <= 255,
                0 <= shift_count <= 255,
                normalize(v0, exp0 as nat, 0) == (v, exp as nat, shift_count as nat),
            decreases exp,
        {
            if v & 0x80_0000 != 0 {
                break;
            }
            exp = exp - 1;
            if exp == 0 {
                break;
            }
            shift_count = shift_count + 1;
            v = v << 1;
        }
    }
    (v, exp, shift_count)
}

/// Restore the `sc` low bits (see `restore_low_bits`).
fn restore_low_bits_exec(v0: u32, sc: u32, flags: u8, min_shifted_zeros: u32, max_shifted_ones: u32, xbits: &mut BitReader<'_>) -> (r: u32)
    requires
        old(xbits).wf(),
        sc < 32,
    ensures
        final(xbits).wf(),
        final(xbits).bits() == old(xbits).bits(),
        (r, final(xbits).pos() as int) == restore_low_bits(v0, sc, flags, min_shifted_zeros, max_shifted_ones, old(xbits).bits(), old(xbits).pos() as int),
{
    let mut v = v0;
    assert(sc < 32 ==> (1u32 << sc) >= 1) by (bit_vector);
    if sc != 0 {
        if flags & FLOAT_SHIFT_ONES != 0 || (flags & FLOAT_SHIFT_SAME != 0 && xbits.getbit() != 0) {
            v |= (1u32 << sc) - 1;
        } else if flags & FLOAT_SHIFT_SENT != 0 {
            let mask = (1u32 << sc) - 1;
            let mut num_zeros = 0u32;
            if max_shifted_ones != 0 && sc > max_shifted_ones {
                num_zeros = sc - max_shifted_ones;
            }
            if min_shifted_zeros > num_zeros {
                num_zeros = if min_shifted_zeros > sc { sc } else { min_shifted_zeros };
            }
            if sc > num_zeros {
                let n = sc - num_zeros;
                let temp = xbits.getbits(n);
                v |= (temp << num_zeros) & mask;
            }
        }
    }
    v
}

/// The float bits of one stored value (see `float_value`).
fn float_one(value: i32, info: FloatInfo, min_shifted_zeros: u32, max_shifted_ones: u32, xbits: &mut BitReader<'_>) -> (r: u32)
    requires
        old(xbits).wf(),
    ensures
        final(xbits).wf(),
        final(xbits).bits() == old(xbits).bits(),
        (r, final(xbits).pos() as int) == float_value(value, info, min_shifted_zeros, max_shifted_ones, old(xbits).bits(), old(xbits).pos() as int),
{
    if value == 0 {
        return zero_float_exec(info, xbits);
    }
    let sh = info.shift as u32;
    let shift = sh & 0x1f;
    let mut outval: u32 = 0;
    assert(sh & 0x1fu32 < 32) by (bit_vector);
    let mut v = (#[verifier::truncate] (value as u32)) << shift;
    if (#[verifier::truncate] (v as i32)) < 0 {
        v = 0i32.wrapping_sub(#[verifier::truncate] (v as i32)) as u32;
        set_sign(&mut outval, 1);
    }
    if v == 0x100_0000 {
        if xbits.getbit() != 0 {
            let m = xbits.getbits(23);
            set_mantissa(&mut outval, m);
        }
        set_exponent(&mut outval, 255);
        outval
    } else {
        let (v1, exp, shift_count) = normalize_exec(v, info.max_exp as i32);
        let scu = shift_count as u32;
        let sc = scu & 0x1f;
        assert(scu & 0x1fu32 < 32) by (bit_vector);
        let v2 = restore_low_bits_exec(v1, sc, info.flags, min_shifted_zeros, max_shifted_ones, xbits);
        set_mantissa(&mut outval, v2);
        set_exponent(&mut outval, exp as u32);
        outval
    }
}

/// The lossless `float_values`: rebuild the exact IEEE bits of each value
/// in place, restoring residual bits from `xbits`. `min_shifted_zeros` and
/// `max_shifted_ones` come from the wvx "new"-format prefix (0 for classic
/// wvx). Returns the checksum continued from `crc`.
pub fn float_values(values: &mut [i32], info: FloatInfo, min_shifted_zeros: u32, max_shifted_ones: u32, xbits: &mut BitReader<'_>, crc: u32) -> (r: u32)
    requires
        old(xbits).wf(),
    ensures
        final(xbits).wf(),
        final(xbits).bits() == old(xbits).bits(),
        ({
            let (fs, p, c) = float_run(old(values)@, 0, info, min_shifted_zeros, max_shifted_ones, old(xbits).bits(), old(xbits).pos() as int, crc);
            &&& final(values)@ == fs
            &&& final(xbits).pos() == p
            &&& r == c
        }),
{
    let ghost vals = values@;
    let ghost bits = xbits.bits();
    let ghost total = float_run(vals, 0, info, min_shifted_zeros, max_shifted_ones, bits, xbits.pos() as int, crc);
    let mut crc = crc;
    let mut i: usize = 0;
    while i < values.len()
        invariant
            xbits.wf(),
            xbits.bits() == bits,
            values@.len() == vals.len(),
            i <= vals.len(),
            values@.skip(i as int) == vals.skip(i as int),
            ({
                let cur = float_run(vals, i as nat, info, min_shifted_zeros, max_shifted_ones, bits, xbits.pos() as int, crc);
                &&& total.0 == values@.take(i as int) + cur.0
                &&& total.1 == cur.1
                &&& total.2 == cur.2
            }),
        decreases vals.len() - i,
    {
        let ghost before = values@;
        let f = float_one(values[i], info, min_shifted_zeros, max_shifted_ones, xbits);
        crc = crc.wrapping_mul(27).wrapping_add(get_mantissa(f).wrapping_mul(9)).wrapping_add(get_exponent(f).wrapping_mul(3)).wrapping_add(get_sign(f));
        values[i] = #[verifier::truncate] (f as i32);
        proof {
            assert(values@.take(i as int + 1) =~= before.take(i as int) + seq![f as i32]);
            assert(values@.skip(i as int + 1) =~= before.skip(i as int).skip(1));
            assert(vals.skip(i as int + 1) =~= vals.skip(i as int).skip(1));
            assert(before[i as int] == vals[i as int]) by {
                assert(before.skip(i as int)[0] == vals.skip(i as int)[0]);
            }
        }
        i = i + 1;
    }
    proof {
        assert(values@.take(i as int) =~= values@);
        assert(total.0 =~= values@);
    }
    crc
}


/// Shift a too-wide magnitude down into 24 bits, raising the exponent:
/// (mantissa, exponent).
pub open spec fn shrink(v: u32, exp: int) -> (u32, int)
    decreases v,
{
    if v & 0xf00_0000u32 != 0 {
        proof {
            assert(v & 0xf00_0000u32 != 0 ==> v >> 1u32 < v) by (bit_vector);
        }
        shrink(v >> 1u32, exp + 1)
    } else {
        (v, exp)
    }
}

/// The float bits of one stored value when no wvx stream is present.
pub open spec fn float_value_nowvx(value: i32, info: FloatInfo) -> u32 {
    if value == 0 {
        0
    } else {
        let (v, neg) = shifted_magnitude(value, (info.shift as u32) & 0x1fu32);
        let o0: u32 = if neg {
            with_sign(0, 1)
        } else {
            0
        };
        if v >= 0x100_0000 {
            let (v1, e1) = shrink(v, info.max_exp as int);
            with_exponent(with_mantissa(o0, v1), e1 as u32)
        } else {
            let (v1, exp, sc) = normalize(v, info.max_exp as nat, 0);
            let sc5 = (sc as u32) & 0x1fu32;
            let v2 = if sc5 != 0 && info.flags & FLOAT_SHIFT_ONES != 0 {
                v1 | (((1u32 << sc5) - 1) as u32)
            } else {
                v1
            };
            with_exponent(with_mantissa(o0, v2), exp as u32)
        }
    }
}

fn float_one_nowvx(value: i32, info: FloatInfo) -> (r: u32)
    ensures
        r == float_value_nowvx(value, info),
{
    if value == 0 {
        return 0;
    }
    let sh = info.shift as u32;
    let shift = sh & 0x1f;
    let mut outval: u32 = 0;
    assert(sh & 0x1fu32 < 32) by (bit_vector);
    let mut v = (#[verifier::truncate] (value as u32)) << shift;
    if (#[verifier::truncate] (v as i32)) < 0 {
        v = 0i32.wrapping_sub(#[verifier::truncate] (v as i32)) as u32;
        set_sign(&mut outval, 1);
    }
    if v >= 0x100_0000 {
        let mut exp: i32 = info.max_exp as i32;
        let ghost v0 = v;
        proof {
            lemma_p2_values();
            assert(v as int * p2(0) == v as int);
        }
        while v & 0xf00_0000 != 0
            invariant
                info.max_exp as int <= exp <= info.max_exp as int + 32,
                v as int * p2((exp - info.max_exp) as nat) <= v0 as int,
                shrink(v0, info.max_exp as int) == shrink(v, exp as int),
            decreases v,
        {
            let ghost k = (exp - info.max_exp) as nat;
            assert(v & 0xf00_0000u32 != 0 ==> v >> 1u32 < v && (v >> 1u32) * 2 <= v && v >= 0x100_0000) by (bit_vector);
            proof {
                assert(p2(k) <= 0x1_0000_0000) by (nonlinear_arith)
                    requires
                        v as int * p2(k) <= v0 as int,
                        v >= 1,
                        v0 <= u32::MAX,
                ;
                if k >= 32 {
                    lemma_p2_mono(32, k);
                    lemma_p2_values();
                    assert(v as int * p2(k) >= 0x100_0000 * 0x1_0000_0000) by (nonlinear_arith)
                        requires
                            v >= 0x100_0000,
                            p2(k) >= 0x1_0000_0000,
                    ;
                }
                assert(((v >> 1u32) as int) * p2(k + 1) <= v0 as int) by (nonlinear_arith)
                    requires
                        v as int * p2(k) <= v0 as int,
                        (v >> 1u32) * 2 <= v,
                        p2(k + 1) == 2 * p2(k),
                ;
            }
            v = v >> 1;
            exp = exp + 1;
        }
        set_mantissa(&mut outval, v);
        set_exponent(&mut outval, exp as u32);
        outval
    } else {
        let (v1, exp, shift_count) = normalize_exec(v, info.max_exp as i32);
        let scu = shift_count as u32;
        let sc = scu & 0x1f;
        assert(scu & 0x1fu32 < 32) by (bit_vector);
        assert(sc < 32 ==> (1u32 << sc) >= 1) by (bit_vector);
        let mut v2 = v1;
        if sc != 0 && info.flags & FLOAT_SHIFT_ONES != 0 {
            v2 |= (1u32 << sc) - 1;
        }
        set_mantissa(&mut outval, v2);
        set_exponent(&mut outval, exp as u32);
        outval
    }
}

/// `float_values_nowvx`: the reconstruction when no `wvx` stream is
/// present, in place.
pub fn float_values_nowvx(values: &mut [i32], info: FloatInfo)
    ensures
        final(values)@.len() == old(values)@.len(),
        forall|i: int| 0 <= i < old(values)@.len() ==> #[trigger] final(values)@[i] == float_value_nowvx(old(values)@[i], info) as i32,
{
    let ghost vals = values@;
    let mut i: usize = 0;
    while i < values.len()
        invariant
            values@.len() == vals.len(),
            i <= vals.len(),
            forall|k: int| i <= k < vals.len() ==> #[trigger] values@[k] == vals[k],
            forall|k: int| 0 <= k < i ==> #[trigger] values@[k] == float_value_nowvx(vals[k], info) as i32,
        decreases vals.len() - i,
    {
        let f = float_one_nowvx(values[i], info);
        values[i] = #[verifier::truncate] (f as i32);
        i = i + 1;
    }
}

} // verus!
