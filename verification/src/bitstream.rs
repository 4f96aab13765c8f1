//! Bit-level I/O for the WavPack bitstream: bits are taken from each byte
//! least-significant first, and reads past the end yield zeros and raise a
//! sticky error flag.

use vstd::prelude::*;

verus! {

/// Bit `i` of a byte sequence, least-significant bit of each byte first.
pub open spec fn byte_bit(d: Seq<u8>, i: int) -> bool {
    (d[i / 8] >> ((i % 8) as u8)) & 1u8 == 1u8
}

/// The bits of a byte sequence in stream order.
pub open spec fn bits_of(d: Seq<u8>) -> Seq<bool> {
    Seq::new((d.len() * 8) as nat, |i: int| byte_bit(d, i))
}

/// Bit `i` of a bit stream as 0 or 1; positions outside it read as zero.
pub open spec fn sbit(bs: Seq<bool>, i: int) -> nat {
    if 0 <= i < bs.len() && bs[i] {
        1
    } else {
        0
    }
}

/// `2^n`.
pub open spec fn p2(n: nat) -> nat
    decreases n,
{
    if n == 0 {
        1
    } else {
        2 * p2((n - 1) as nat)
    }
}

/// The `n`-bit value stored at `p`, least-significant bit first.
pub open spec fn sbits(bs: Seq<bool>, p: int, n: nat) -> nat
    decreases n,
{
    if n == 0 {
        0
    } else {
        sbit(bs, p) + 2 * sbits(bs, p + 1, (n - 1) as nat)
    }
}

/// The number of significant bits of `m` (0 for 0).
pub open spec fn nbits(m: nat) -> nat
    decreases m,
{
    if m == 0 {
        0
    } else {
        1 + nbits(m / 2)
    }
}

/// Reading a value in `0..=m` coded in truncated binary: `nbits(m) - 1`
/// bits, plus one more bit for the values at the top of the range.
/// Gives the value and the position after it.
pub open spec fn code_read(bs: Seq<bool>, p: int, m: nat) -> (nat, int) {
    if m < 2 {
        if m == 0 {
            (0, p)
        } else {
            (sbit(bs, p), p + 1)
        }
    } else {
        let b = nbits(m);
        let extras = p2(b) - m - 1;
        let code = sbits(bs, p, (b - 1) as nat);
        if code >= extras {
            ((2 * code - extras + sbit(bs, p + b - 1)) as nat, p + b)
        } else {
            (code, p + b - 1)
        }
    }
}

/// The length of the run of one bits at `p`, at most `lim`.
pub open spec fn ones_run(bs: Seq<bool>, p: int, lim: nat) -> nat
    decreases lim,
{
    if lim == 0 {
        0
    } else if sbit(bs, p) == 1 {
        1 + ones_run(bs, p + 1, (lim - 1) as nat)
    } else {
        0
    }
}

/// The position after reading a run of ones of at most `lim`: the stopping
/// zero is consumed unless the limit was reached.
pub open spec fn after_run(p: int, run: nat, lim: nat) -> int {
    if run < lim {
        p + run + 1
    } else {
        p + run
    }
}

/// Reading an Elias-gamma style count: `c` ones and a zero, then the low
/// `c - 1` bits of a `c`-bit value (whose top bit is implied). More than 32
/// leading ones is an error.
pub open spec fn egc_read(bs: Seq<bool>, p: int) -> (Option<nat>, int) {
    let c = ones_run(bs, p, 33);
    let p1 = after_run(p, c, 33);
    if c == 33 {
        (None, p1)
    } else if c < 2 {
        (Some(c), p1)
    } else {
        (Some(p2((c - 1) as nat) + sbits(bs, p1, (c - 1) as nat)), p1 + c - 1)
    }
}

/// Reading the unary "ones count" with escape: fewer than `lim` ones and a
/// zero give the count; `lim` ones and a zero are followed by an
/// Elias-gamma count added to `lim` (modulo 2^32); `lim + 1` ones are an
/// error.
pub open spec fn ones_count_read(bs: Seq<bool>, p: int, lim: nat) -> (Option<u32>, int) {
    let r = ones_run(bs, p, lim + 1);
    let p1 = after_run(p, r, lim + 1);
    if r == lim + 1 {
        (None, p1)
    } else if r < lim {
        (Some(r as u32), p1)
    } else {
        let (e, p2) = egc_read(bs, p1);
        match e {
            None => (None, p2),
            Some(v) => (Some(((v + lim) % 0x1_0000_0000) as u32), p2),
        }
    }
}

pub proof fn lemma_p2_pos(n: nat)
    ensures
        p2(n) >= 1,
    decreases n,
{
    if n > 0 {
        lemma_p2_pos((n - 1) as nat);
    }
}

pub proof fn lemma_p2_mono(a: nat, b: nat)
    requires
        a <= b,
    ensures
        p2(a) <= p2(b),
    decreases b,
{
    if a < b {
        lemma_p2_mono(a, (b - 1) as nat);
        lemma_p2_pos((b - 1) as nat);
    }
}

/// `nbits(m)` brackets `m` between consecutive powers of two.
pub proof fn lemma_nbits(m: nat)
    ensures
        m < p2(nbits(m)),
        m >= 1 ==> p2((nbits(m) - 1) as nat) <= m,
        m >= 1 ==> nbits(m) >= 1,
    decreases m,
{
    if m > 0 {
        lemma_nbits(m / 2);
        if m / 2 >= 1 {
        } else {
            assert(nbits(m / 2) == 0);
        }
    }
}

/// A value below `2^n` has at most `n` significant bits.
pub proof fn lemma_nbits_le(m: nat, n: nat)
    requires
        m < p2(n),
    ensures
        nbits(m) <= n,
    decreases m,
{
    if m > 0 {
        if n == 0 {
            assert(false);
        } else {
            lemma_nbits_le(m / 2, (n - 1) as nat);
        }
    }
}

pub proof fn lemma_sbits_bound(bs: Seq<bool>, p: int, n: nat)
    ensures
        sbits(bs, p, n) < p2(n),
    decreases n,
{
    if n > 0 {
        lemma_sbits_bound(bs, p + 1, (n - 1) as nat);
    }
}

pub proof fn lemma_p2_values()
    ensures
        p2(0) == 1,
        p2(1) == 2,
        p2(8) == 0x100,
        p2(16) == 0x1_0000,
        p2(28) == 0x1000_0000,
        p2(31) == 0x8000_0000,
        p2(32) == 0x1_0000_0000,
{
    reveal_with_fuel(p2, 33);
}

/// The value read by `code_read` never exceeds the range bound.
pub proof fn lemma_code_read_bound(bs: Seq<bool>, p: int, m: nat)
    ensures
        code_read(bs, p, m).0 <= m,
        code_read(bs, p, m).1 >= p,
{
    if m >= 2 {
        let b = nbits(m);
        lemma_nbits(m);
        lemma_sbits_bound(bs, p, (b - 1) as nat);
        assert(p2(b) == 2 * p2((b - 1) as nat));
    }
}

/// Reading a run of ones never overshoots its limit.
pub proof fn lemma_ones_run_bound(bs: Seq<bool>, p: int, lim: nat)
    ensures
        ones_run(bs, p, lim) <= lim,
    decreases lim,
{
    if lim > 0 {
        lemma_ones_run_bound(bs, p + 1, (lim - 1) as nat);
    }
}

/// The most bytes a reader takes: its bit position stays within a `u64`.
pub const MAX_READER_BYTES: u64 = 0x1000_0000_0000_0000;

/// A reader over a byte slice. Its view is the stream's bits and the number
/// of bits read so far, which may run past the end.
pub struct BitReader<'a> {
    data: &'a [u8],
    pos: u64,
    error: bool,
    read: Ghost<nat>,
}

impl<'a> View for BitReader<'a> {
    type V = (Seq<bool>, nat);

    closed spec fn view(&self) -> (Seq<bool>, nat) {
        (bits_of(self.data@), self.read@)
    }
}

impl<'a> BitReader<'a> {
    /// The internal consistency of a reader.
    pub closed spec fn wf(&self) -> bool {
        &&& self.data@.len() <= MAX_READER_BYTES
        &&& self.pos == (if self.read@ < self.data@.len() * 8 {
            self.read@
        } else {
            self.data@.len() * 8
        })
        &&& self.error == (self.read@ > self.data@.len() * 8)
    }

    /// The stream's bits.
    pub open spec fn bits(&self) -> Seq<bool> {
        self@.0
    }

    /// The number of bits read so far.
    pub open spec fn pos(&self) -> nat {
        self@.1
    }

    pub fn new(data: &'a [u8]) -> (r: Self)
        requires
            data@.len() <= MAX_READER_BYTES,
        ensures
            r.wf(),
            r.bits() == bits_of(data@),
            r.pos() == 0,
    {
        BitReader { data, pos: 0, error: false, read: Ghost(0) }
    }

    /// Whether some read went past the end of the stream.
    pub fn errored(&self) -> (r: bool)
        requires
            self.wf(),
        ensures
            r == (self.pos() > self.bits().len()),
    {
        self.error
    }

    /// Read one bit (0 past the end).
    pub fn getbit(&mut self) -> (b: u32)
        requires
            old(self).wf(),
        ensures
            final(self).wf(),
            final(self).bits() == old(self).bits(),
            final(self).pos() == old(self).pos() + 1,
            b as nat == sbit(old(self).bits(), old(self).pos() as int),
    {
        let ghost d = self.data@;
        let byte_idx = self.pos / 8;
        if byte_idx < self.data.len() as u64 {
            let x: u8 = self.data[byte_idx as usize];
            let sh: u8 = (self.pos % 8) as u8;
            let b: u8 = (x >> sh) & 1u8;
            assert(b == 0 || b == 1) by (bit_vector)
                requires
                    b == (x >> sh) & 1u8,
            ;
            proof {
                assert(bits_of(d)[self.pos as int] == byte_bit(d, self.pos as int));
            }
            self.pos = self.pos + 1;
            self.read = Ghost(self.read@ + 1);
            b as u32
        } else {
            self.error = true;
            self.read = Ghost(self.read@ + 1);
            0
        }
    }

    /// Read `n` bits, least-significant first.
    pub fn getbits(&mut self, n: u32) -> (v: u32)
        requires
            old(self).wf(),
            n <= 32,
        ensures
            final(self).wf(),
            final(self).bits() == old(self).bits(),
            final(self).pos() == old(self).pos() + n,
            v as nat == sbits(old(self).bits(), old(self).pos() as int, n as nat),
    {
        let ghost bs = self.bits();
        let ghost p0 = self.pos() as int;
        let mut v: u64 = 0;
        let mut pw: u64 = 1;
        let mut i: u32 = 0;
        proof {
            lemma_p2_values();
            lemma_sbits_bound(bs, p0, n as nat);
            lemma_p2_mono(n as nat, 32);
        }
        while i < n
            invariant
                self.wf(),
                self.bits() == bs,
                i <= n <= 32,
                self.pos() == p0 + i,
                pw == p2(i as nat),
                v < pw,
                v + pw * sbits(bs, p0 + i, (n - i) as nat) == sbits(bs, p0, n as nat),
                sbits(bs, p0, n as nat) < 0x1_0000_0000,
            decreases n - i,
        {
            proof {
                lemma_p2_mono(i as nat, 31);
                lemma_p2_values();
            }
            let b = self.getbit();
            let ghost v0 = v;
            let ghost pw0 = pw;
            let ghost rest = sbits(bs, p0 + i + 1, (n - i - 1) as nat);
            proof {
                assert(sbits(bs, p0 + i, (n - i) as nat) == b + 2 * rest);
                assert(pw * (b + 2 * rest) == pw * b + (2 * pw) * rest) by (nonlinear_arith);
                assert(b <= 1);
            }
            if b == 1 {
                v = v + pw;
            }
            pw = pw * 2;
            i = i + 1;
            proof {
                assert(v == v0 + pw0 * b) by (nonlinear_arith)
                    requires
                        b <= 1,
                        b == 1 ==> v == v0 + pw0,
                        b == 0 ==> v == v0,
                ;
                assert(p0 + (i - 1) + 1 == p0 + i);
                assert((n - (i - 1) - 1) as nat == (n - i) as nat);
                assert(v + pw * rest == sbits(bs, p0, n as nat));
            }
        }
        assert(sbits(bs, p0 + i, 0) == 0);
        assert(pw * sbits(bs, p0 + i, (n - i) as nat) == 0) by (nonlinear_arith)
            requires
                sbits(bs, p0 + i, (n - i) as nat) == 0,
        ;
        v as u32
    }

    /// Read a value in `0..=maxcode` in truncated binary.
    pub fn read_code(&mut self, maxcode: u32) -> (v: u32)
        requires
            old(self).wf(),
            maxcode <= 0x7fff_ffff,
        ensures
            final(self).wf(),
            final(self).bits() == old(self).bits(),
            (v as nat, final(self).pos() as int) == code_read(
                old(self).bits(),
                old(self).pos() as int,
                maxcode as nat,
            ),
            v <= maxcode,
    {
        let ghost bs = self.bits();
        let ghost p0 = self.pos() as int;
        proof {
            lemma_code_read_bound(bs, p0, maxcode as nat);
        }
        if maxcode < 2 {
            if maxcode == 0 {
                0
            } else {
                self.getbit()
            }
        } else {
            let mut b: u32 = 0;
            let mut t: u32 = maxcode;
            let mut pw: u64 = 1;
            proof {
                lemma_nbits(maxcode as nat);
                lemma_p2_values();
                lemma_nbits_le(maxcode as nat, 31);
            }
            while t > 0
                invariant
                    nbits(maxcode as nat) == b + nbits(t as nat),
                    nbits(maxcode as nat) <= 31,
                    pw == p2(b as nat),
                decreases t,
            {
                proof {
                    lemma_p2_mono(b as nat, 30);
                    lemma_p2_values();
                }
                t = t / 2;
                b = b + 1;
                pw = pw * 2;
            }
            proof {
                assert(p2(b as nat) == 2 * p2((b - 1) as nat));
            }
            let extras: u64 = pw - maxcode as u64 - 1;
            let code = self.getbits(b - 1) as u64;
            if code >= extras {
                let bit = self.getbit();
                proof {
                    lemma_sbits_bound(bs, p0, (b - 1) as nat);
                }
                (2 * code - extras + bit as u64) as u32
            } else {
                code as u32
            }
        }
    }

    /// Count one bits up to `limit`, consuming the stopping zero if the
    /// limit was not reached.
    pub fn count_ones(&mut self, limit: u32) -> (c: u32)
        requires
            old(self).wf(),
        ensures
            final(self).wf(),
            final(self).bits() == old(self).bits(),
            c as nat == ones_run(old(self).bits(), old(self).pos() as int, limit as nat),
            final(self).pos() as int == after_run(old(self).pos() as int, c as nat, limit as nat),
    {
        let ghost bs = self.bits();
        let ghost p0 = self.pos() as int;
        let mut c: u32 = 0;
        loop
            invariant_except_break
                self.wf(),
                self.bits() == bs,
                c <= limit,
                self.pos() == p0 + c,
                ones_run(bs, p0, limit as nat) == c + ones_run(bs, p0 + c, (limit - c) as nat),
            ensures
                self.wf(),
                self.bits() == bs,
                c as nat == ones_run(bs, p0, limit as nat),
                self.pos() as int == after_run(p0, c as nat, limit as nat),
            decreases limit - c,
        {
            if c >= limit {
                break;
            }
            let b = self.getbit();
            if b == 0 {
                break;
            }
            c = c + 1;
        }
        c
    }

    /// Read an Elias-gamma style count (`None` on more than 32 leading ones).
    pub fn read_egc_count(&mut self) -> (r: Option<u32>)
        requires
            old(self).wf(),
        ensures
            final(self).wf(),
            final(self).bits() == old(self).bits(),
            final(self).pos() as int == egc_read(old(self).bits(), old(self).pos() as int).1,
            match egc_read(old(self).bits(), old(self).pos() as int).0 {
                None => r is None,
                Some(v) => r == Some(v as u32) && v < 0x1_0000_0000,
            },
    {
        let ghost bs = self.bits();
        let ghost p0 = self.pos() as int;
        let c = self.count_ones(33);
        if c == 33 {
            None
        } else if c < 2 {
            Some(c)
        } else {
            proof {
                lemma_ones_run_bound(bs, p0, 33);
            }
            let low = self.getbits(c - 1);
            let mut pw: u64 = 1;
            let mut i: u32 = 0;
            while i < c - 1
                invariant
                    i <= c - 1 <= 31,
                    pw == p2(i as nat),
                decreases c - 1 - i,
            {
                proof {
                    lemma_p2_mono(i as nat, 30);
                    lemma_p2_values();
                }
                pw = pw * 2;
                i = i + 1;
            }
            proof {
                let p1 = after_run(p0, c as nat, 33);
                lemma_sbits_bound(bs, p1, (c - 1) as nat);
                lemma_p2_mono((c - 1) as nat, 31);
                lemma_p2_values();
            }
            Some((pw + low as u64) as u32)
        }
    }

    /// Read the unary ones count with its escape (see `ones_count_read`).
    pub fn read_ones_count(&mut self, limit: u32) -> (r: Option<u32>)
        requires
            old(self).wf(),
            limit < 32,
        ensures
            final(self).wf(),
            final(self).bits() == old(self).bits(),
            (r, final(self).pos() as int) == ones_count_read(
                old(self).bits(),
                old(self).pos() as int,
                limit as nat,
            ),
    {
        let c = self.count_ones(limit + 1);
        if c == limit + 1 {
            None
        } else if c < limit {
            Some(c)
        } else {
            match self.read_egc_count() {
                None => None,
                Some(v) => Some(v.wrapping_add(limit)),
            }
        }
    }
}


/// `c` one bits.
pub open spec fn ones(c: nat) -> Seq<bool> {
    Seq::new(c, |i: int| true)
}

/// The low `n` bits of `v`, least-significant first.
pub open spec fn enc_bits(v: nat, n: nat) -> Seq<bool>
    decreases n,
{
    if n == 0 {
        Seq::empty()
    } else {
        seq![v % 2 == 1] + enc_bits(v / 2, (n - 1) as nat)
    }
}

/// The truncated binary code of `v` in `0..=m` (inverse of `code_read`).
#[verifier::opaque]
pub open spec fn enc_code(v: nat, m: nat) -> Seq<bool> {
    if m == 0 {
        Seq::empty()
    } else if m == 1 {
        seq![v == 1]
    } else {
        let b = nbits(m);
        let extras = p2(b) - m - 1;
        if v < extras {
            enc_bits(v, (b - 1) as nat)
        } else {
            enc_bits(((v + extras) / 2) as nat, (b - 1) as nat) + seq![(v + extras) % 2 == 1]
        }
    }
}

/// The Elias-gamma style code of `v` (inverse of `egc_read`).
#[verifier::opaque]
pub open spec fn enc_egc(v: nat) -> Seq<bool> {
    if v < 2 {
        ones(v) + seq![false]
    } else {
        let c = nbits(v);
        ones(c) + seq![false] + enc_bits((v - p2((c - 1) as nat)) as nat, (c - 1) as nat)
    }
}

/// The unary ones count with escape (inverse of `ones_count_read`).
#[verifier::opaque]
pub open spec fn enc_ones(raw: nat, lim: nat) -> Seq<bool> {
    if raw < lim {
        ones(raw) + seq![false]
    } else {
        ones(lim) + seq![false] + enc_egc((raw - lim) as nat)
    }
}

/// The truncated binary code of a value in `0..=m`, with `m < 2^n`, takes
/// at most `n` bits.
pub proof fn lemma_enc_code_len(v: nat, m: nat, n: nat)
    requires
        m < p2(n),
    ensures
        enc_code(v, m).len() <= n,
{
    reveal(enc_code);
    lemma_nbits_le(m, n);
    if m >= 2 {
        let b = nbits(m);
        let extras = p2(b) - m - 1;
        lemma_nbits(m);
        if v < extras {
            lemma_enc_bits_len(v, (b - 1) as nat);
        } else {
            lemma_enc_bits_len(((v + extras) / 2) as nat, (b - 1) as nat);
        }
    }
}

/// The Elias-gamma code of a value below `2^n` takes at most `2n + 1` bits.
pub proof fn lemma_enc_egc_len(v: nat, n: nat)
    requires
        v < p2(n),
    ensures
        enc_egc(v).len() <= 2 * n + 1,
{
    reveal(enc_egc);
    lemma_nbits_le(v, n);
    if v >= 2 {
        let c = nbits(v);
        lemma_nbits(v);
        lemma_enc_bits_len((v - p2((c - 1) as nat)) as nat, (c - 1) as nat);
    } else if v == 1 {
        assert(p2(0) == 1);
    }
}

/// The unary ones count with escape of a value below `2^n` takes at most
/// `lim + 2n + 2` bits.
pub proof fn lemma_enc_ones_len(raw: nat, lim: nat, n: nat)
    requires
        raw < p2(n),
    ensures
        enc_ones(raw, lim).len() <= lim + 2 * n + 2,
{
    reveal(enc_ones);
    if raw >= lim {
        lemma_enc_egc_len((raw - lim) as nat, n);
    }
}

/// `e` stands in `bs` at position `p`.
pub open spec fn at(bs: Seq<bool>, p: int, e: Seq<bool>) -> bool {
    &&& 0 <= p
    &&& p + e.len() <= bs.len()
    &&& bs.subrange(p, p + e.len()) == e
}

pub proof fn lemma_at_split(bs: Seq<bool>, p: int, e1: Seq<bool>, e2: Seq<bool>)
    requires
        at(bs, p, e1 + e2),
    ensures
        at(bs, p, e1),
        at(bs, p + e1.len(), e2),
{
    let whole = bs.subrange(p, p + e1.len() + e2.len());
    assert(whole == e1 + e2);
    assert(bs.subrange(p, p + e1.len()) =~= whole.subrange(0, e1.len() as int));
    assert(whole.subrange(0, e1.len() as int) =~= e1);
    assert(bs.subrange(p + e1.len(), p + e1.len() + e2.len()) =~= whole.subrange(
        e1.len() as int,
        (e1.len() + e2.len()) as int,
    ));
    assert(whole.subrange(e1.len() as int, (e1.len() + e2.len()) as int) =~= e2);
}

pub proof fn lemma_at_bit(bs: Seq<bool>, p: int, e: Seq<bool>, i: int)
    requires
        at(bs, p, e),
        0 <= i < e.len(),
    ensures
        sbit(bs, p + i) == (if e[i] {
            1nat
        } else {
            0nat
        }),
{
    assert(bs.subrange(p, p + e.len())[i] == bs[p + i]);
}

pub proof fn lemma_enc_bits_len(v: nat, n: nat)
    ensures
        enc_bits(v, n).len() == n,
    decreases n,
{
    if n > 0 {
        lemma_enc_bits_len(v / 2, (n - 1) as nat);
    }
}

/// Reading back `n` written bits gives the value.
pub proof fn lemma_bits_roundtrip(bs: Seq<bool>, p: int, v: nat, n: nat)
    requires
        at(bs, p, enc_bits(v, n)),
        v < p2(n),
    ensures
        sbits(bs, p, n) == v,
    decreases n,
{
    lemma_enc_bits_len(v, n);
    if n > 0 {
        let e = enc_bits(v, n);
        assert(e == seq![v % 2 == 1] + enc_bits(v / 2, (n - 1) as nat));
        lemma_at_split(bs, p, seq![v % 2 == 1], enc_bits(v / 2, (n - 1) as nat));
        lemma_at_bit(bs, p, seq![v % 2 == 1], 0);
        lemma_bits_roundtrip(bs, p + 1, v / 2, (n - 1) as nat);
    }
}

pub proof fn lemma_ones_run_prefix(bs: Seq<bool>, p: int, c: nat, lim: nat)
    requires
        at(bs, p, ones(c)),
        c <= lim,
    ensures
        ones_run(bs, p, lim) >= c,
        ones_run(bs, p, lim) == c + ones_run(bs, p + c, (lim - c) as nat),
    decreases c,
{
    if c > 0 {
        assert(ones(c) =~= seq![true] + ones((c - 1) as nat));
        lemma_at_split(bs, p, seq![true], ones((c - 1) as nat));
        lemma_at_bit(bs, p, seq![true], 0);
        lemma_ones_run_prefix(bs, p + 1, (c - 1) as nat, (lim - 1) as nat);
    }
}

/// A run of `c` ones closed by a zero reads back as `c` when below the limit.
pub proof fn lemma_run_roundtrip(bs: Seq<bool>, p: int, c: nat, lim: nat)
    requires
        at(bs, p, ones(c) + seq![false]),
        c < lim,
    ensures
        ones_run(bs, p, lim) == c,
        after_run(p, c, lim) == p + (ones(c) + seq![false]).len(),
{
    lemma_at_split(bs, p, ones(c), seq![false]);
    lemma_ones_run_prefix(bs, p, c, lim);
    lemma_at_bit(bs, p + c, seq![false], 0);
}

pub proof fn lemma_code_roundtrip(bs: Seq<bool>, p: int, v: nat, m: nat)
    requires
        at(bs, p, enc_code(v, m)),
        v <= m,
    ensures
        code_read(bs, p, m) == (v, p + enc_code(v, m).len()),
{
    reveal(enc_code);
    if m == 1 {
        lemma_at_bit(bs, p, enc_code(v, m), 0);
    } else if m >= 2 {
        let b = nbits(m);
        let extras = p2(b) - m - 1;
        lemma_nbits(m);
        assert(p2(b) == 2 * p2((b - 1) as nat));
        if v < extras {
            lemma_enc_bits_len(v, (b - 1) as nat);
            lemma_bits_roundtrip(bs, p, v, (b - 1) as nat);
        } else {
            let hi = ((v + extras) / 2) as nat;
            lemma_enc_bits_len(hi, (b - 1) as nat);
            lemma_at_split(bs, p, enc_bits(hi, (b - 1) as nat), seq![(v + extras) % 2 == 1]);
            lemma_bits_roundtrip(bs, p, hi, (b - 1) as nat);
            lemma_at_bit(bs, p + b - 1, seq![(v + extras) % 2 == 1], 0);
        }
    }
}

pub proof fn lemma_egc_roundtrip(bs: Seq<bool>, p: int, v: nat)
    requires
        at(bs, p, enc_egc(v)),
        v < 0x1_0000_0000,
    ensures
        egc_read(bs, p) == (Some(v), p + enc_egc(v).len()),
{
    reveal(enc_egc);
    if v < 2 {
        lemma_run_roundtrip(bs, p, v, 33);
    } else {
        let c = nbits(v);
        lemma_nbits(v);
        lemma_p2_values();
        lemma_nbits_le(v, 32);
        let low = (v - p2((c - 1) as nat)) as nat;
        assert(p2(c) == 2 * p2((c - 1) as nat));
        lemma_enc_bits_len(low, (c - 1) as nat);
        assert(enc_egc(v) == (ones(c) + seq![false]) + enc_bits(low, (c - 1) as nat));
        lemma_at_split(bs, p, ones(c) + seq![false], enc_bits(low, (c - 1) as nat));
        lemma_run_roundtrip(bs, p, c, 33);
        lemma_bits_roundtrip(bs, p + c + 1, low, (c - 1) as nat);
    }
}

pub proof fn lemma_ones_count_roundtrip(bs: Seq<bool>, p: int, raw: nat, lim: nat)
    requires
        at(bs, p, enc_ones(raw, lim)),
        raw < 0x1_0000_0000,
        lim < 32,
    ensures
        ones_count_read(bs, p, lim) == (Some(raw as u32), p + enc_ones(raw, lim).len()),
{
    reveal(enc_ones);
    if raw < lim {
        lemma_run_roundtrip(bs, p, raw, lim + 1);
    } else {
        let e = (raw - lim) as nat;
        assert(enc_ones(raw, lim) == (ones(lim) + seq![false]) + enc_egc(e));
        lemma_at_split(bs, p, ones(lim) + seq![false], enc_egc(e));
        lemma_run_roundtrip(bs, p, lim, lim + 1);
        lemma_egc_roundtrip(bs, p + lim + 1, e);
    }
}

/// A writer that collects bits; `close` packs them into bytes.
pub struct BitWriter {
    bits: Vec<bool>,
}

impl View for BitWriter {
    type V = Seq<bool>;

    closed spec fn view(&self) -> Seq<bool> {
        self.bits@
    }
}

/// The byte-level padding of `w`: whole bytes, rounded up to an even count.
pub open spec fn padded_len(n: nat) -> nat {
    let bytes = (n + 7) / 8;
    if bytes % 2 == 0 {
        bytes
    } else {
        bytes + 1
    }
}

/// The bytes whose bits, least-significant first, are `w` followed by zero
/// padding to an even number of bytes.
pub open spec fn packed(w: Seq<bool>) -> Seq<u8> {
    choose|d: Seq<u8>|
        d.len() == padded_len(w.len()) && bits_of(d) == w + Seq::new((d.len() * 8 - w.len()) as nat, |i: int| false)
}

/// Two bytes with the same eight bits are the same byte.
proof fn lemma_byte_bits(x: u8, y: u8)
    requires
        forall|k: int| 0 <= k < 8 ==> #[trigger] u8_bit(x, k) == u8_bit(y, k),
    ensures
        x == y,
{
    assert(u8_bit(x, 0) == u8_bit(y, 0));
    assert(u8_bit(x, 1) == u8_bit(y, 1));
    assert(u8_bit(x, 2) == u8_bit(y, 2));
    assert(u8_bit(x, 3) == u8_bit(y, 3));
    assert(u8_bit(x, 4) == u8_bit(y, 4));
    assert(u8_bit(x, 5) == u8_bit(y, 5));
    assert(u8_bit(x, 6) == u8_bit(y, 6));
    assert(u8_bit(x, 7) == u8_bit(y, 7));
    assert(x == y) by (bit_vector)
        requires
            ((x >> 0u8) & 1u8 == 1u8) == ((y >> 0u8) & 1u8 == 1u8),
            ((x >> 1u8) & 1u8 == 1u8) == ((y >> 1u8) & 1u8 == 1u8),
            ((x >> 2u8) & 1u8 == 1u8) == ((y >> 2u8) & 1u8 == 1u8),
            ((x >> 3u8) & 1u8 == 1u8) == ((y >> 3u8) & 1u8 == 1u8),
            ((x >> 4u8) & 1u8 == 1u8) == ((y >> 4u8) & 1u8 == 1u8),
            ((x >> 5u8) & 1u8 == 1u8) == ((y >> 5u8) & 1u8 == 1u8),
            ((x >> 6u8) & 1u8 == 1u8) == ((y >> 6u8) & 1u8 == 1u8),
            ((x >> 7u8) & 1u8 == 1u8) == ((y >> 7u8) & 1u8 == 1u8),
    ;
}

/// Byte sequences of one length with the same bits are equal.
pub proof fn lemma_bits_of_injective(a: Seq<u8>, b: Seq<u8>)
    requires
        a.len() == b.len(),
        bits_of(a) == bits_of(b),
    ensures
        a == b,
{
    assert forall|i: int| 0 <= i < a.len() implies a[i] == b[i] by {
        assert forall|k: int| 0 <= k < 8 implies #[trigger] u8_bit(a[i], k) == u8_bit(b[i], k) by {
            let p = 8 * i + k;
            assert(p / 8 == i && p % 8 == k);
            assert(0 <= p < a.len() * 8);
            assert(bits_of(a)[p] == bits_of(b)[p]);
            assert(bits_of(a)[p] == byte_bit(a, p));
            assert(bits_of(b)[p] == byte_bit(b, p));
            assert(byte_bit(a, p) == u8_bit(a[i], k));
            assert(byte_bit(b, p) == u8_bit(b[i], k));
        }
        lemma_byte_bits(a[i], b[i]);
    }
    assert(a =~= b);
}

/// The byte whose bits, least-significant first, are `bs[p..p + 8]`.
pub open spec fn byte_of_bits(bs: Seq<bool>, p: int) -> u8 {
    (if bs[p] { 1u8 } else { 0u8 }) | (if bs[p + 1] { 2u8 } else { 0u8 }) | (if bs[p + 2] { 4u8 } else { 0u8 })
        | (if bs[p + 3] { 8u8 } else { 0u8 }) | (if bs[p + 4] { 16u8 } else { 0u8 }) | (if bs[p + 5] { 32u8 } else {
        0u8
    }) | (if bs[p + 6] { 64u8 } else { 0u8 }) | (if bs[p + 7] { 128u8 } else { 0u8 })
}

/// Bit `k` of the byte built from eight bits is the `k`-th of them.
proof fn lemma_byte_of_bits(bs: Seq<bool>, p: int, k: int)
    requires
        0 <= k < 8,
    ensures
        u8_bit(byte_of_bits(bs, p), k) == bs[p + k],
{
    let b0 = bs[p];
    let b1 = bs[p + 1];
    let b2 = bs[p + 2];
    let b3 = bs[p + 3];
    let b4 = bs[p + 4];
    let b5 = bs[p + 5];
    let b6 = bs[p + 6];
    let b7 = bs[p + 7];
    let v = byte_of_bits(bs, p);
    let kk = k as u8;
    assert(v == ((if b0 { 1u8 } else { 0u8 }) | (if b1 { 2u8 } else { 0u8 }) | (if b2 { 4u8 } else { 0u8 }) | (if b3 {
        8u8
    } else { 0u8 }) | (if b4 { 16u8 } else { 0u8 }) | (if b5 { 32u8 } else { 0u8 }) | (if b6 { 64u8 } else { 0u8 }) | (
    if b7 { 128u8 } else { 0u8 })));
    assert(((v >> kk) & 1u8 == 1u8) == (if kk == 0 { b0 } else if kk == 1 { b1 } else if kk == 2 { b2 } else if kk == 3 {
        b3
    } else if kk == 4 { b4 } else if kk == 5 { b5 } else if kk == 6 { b6 } else { b7 })) by (bit_vector)
        requires
            kk < 8,
            v == ((if b0 { 1u8 } else { 0u8 }) | (if b1 { 2u8 } else { 0u8 }) | (if b2 { 4u8 } else { 0u8 }) | (if b3 {
                8u8
            } else { 0u8 }) | (if b4 { 16u8 } else { 0u8 }) | (if b5 { 32u8 } else { 0u8 }) | (if b6 { 64u8 } else {
                0u8
            }) | (if b7 { 128u8 } else { 0u8 })),
    ;
}

/// Every bit sequence has its packed bytes: `packed` is well defined.
pub proof fn lemma_packed(w: Seq<bool>)
    ensures
        packed(w).len() == padded_len(w.len()),
        bits_of(packed(w)) == w + Seq::new((packed(w).len() * 8 - w.len()) as nat, |i: int| false),
{
    let n = padded_len(w.len());
    let pad = Seq::new((n * 8 - w.len()) as nat, |i: int| false);
    let wp = w + pad;
    let d = Seq::new(n, |i: int| byte_of_bits(wp, 8 * i));
    assert forall|q: int| 0 <= q < n * 8 implies #[trigger] bits_of(d)[q] == wp[q] by {
        let i = q / 8;
        let k = q % 8;
        assert(q == 8 * i + k);
        lemma_byte_of_bits(wp, 8 * i, k);
        assert(bits_of(d)[q] == byte_bit(d, q));
    }
    assert(bits_of(d) =~= wp);
}

impl BitWriter {
    pub fn new() -> (w: Self)
        ensures
            w@ == Seq::<bool>::empty(),
    {
        BitWriter { bits: Vec::new() }
    }

    pub fn putbit(&mut self, b: bool)
        ensures
            final(self)@ == old(self)@.push(b),
    {
        self.bits.push(b);
    }

    /// Append the low `n` bits of `v`, least-significant first.
    pub fn putbits(&mut self, v: u32, n: u32)
        ensures
            final(self)@ == old(self)@ + enc_bits(v as nat, n as nat),
    {
        let ghost start = self@;
        let mut t: u32 = v;
        let mut i: u32 = 0;
        while i < n
            invariant
                i <= n,
                self@ + enc_bits(t as nat, (n - i) as nat) == start + enc_bits(v as nat, n as nat),
            decreases n - i,
        {
            let ghost before = self@;
            proof {
                assert(enc_bits(t as nat, (n - i) as nat) == seq![t % 2 == 1] + enc_bits(
                    (t / 2) as nat,
                    (n - i - 1) as nat,
                ));
            }
            self.bits.push(t % 2 == 1);
            proof {
                assert(self@ == before + seq![t % 2 == 1]);
                assert(self@ + enc_bits((t / 2) as nat, (n - i - 1) as nat) =~= before + (seq![
                    t % 2 == 1,
                ] + enc_bits((t / 2) as nat, (n - i - 1) as nat)));
            }
            t = t / 2;
            i = i + 1;
        }
        assert(enc_bits(t as nat, 0) == Seq::<bool>::empty());
        assert(self@ + Seq::<bool>::empty() =~= self@);
    }

    /// Append `c` one bits.
    fn put_ones(&mut self, c: u32)
        ensures
            final(self)@ == old(self)@ + ones(c as nat),
    {
        let ghost start = self@;
        let mut i: u32 = 0;
        while i < c
            invariant
                i <= c,
                self@ == start + ones(i as nat),
            decreases c - i,
        {
            self.bits.push(true);
            i = i + 1;
            assert(self@ =~= start + ones(i as nat));
        }
    }

    /// Append `v` in `0..=maxcode` in truncated binary.
    pub fn write_code(&mut self, v: u32, maxcode: u32)
        requires
            v <= maxcode <= 0x7fff_ffff,
        ensures
            final(self)@ == old(self)@ + enc_code(v as nat, maxcode as nat),
    {
        proof {
            reveal(enc_code);
        }
        if maxcode == 0 {
            assert(old(self)@ + Seq::<bool>::empty() =~= old(self)@);
        } else if maxcode == 1 {
            self.putbit(v == 1);
        } else {
            let mut b: u32 = 0;
            let mut t: u32 = maxcode;
            let mut pw: u64 = 1;
            proof {
                lemma_nbits(maxcode as nat);
                lemma_p2_values();
                lemma_nbits_le(maxcode as nat, 31);
            }
            while t > 0
                invariant
                    nbits(maxcode as nat) == b + nbits(t as nat),
                    nbits(maxcode as nat) <= 31,
                    pw == p2(b as nat),
                decreases t,
            {
                proof {
                    lemma_p2_mono(b as nat, 30);
                    lemma_p2_values();
                }
                t = t / 2;
                b = b + 1;
                pw = pw * 2;
            }
            let extras: u64 = pw - maxcode as u64 - 1;
            if (v as u64) < extras {
                self.putbits(v, b - 1);
            } else {
                let w: u64 = v as u64 + extras;
                proof {
                    lemma_p2_mono(b as nat, 31);
                }
                self.putbits((w / 2) as u32, b - 1);
                self.putbit(w % 2 == 1);
                assert(final(self)@ =~= old(self)@ + enc_code(v as nat, maxcode as nat));
            }
        }
    }

    /// Append the Elias-gamma style code of `v`.
    pub fn write_egc(&mut self, v: u32)
        ensures
            final(self)@ == old(self)@ + enc_egc(v as nat),
    {
        proof {
            reveal(enc_egc);
        }
        if v < 2 {
            self.put_ones(v);
            self.putbit(false);
            assert(final(self)@ =~= old(self)@ + enc_egc(v as nat));
        } else {
            let mut c: u32 = 0;
            let mut t: u32 = v;
            let mut pw: u64 = 1;
            proof {
                lemma_nbits(v as nat);
                lemma_p2_values();
                lemma_nbits_le(v as nat, 32);
            }
            while t > 0
                invariant
                    nbits(v as nat) == c + nbits(t as nat),
                    nbits(v as nat) <= 32,
                    pw == p2(c as nat),
                decreases t,
            {
                proof {
                    lemma_p2_mono(c as nat, 31);
                    lemma_p2_values();
                }
                t = t / 2;
                c = c + 1;
                pw = pw * 2;
            }
            proof {
                assert(p2(c as nat) == 2 * p2((c - 1) as nat));
            }
            self.put_ones(c);
            self.putbit(false);
            self.putbits((v as u64 - pw / 2) as u32, c - 1);
            assert(final(self)@ =~= old(self)@ + enc_egc(v as nat));
        }
    }

    /// Append the unary ones count `raw` with escape at `limit`.
    pub fn write_ones_count(&mut self, raw: u32, limit: u32)
        ensures
            final(self)@ == old(self)@ + enc_ones(raw as nat, limit as nat),
    {
        proof {
            reveal(enc_ones);
        }
        if raw < limit {
            self.put_ones(raw);
            self.putbit(false);
        } else {
            self.put_ones(limit);
            self.putbit(false);
            self.write_egc(raw - limit);
        }
        assert(final(self)@ =~= old(self)@ + enc_ones(raw as nat, limit as nat));
    }

    /// Pack the bits into bytes, least-significant bit first, zero-padded to
    /// an even number of bytes.
    pub fn close(self) -> (r: Vec<u8>)
        ensures
            r@.len() == padded_len(self@.len()),
            bits_of(r@) == self@ + Seq::new((r@.len() * 8 - self@.len()) as nat, |i: int| false),
            r@ == packed(self@),
    {
        let n = self.bits.len();
        let nbytes0 = n / 8 + if n % 8 == 0 { 0 } else { 1 };
        let nbytes = if nbytes0 % 2 == 0 { nbytes0 } else { nbytes0 + 1 };
        let ghost w = self@;
        let mut out: Vec<u8> = Vec::new();
        let mut j: usize = 0;
        let mut idx: usize = 0;
        while j < nbytes
            invariant
                n == w.len(),
                nbytes == padded_len(n as nat),
                j <= nbytes,
                idx == (if j * 8 < n { j * 8 } else { n as int }),
                out@.len() == j,
                self@ == w,
                forall|i: int|
                    0 <= i < j * 8 ==> #[trigger] byte_bit(out@, i) == (i < n && w[i]),
            decreases nbytes - j,
        {
            let mut b: u8 = 0;
            let mut k: u32 = 0;
            assert(0u8 >> 0u8 == 0) by (bit_vector);
            while k < 8
                invariant
                    n == w.len(),
                    nbytes == padded_len(n as nat),
                    j < nbytes,
                    self@ == w,
                    out@.len() == j,
                    forall|i: int|
                        0 <= i < j * 8 ==> #[trigger] byte_bit(out@, i) == (i < n && w[i]),
                    k <= 8,
                    idx == (if j * 8 + k < n { j * 8 + k } else { n as int }),
                    k < 8 ==> b >> (k as u8) == 0,
                    forall|kk: int|
                        0 <= kk < k ==> #[trigger] u8_bit(b, kk) == (j * 8 + kk < n && w[j * 8
                            + kk]),
                decreases 8 - k,
            {
                let set = idx < n && self.bits[idx];
                let ghost b0 = b;
                let kb: u8 = k as u8;
                if set {
                    b = b | (1u8 << kb);
                }
                proof {
                    lemma_or_bit(b0, kb, set, b);
                    assert forall|kk: int| 0 <= kk < k + 1 implies #[trigger] u8_bit(b, kk) == (
                    j * 8 + kk < n && w[j * 8 + kk]) by {
                        if kk < k {
                            assert((b >> (kk as u8)) & 1u8 == (b0 >> (kk as u8)) & 1u8);
                            assert(u8_bit(b, kk) == u8_bit(b0, kk));
                        }
                    }
                }
                if idx < n {
                    idx = idx + 1;
                }
                k = k + 1;
            }
            let ghost before = out@;
            out.push(b);
            proof {
                assert forall|i: int| 0 <= i < (j + 1) * 8 implies #[trigger] byte_bit(out@, i) == (i
                    < n && w[i]) by {
                    if i < j * 8 {
                        assert(out@[i / 8] == before[i / 8]);
                        assert(byte_bit(before, i) == (i < n && w[i]));
                        assert(byte_bit(out@, i) == byte_bit(before, i));
                    } else {
                        assert(i / 8 == j);
                        let kk = i % 8;
                        assert(i == j * 8 + kk);
                        assert(out@[i / 8] == b);
                        assert(u8_bit(b, kk) == (j * 8 + kk < n && w[j * 8 + kk]));
                        assert(byte_bit(out@, i) == u8_bit(b, kk));
                    }
                }
            }
            j = j + 1;
        }
        proof {
            let pad = Seq::new((out@.len() * 8 - n) as nat, |i: int| false);
            assert(out@.len() * 8 >= n);
            assert forall|i: int| 0 <= i < out@.len() * 8 implies bits_of(out@)[i] == (w
                + pad)[i] by {
                assert(byte_bit(out@, i) == (i < n && w[i]));
            }
            assert(bits_of(out@) =~= w + pad);
            let d = packed(w);
            assert(d.len() == padded_len(w.len()) && bits_of(d) == w + Seq::new((d.len() * 8 - w.len()) as nat, |i: int| false));
            assert(Seq::new((d.len() * 8 - w.len()) as nat, |i: int| false) =~= pad);
            lemma_bits_of_injective(out@, d);
        }
        out
    }
}

/// Bit `k` of a byte.
pub open spec fn u8_bit(b: u8, k: int) -> bool {
    (b >> (k as u8)) & 1u8 == 1u8
}

/// Setting bit `k` of a byte whose bits from `k` up are clear.
proof fn lemma_or_bit(b0: u8, k: u8, set: bool, b: u8)
    requires
        k < 8,
        b0 >> k == 0,
        set ==> b == b0 | (1u8 << k),
        !set ==> b == b0,
    ensures
        (b >> k) & 1u8 == (if set {
            1u8
        } else {
            0u8
        }),
        forall|kk: u8| kk < k ==> #[trigger] ((b >> kk) & 1u8) == (b0 >> kk) & 1u8,
        k + 1 < 8 ==> b >> ((k + 1) as u8) == 0,
{
    if set {
        assert((b0 | (1u8 << k)) >> k & 1u8 == 1u8) by (bit_vector)
            requires
                k < 8,
                b0 >> k == 0,
        ;
        assert(forall|kk: u8| kk < k ==> #[trigger] (((b0 | (1u8 << k)) >> kk) & 1u8) == (b0
            >> kk) & 1u8) by (bit_vector)
            requires
                k < 8,
        ;
        assert(k + 1 < 8 ==> (b0 | (1u8 << k)) >> ((k + 1) as u8) == 0) by (bit_vector)
            requires
                k < 8,
                b0 >> k == 0,
        ;
    } else {
        assert((b0 >> k) & 1u8 == 0u8) by (bit_vector)
            requires
                b0 >> k == 0,
        ;
        assert(k + 1 < 8 ==> b0 >> ((k + 1) as u8) == 0) by (bit_vector)
            requires
                k < 8,
                b0 >> k == 0,
        ;
    }
}

} // verus!
