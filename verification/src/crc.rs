//! Bit-sequence CRC engine: polynomial long division over sequences
//! of single-bit symbols, most significant bit first, with no input or
//! output reflection and a zero initial register, parameterized by
//! generator polynomial and register width.

use crate::bits::{
    bits_msb, bits_ok, bits_value, is_bit, lemma_bits_msb_ok, lemma_bits_msb_value,
    lemma_bits_value_bound, lemma_u64_below_pow2, push_bits_msb, zero_bits,
};
use vstd::arithmetic::power2::{lemma_pow2_strictly_increases, pow2};
use vstd::prelude::*;

verus! {

/// One division step: shift the register left by one, bring in the
/// next bit, and subtract the generator polynomial exactly when the
/// register's most significant bit was set.
pub open spec fn crc_step(poly: u64, width: u64, reg: u64, bit: u8) -> u64
    recommends
        1 <= width <= 64,
{
    let msb = 1u64 << ((width - 1) as u64);
    if reg >= msb {
        (((reg - msb) * 2 + bit) as u64) ^ poly
    } else {
        ((reg * 2 + bit) as u64)
    }
}

/// The register after feeding every bit of `s`, in order.
pub open spec fn crc_run(poly: u64, width: u64, reg: u64, s: Seq<u8>) -> u64
    decreases s.len(),
{
    if s.len() == 0 {
        reg
    } else {
        crc_run(poly, width, crc_step(poly, width, reg, s[0]), s.drop_first())
    }
}

/// The checksum of `bits`: the register left by dividing `bits`
/// flushed with `width` zero bits, starting from a zero register.
/// Seeding the register with the first `width` padded bits and then
/// stepping over the rest computes the same value, since the first
/// `width` steps from a zero register only load bits
/// (`lemma_run_load`).
pub open spec fn crc_spec(poly: u64, width: u64, bits: Seq<u8>) -> u64 {
    crc_run(poly, width, 0, bits + zero_bits(width as nat))
}

/// The register value stays below `2^width`.
pub open spec fn reg_fits(reg: u64, width: u64) -> bool {
    width >= 64 || reg < (1u64 << width)
}

/// A valid configuration: a register of 1 to 64 bits and a polynomial
/// whose stored bits fit in the register (the polynomial's implicit
/// leading 1 bit is not stored).
pub open spec fn crc_config_ok(poly: u64, width: u64) -> bool {
    &&& 1 <= width <= 64
    &&& reg_fits(poly, width)
}

/// `s1` and `s2` combined bit by bit with exclusive or.
pub open spec fn xor_bits(s1: Seq<u8>, s2: Seq<u8>) -> Seq<u8>
    recommends
        s1.len() == s2.len(),
{
    Seq::new(s1.len(), |i: int| s1[i] ^ s2[i])
}

pub proof fn lemma_step_fits(poly: u64, width: u64, reg: u64, bit: u8)
    requires
        crc_config_ok(poly, width),
        reg_fits(reg, width),
        is_bit(bit),
    ensures
        reg_fits(crc_step(poly, width, reg, bit), width),
{
    if width < 64 {
        let m = 1u64 << ((width - 1) as u64);
        if reg >= m {
            assert(((((reg - (1u64 << ((width - 1) as u64))) * 2 + bit) as u64) ^ poly) < (1u64
                << width)) by (bit_vector)
                requires
                    1 <= width < 64,
                    poly < (1u64 << width),
                    reg < (1u64 << width),
                    reg >= (1u64 << ((width - 1) as u64)),
                    bit <= 1,
            ;
        } else {
            assert(((reg * 2 + bit) as u64) < (1u64 << width)) by (bit_vector)
                requires
                    1 <= width < 64,
                    reg < (1u64 << ((width - 1) as u64)),
                    bit <= 1,
            ;
        }
    }
}

/// A division step is linear: it commutes with exclusive or of the
/// registers and of the incoming bits.
pub proof fn lemma_step_linear(poly: u64, width: u64, r1: u64, b1: u8, r2: u64, b2: u8)
    requires
        crc_config_ok(poly, width),
        reg_fits(r1, width),
        reg_fits(r2, width),
        is_bit(b1),
        is_bit(b2),
    ensures
        crc_step(poly, width, r1 ^ r2, b1 ^ b2) == crc_step(poly, width, r1, b1) ^ crc_step(
            poly,
            width,
            r2,
            b2,
        ),
{
    assert(crc_step(poly, width, r1 ^ r2, b1 ^ b2) == crc_step(poly, width, r1, b1) ^ crc_step(
        poly,
        width,
        r2,
        b2,
    )) by (bit_vector)
        requires
            1 <= width <= 64,
            b1 <= 1,
            b2 <= 1,
            width < 64 ==> (poly < (1u64 << width) && r1 < (1u64 << width) && r2 < (1u64
                << width)),
    ;
}

pub proof fn lemma_run_concat(poly: u64, width: u64, reg: u64, s: Seq<u8>, t: Seq<u8>)
    ensures
        crc_run(poly, width, reg, s + t) == crc_run(poly, width, crc_run(poly, width, reg, s), t),
    decreases s.len(),
{
    if s.len() == 0 {
        assert(s + t =~= t);
    } else {
        assert((s + t)[0] == s[0]);
        assert((s + t).drop_first() =~= s.drop_first() + t);
        lemma_run_concat(poly, width, crc_step(poly, width, reg, s[0]), s.drop_first(), t);
    }
}

pub proof fn lemma_run_push(poly: u64, width: u64, reg: u64, s: Seq<u8>, b: u8)
    ensures
        crc_run(poly, width, reg, s.push(b)) == crc_step(
            poly,
            width,
            crc_run(poly, width, reg, s),
            b,
        ),
{
    lemma_run_concat(poly, width, reg, s, seq![b]);
    assert(s.push(b) =~= s + seq![b]);
    let x = crc_run(poly, width, reg, s);
    let y = crc_step(poly, width, x, b);
    assert(seq![b].drop_first() =~= Seq::<u8>::empty());
    assert(crc_run(poly, width, y, Seq::<u8>::empty()) == y);
    assert(crc_run(poly, width, x, seq![b]) == y);
}

pub proof fn lemma_run_fits(poly: u64, width: u64, reg: u64, s: Seq<u8>)
    requires
        crc_config_ok(poly, width),
        reg_fits(reg, width),
        bits_ok(s),
    ensures
        reg_fits(crc_run(poly, width, reg, s), width),
    decreases s.len(),
{
    if s.len() > 0 {
        assert(is_bit(s[0]));
        lemma_step_fits(poly, width, reg, s[0]);
        assert forall|i: int| 0 <= i < s.drop_first().len() implies is_bit(
            #[trigger] s.drop_first()[i],
        ) by {
            assert(s.drop_first()[i] == s[i + 1]);
        }
        lemma_run_fits(poly, width, crc_step(poly, width, reg, s[0]), s.drop_first());
    }
}

/// Zero bits fed into a zero register leave it zero.
pub proof fn lemma_run_zeros(poly: u64, width: u64, n: nat)
    requires
        crc_config_ok(poly, width),
    ensures
        crc_run(poly, width, 0, zero_bits(n)) == 0,
    decreases n,
{
    if n > 0 {
        assert(zero_bits(n)[0] == 0);
        assert((1u64 << ((width - 1) as u64)) >= 1) by (bit_vector)
            requires
                1 <= width <= 64,
        ;
        assert(crc_step(poly, width, 0, 0) == 0);
        assert(zero_bits(n).drop_first() =~= zero_bits((n - 1) as nat));
        lemma_run_zeros(poly, width, (n - 1) as nat);
    }
}

proof fn lemma_shl1_pow2(k: u64)
    requires
        k < 64,
    ensures
        (1u64 << k) == pow2(k as nat),
{
    vstd::bits::lemma_u64_pow2_no_overflow(k as nat);
    vstd::bits::lemma_u64_shl_is_mul(1u64, k);
}

/// Feeding at most `width` bits into a zero register just loads them:
/// the register ends up holding their integer value.
pub proof fn lemma_run_load(poly: u64, width: u64, s: Seq<u8>)
    requires
        crc_config_ok(poly, width),
        bits_ok(s),
        s.len() <= width,
    ensures
        crc_run(poly, width, 0, s) == bits_value(s),
    decreases s.len(),
{
    if s.len() > 0 {
        let t = s.drop_last();
        assert forall|i: int| 0 <= i < t.len() implies is_bit(#[trigger] t[i]) by {
            assert(t[i] == s[i]);
        }
        lemma_run_load(poly, width, t);
        lemma_run_push(poly, width, 0, t, s.last());
        assert(s =~= t.push(s.last()));
        lemma_bits_value_bound(t);
        lemma_shl1_pow2((width - 1) as u64);
        if t.len() < width - 1 {
            lemma_pow2_strictly_increases(t.len(), (width - 1) as nat);
        }
        let v = crc_run(poly, width, 0, t);
        let lb = s.last();
        assert(v < (1u64 << ((width - 1) as u64)));
        assert(crc_step(poly, width, v, lb) == (v * 2 + lb) as u64);
        assert(v * 2 + lb <= u64::MAX) by (bit_vector)
            requires
                v < (1u64 << ((width - 1) as u64)),
                lb <= 1,
                width <= 64,
                width >= 1,
        ;
    }
}

/// The whole division is linear in the fed bit sequence.
pub proof fn lemma_run_linear(poly: u64, width: u64, r1: u64, s1: Seq<u8>, r2: u64, s2: Seq<u8>)
    requires
        crc_config_ok(poly, width),
        reg_fits(r1, width),
        reg_fits(r2, width),
        bits_ok(s1),
        bits_ok(s2),
        s1.len() == s2.len(),
    ensures
        crc_run(poly, width, r1 ^ r2, xor_bits(s1, s2)) == crc_run(poly, width, r1, s1) ^ crc_run(
            poly,
            width,
            r2,
            s2,
        ),
    decreases s1.len(),
{
    if s1.len() == 0 {
        assert(xor_bits(s1, s2) =~= Seq::<u8>::empty());
    } else {
        let b1 = s1[0];
        let b2 = s2[0];
        assert(is_bit(b1) && is_bit(b2));
        assert(xor_bits(s1, s2)[0] == (b1 ^ b2));
        assert((b1 ^ b2) <= 1) by (bit_vector)
            requires
                b1 <= 1,
                b2 <= 1,
        ;
        lemma_step_linear(poly, width, r1, b1, r2, b2);
        lemma_step_fits(poly, width, r1, b1);
        lemma_step_fits(poly, width, r2, b2);
        assert forall|i: int| 0 <= i < s1.drop_first().len() implies is_bit(
            #[trigger] s1.drop_first()[i],
        ) by {
            assert(s1.drop_first()[i] == s1[i + 1]);
        }
        assert forall|i: int| 0 <= i < s2.drop_first().len() implies is_bit(
            #[trigger] s2.drop_first()[i],
        ) by {
            assert(s2.drop_first()[i] == s2[i + 1]);
        }
        assert(xor_bits(s1, s2).drop_first() =~= xor_bits(s1.drop_first(), s2.drop_first()));
        lemma_run_linear(
            poly,
            width,
            crc_step(poly, width, r1, b1),
            s1.drop_first(),
            crc_step(poly, width, r2, b2),
            s2.drop_first(),
        );
    }
}

proof fn lemma_u8_xor_basics()
    by (bit_vector)
    ensures
        forall|x: u8| #[trigger] (x ^ 0u8) == x,
        forall|x: u8| #[trigger] (0u8 ^ x) == x,
{
}

/// The checksum fixed point: a bit sequence with its own checksum
/// appended, most significant bit first, has checksum zero. This is
/// the integrity check a decoder performs over a protected frame.
pub proof fn lemma_crc_fixed_point(poly: u64, width: u64, b: Seq<u8>)
    requires
        crc_config_ok(poly, width),
        bits_ok(b),
    ensures
        crc_spec(poly, width, b + bits_msb(crc_spec(poly, width, b), width as nat)) == 0,
{
    let w = width as nat;
    let n = b.len();
    let zw = zero_bits(w);
    let zn = zero_bits(n);
    let c = crc_spec(poly, width, b);
    let cb = bits_msb(c, w);
    lemma_bits_msb_ok(c, w);
    assert(bits_ok(zw) && bits_ok(zn));

    // The checksum itself fits the register, so its bits denote it exactly.
    assert forall|i: int| 0 <= i < (b + zw).len() implies is_bit(#[trigger] (b + zw)[i]) by {}
    lemma_run_fits(poly, width, 0, b + zw);
    assert(reg_fits(c, width));
    assert(c < pow2(w)) by {
        if width < 64 {
            lemma_shl1_pow2(width);
        } else {
            lemma_u64_below_pow2(c, w);
        }
    }
    lemma_bits_msb_value(c, w);
    vstd::arithmetic::div_mod::lemma_small_mod(c as nat, pow2(w));
    assert(bits_value(cb) == c);

    let s1 = (b + zw) + zw;
    let s2 = zn + (cb + zw);
    assert(s1.len() == s2.len());
    assert(bits_ok(s1)) by {
        assert forall|i: int| 0 <= i < s1.len() implies is_bit(#[trigger] s1[i]) by {}
    }
    assert(bits_ok(s2)) by {
        assert forall|i: int| 0 <= i < s2.len() implies is_bit(#[trigger] s2[i]) by {}
    }

    // Running the two flushed sequences gives the same register.
    lemma_run_concat(poly, width, 0, b + zw, zw);
    lemma_run_concat(poly, width, 0, zn, cb + zw);
    lemma_run_zeros(poly, width, n);
    lemma_run_concat(poly, width, 0, cb, zw);
    lemma_run_load(poly, width, cb);
    let x = crc_run(poly, width, c, zw);
    assert(crc_run(poly, width, 0, s1) == x);
    assert(crc_run(poly, width, 0, s2) == x);

    // By linearity their bitwise combination runs to zero.
    assert((0u64 ^ 0u64) == 0u64) by (bit_vector);
    lemma_run_linear(poly, width, 0, s1, 0, s2);
    assert((x ^ x) == 0u64) by (bit_vector);
    assert(crc_run(poly, width, 0, xor_bits(s1, s2)) == 0);

    // That combination is exactly the sequence with the checksum appended.
    lemma_u8_xor_basics();
    assert(xor_bits(s1, s2) =~= (b + cb) + zw) by {
        assert forall|i: int| 0 <= i < s1.len() implies xor_bits(s1, s2)[i] == ((b + cb) + zw)[i] by {
            if i < n {
                assert(s1[i] == b[i] && s2[i] == 0u8);
            } else if i < n + w {
                assert(s1[i] == 0u8 && s2[i] == cb[i - n]);
            } else {
                assert(s1[i] == 0u8 && s2[i] == 0u8);
            }
        }
    }
    assert(crc_spec(poly, width, b + cb) == crc_run(poly, width, 0, (b + cb) + zw));
}

/// Reported when a checksum is requested for a register width of zero
/// or beyond 64 bits, or for a polynomial wider than the register.
#[derive(Clone, Copy, Debug, PartialEq, Eq, Structural)]
pub enum CrcError {
    InvalidConfig,
}

fn crc_step_exec(poly: u64, width: u64, reg: u64, bit: u8) -> (r: u64)
    requires
        crc_config_ok(poly, width),
        reg_fits(reg, width),
        is_bit(bit),
    ensures
        r == crc_step(poly, width, reg, bit),
        reg_fits(r, width),
{
    proof {
        lemma_step_fits(poly, width, reg, bit);
    }
    let msb = 1u64 << (width - 1);
    if reg >= msb {
        proof {
            assert((reg - (1u64 << ((width - 1) as u64))) * 2 + bit <= u64::MAX) by (bit_vector)
                requires
                    1 <= width <= 64,
                    bit <= 1,
                    reg >= (1u64 << ((width - 1) as u64)),
                    width < 64 ==> reg < (1u64 << width),
            ;
        }
        ((reg - msb) * 2 + (bit as u64)) ^ poly
    } else {
        proof {
            assert(reg * 2 + bit <= u64::MAX) by (bit_vector)
                requires
                    1 <= width <= 64,
                    bit <= 1,
                    reg < (1u64 << ((width - 1) as u64)),
            ;
        }
        reg * 2 + (bit as u64)
    }
}

/// Computes the checksum of `data`, a sequence of single-bit symbols,
/// for the given generator polynomial and register width. A width of
/// zero or beyond 64 bits, or a polynomial that does not fit the
/// register, is an invalid configuration and is reported.
pub fn crc_compute(poly: u64, width: u64, data: &Vec<u8>) -> (r: Result<u64, CrcError>)
    requires
        bits_ok(data@),
    ensures
        crc_config_ok(poly, width) ==> r == Ok::<u64, CrcError>(crc_spec(poly, width, data@)),
        !crc_config_ok(poly, width) ==> r == Err::<u64, CrcError>(CrcError::InvalidConfig),
        crc_config_ok(poly, width) ==> reg_fits(crc_spec(poly, width, data@), width),
{
    if width < 1 || width > 64 {
        return Err(CrcError::InvalidConfig);
    }
    if width < 64 && poly >= (1u64 << width) {
        return Err(CrcError::InvalidConfig);
    }
    let mut reg: u64 = 0;
    let mut i: usize = 0;
    proof {
        assert(data@.take(0) =~= Seq::<u8>::empty());
    }
    while i < data.len()
        invariant
            crc_config_ok(poly, width),
            bits_ok(data@),
            i <= data@.len(),
            reg == crc_run(poly, width, 0, data@.take(i as int)),
            reg_fits(reg, width),
        decreases data@.len() - i,
    {
        let b = data[i];
        proof {
            lemma_run_push(poly, width, 0, data@.take(i as int), b);
            assert(data@.take(i + 1) =~= data@.take(i as int).push(b));
        }
        reg = crc_step_exec(poly, width, reg, b);
        i = i + 1;
    }
    proof {
        assert(data@.take(data@.len() as int) =~= data@);
        assert(data@ + zero_bits(0) =~= data@);
    }
    let mut j: u64 = 0;
    while j < width
        invariant
            crc_config_ok(poly, width),
            bits_ok(data@),
            j <= width,
            reg == crc_run(poly, width, 0, data@ + zero_bits(j as nat)),
            reg_fits(reg, width),
        decreases width - j,
    {
        proof {
            lemma_run_push(poly, width, 0, data@ + zero_bits(j as nat), 0);
            assert(data@ + zero_bits((j + 1) as nat) =~= (data@ + zero_bits(j as nat)).push(0));
        }
        reg = crc_step_exec(poly, width, reg, 0);
        j = j + 1;
    }
    Ok(reg)
}

/// Configuration of one CRC instantiation.
///
/// For a generator polynomial such as `x^8 + x^2 + x^1 + 1` the stored
/// value of `poly` is `0b0000_0111` (the leading 1 bit is implicit)
/// and `poly_len` is the register width, 8.
pub struct CrcOptions<T> {
    poly: T,
    poly_len: T,
}

impl<T> CrcOptions<T> {
    pub closed spec fn spec_poly(&self) -> T {
        self.poly
    }

    pub closed spec fn spec_poly_len(&self) -> T {
        self.poly_len
    }

    /// Create a builder to the CRC encoder.
    pub fn new(poly: T, poly_len: T) -> (r: Self)
        ensures
            r.spec_poly() == poly,
            r.spec_poly_len() == poly_len,
    {
        CrcOptions { poly, poly_len }
    }
}

impl CrcOptions<u8> {
    /// Both configuration values describe an 8-bit-register checksum.
    pub open spec fn wf(&self) -> bool {
        &&& 1 <= self.spec_poly_len() <= 8
        &&& crc_config_ok(self.spec_poly() as u64, self.spec_poly_len() as u64)
    }

    /// Encode data using CRC8 encoding.
    ///
    /// This method is available only if `CrcOptions` is of type `u8`.
    pub fn build_crc8(&self, data: &Vec<u8>) -> (r: u8)
        requires
            self.wf(),
            bits_ok(data@),
        ensures
            r == crc_spec(self.spec_poly() as u64, self.spec_poly_len() as u64, data@),
    {
        let res = crc_compute(self.poly as u64, self.poly_len as u64, data);
        match res {
            Ok(v) => {
                proof {
                    let pl = self.spec_poly_len() as u64;
                    assert((1u64 << pl) <= 256) by (bit_vector)
                        requires
                            1 <= pl <= 8,
                    ;
                }
                v as u8
            },
            Err(_) => {
                proof {
                    assert(false);
                }
                0
            },
        }
    }

    /// Append the checksum's bits, most significant bit first, after
    /// the data bits.
    pub fn combine_crc8(&self, data: Vec<u8>, checksum: u8) -> (r: Vec<u8>)
        requires
            self.wf(),
        ensures
            r@ == data@ + bits_msb(checksum as u64, self.spec_poly_len() as nat),
    {
        let mut out = data;
        push_bits_msb(&mut out, checksum as u64, self.poly_len as usize);
        out
    }
}

/// The elements of a bit sequence carried in `u16` values.
pub open spec fn bits_ok_u16(s: Seq<u16>) -> bool {
    forall|i: int| 0 <= i < s.len() ==> (#[trigger] s[i] == 0 || s[i] == 1)
}

/// The same bit sequence moved into `u8` symbols.
pub open spec fn bits_from_u16(s: Seq<u16>) -> Seq<u8> {
    s.map_values(|x: u16| x as u8)
}

impl CrcOptions<u16> {
    /// Both configuration values describe a 16-bit-register checksum.
    pub open spec fn wf(&self) -> bool {
        &&& 1 <= self.spec_poly_len() <= 16
        &&& crc_config_ok(self.spec_poly() as u64, self.spec_poly_len() as u64)
    }

    /// Encode data using CRC16 encoding.
    ///
    /// This method is available only if `CrcOptions` is of type `u16`.
    pub fn build_crc16(&self, data: &Vec<u16>) -> (r: u16)
        requires
            self.wf(),
            bits_ok_u16(data@),
        ensures
            r == crc_spec(
                self.spec_poly() as u64,
                self.spec_poly_len() as u64,
                bits_from_u16(data@),
            ),
    {
        let mut bits8: Vec<u8> = Vec::new();
        let mut i: usize = 0;
        proof {
            assert(bits8@ =~= bits_from_u16(data@.take(0)));
        }
        while i < data.len()
            invariant
                bits_ok_u16(data@),
                i <= data@.len(),
                bits8@ == bits_from_u16(data@.take(i as int)),
            decreases data@.len() - i,
        {
            let b = data[i];
            bits8.push(b as u8);
            proof {
                assert(bits_from_u16(data@.take(i + 1)) =~= bits_from_u16(
                    data@.take(i as int),
                ).push(b as u8));
            }
            i = i + 1;
        }
        proof {
            assert(data@.take(data@.len() as int) =~= data@);
            assert(bits_ok(bits8@));
        }
        let res = crc_compute(self.poly as u64, self.poly_len as u64, &bits8);
        match res {
            Ok(v) => {
                proof {
                    let pl = self.spec_poly_len() as u64;
                    assert((1u64 << pl) <= 0x10000) by (bit_vector)
                        requires
                            1 <= pl <= 16,
                    ;
                }
                v as u16
            },
            Err(_) => {
                proof {
                    assert(false);
                }
                0
            },
        }
    }

    /// Append the checksum's bits, most significant bit first, after
    /// the data bits.
    pub fn combine_crc16(&self, data: Vec<u16>, checksum: u16) -> (r: Vec<u16>)
        requires
            self.wf(),
        ensures
            r@ == data@ + bits_msb(checksum as u64, self.spec_poly_len() as nat).map_values(
                |x: u8| x as u16,
            ),
    {
        let ghost w = self.spec_poly_len() as nat;
        let mut out = data;
        let mut bits8: Vec<u8> = Vec::new();
        push_bits_msb(&mut bits8, checksum as u64, self.poly_len as usize);
        let mut i: usize = 0;
        while i < bits8.len()
            invariant
                bits8@ == bits_msb(checksum as u64, w),
                i <= bits8@.len(),
                out@ == data@ + bits_msb(checksum as u64, w).map_values(|x: u8| x as u16).take(
                    i as int,
                ),
            decreases bits8@.len() - i,
        {
            let b = bits8[i];
            out.push(b as u16);
            proof {
                assert(bits_msb(checksum as u64, w).map_values(|x: u8| x as u16).take(i + 1)
                    =~= bits_msb(checksum as u64, w).map_values(|x: u8| x as u16).take(
                    i as int,
                ).push(b as u16));
            }
            i = i + 1;
        }
        proof {
            let m = bits_msb(checksum as u64, w).map_values(|x: u8| x as u16);
            assert(m.take(m.len() as int) =~= m);
        }
        out
    }
}

} // verus!
