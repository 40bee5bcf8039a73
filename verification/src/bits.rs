//! The common currency of the encoder: sequences of single-bit
//! symbols, each stored as a `u8` that is 0 or 1, most significant
//! bit first.

use vstd::arithmetic::power2::{
    lemma2_to64, lemma_pow2_adds, lemma_pow2_strictly_increases, lemma_pow2_unfold, pow2,
};
use vstd::prelude::*;

verus! {

/// A bit symbol: a `u8` holding 0 or 1.
pub open spec fn is_bit(b: u8) -> bool {
    b == 0 || b == 1
}

/// All elements of `s` are bit symbols.
pub open spec fn bits_ok(s: Seq<u8>) -> bool {
    forall|i: int| 0 <= i < s.len() ==> is_bit(#[trigger] s[i])
}

/// Bit `k` of `v`, counting from the least significant bit; bits at
/// position 64 and above are zero.
pub open spec fn bit_of(v: u64, k: nat) -> u8 {
    if k >= 64 {
        0u8
    } else {
        ((v >> (k as u64)) & 1) as u8
    }
}

/// The low `width` bits of `v`, most significant bit first.
pub open spec fn bits_msb(v: u64, width: nat) -> Seq<u8> {
    Seq::new(width, |i: int| bit_of(v, (width - 1 - i) as nat))
}

/// The unsigned integer that a bit sequence denotes, most significant
/// bit first.
pub open spec fn bits_value(s: Seq<u8>) -> nat
    decreases s.len(),
{
    if s.len() == 0 {
        0
    } else {
        bits_value(s.drop_last()) * 2 + s.last() as nat
    }
}

/// `n` one-bits.
pub open spec fn one_bits(n: nat) -> Seq<u8> {
    Seq::new(n, |i: int| 1u8)
}

/// `n` zero-bits.
pub open spec fn zero_bits(n: nat) -> Seq<u8> {
    Seq::new(n, |i: int| 0u8)
}

pub proof fn lemma_bit_of_is_bit(v: u64, k: nat)
    ensures
        is_bit(bit_of(v, k)),
{
    if k < 64 {
        let ku = k as u64;
        assert(((v >> ku) & 1) <= 1) by (bit_vector);
    }
}

pub proof fn lemma_bits_msb_ok(v: u64, width: nat)
    ensures
        bits_msb(v, width).len() == width,
        bits_ok(bits_msb(v, width)),
{
    assert forall|i: int| 0 <= i < width implies is_bit(#[trigger] bits_msb(v, width)[i]) by {
        lemma_bit_of_is_bit(v, (width - 1 - i) as nat);
    }
}

/// A sequence of bit symbols denotes a value below `2^len`.
pub proof fn lemma_bits_value_bound(s: Seq<u8>)
    requires
        bits_ok(s),
    ensures
        bits_value(s) < pow2(s.len()),
    decreases s.len(),
{
    if s.len() == 0 {
        lemma2_to64();
    } else {
        assert(bits_ok(s.drop_last())) by {
            assert(forall|i: int|
                0 <= i < s.len() - 1 ==> s.drop_last()[i] == #[trigger] s[i]);
        }
        lemma_bits_value_bound(s.drop_last());
        lemma_pow2_unfold(s.len());
        assert(s.last() as nat <= 1);
    }
}

/// Concatenation shifts the leading bits up by the length of the tail.
pub proof fn lemma_bits_value_concat(s: Seq<u8>, t: Seq<u8>)
    ensures
        bits_value(s + t) == bits_value(s) * pow2(t.len()) + bits_value(t),
    decreases t.len(),
{
    if t.len() == 0 {
        assert(s + t =~= s);
        lemma2_to64();
        assert(bits_value(t) == 0);
        assert(pow2(t.len()) == 1);
        assert(bits_value(s) * 1 == bits_value(s)) by (nonlinear_arith);
        assert(bits_value(s + t) == bits_value(s) * pow2(t.len()) + bits_value(t));
    } else {
        assert((s + t).drop_last() =~= s + t.drop_last());
        assert((s + t).last() == t.last());
        lemma_bits_value_concat(s, t.drop_last());
        lemma_pow2_unfold(t.len());
        let a = bits_value(s);
        let pt = pow2((t.len() - 1) as nat);
        let c = t.last() as nat;
        let bt = bits_value(t.drop_last());
        assert(bits_value(s + t) == (a * pt + bt) * 2 + c);
        assert((a * pt + bt) * 2 + c == a * (2 * pt) + (bt * 2 + c)) by (nonlinear_arith);
        assert(pow2(t.len()) == 2 * pt);
        assert(a * pow2(t.len()) == a * (2 * pt));
        assert(bits_value(t) == bt * 2 + c);
        assert(bits_value(s + t) == bits_value(s) * pow2(t.len()) + bits_value(t));
    }
}

/// The bits of `v` taken most significant first denote `v % 2^width`.
pub proof fn lemma_bits_msb_value(v: u64, width: nat)
    ensures
        bits_value(bits_msb(v, width)) == v as nat % pow2(width),
    decreases width,
{
    if width == 0 {
        lemma2_to64();
        assert(bits_msb(v, 0) =~= Seq::<u8>::empty());
    } else {
        let head = seq![bit_of(v, (width - 1) as nat)];
        let tail = bits_msb(v, (width - 1) as nat);
        assert(bits_msb(v, width) =~= head + tail);
        lemma_bits_msb_value(v, (width - 1) as nat);
        lemma_bits_value_concat(head, tail);
        assert(head.drop_last() =~= Seq::<u8>::empty());
        assert(bits_value(head.drop_last()) == 0);
        assert(head.last() == bit_of(v, (width - 1) as nat));
        assert(bits_value(head) == bit_of(v, (width - 1) as nat) as nat);
        lemma_split_top_bit(v, width);
    }
}

/// `v % 2^w` splits into bit `w-1` of `v` and `v % 2^(w-1)`.
proof fn lemma_split_top_bit(v: u64, width: nat)
    requires
        width >= 1,
    ensures
        v as nat % pow2(width) == bit_of(v, (width - 1) as nat) * pow2((width - 1) as nat)
            + v as nat % pow2((width - 1) as nat),
{
    let k = (width - 1) as nat;
    if k >= 64 {
        lemma2_to64();
        lemma_u64_below_pow2(v, k);
        lemma_u64_below_pow2(v, width);
        vstd::arithmetic::div_mod::lemma_small_mod(v as nat, pow2(k));
        vstd::arithmetic::div_mod::lemma_small_mod(v as nat, pow2(width));
    } else {
        let ku = k as u64;
        vstd::bits::lemma_u64_shr_is_div(v, ku);
        assert((v >> ku) & 1 == (v >> ku) % 2) by (bit_vector);
        vstd::arithmetic::power2::lemma_pow2_pos(k);
        vstd::arithmetic::div_mod::lemma_mod_breakdown(v as int, pow2(k) as int, 2);
        lemma_pow2_unfold(width);
        assert(pow2(k) * 2 == 2 * pow2(k)) by (nonlinear_arith);
        assert(bit_of(v, k) == (v as nat / pow2(k)) % 2);
        assert(pow2(k) * ((v as nat / pow2(k)) % 2) == ((v as nat / pow2(k)) % 2) * pow2(k))
            by (nonlinear_arith);
    }
}

/// Every `u64` is below `2^k` once `k` reaches 64.
pub proof fn lemma_u64_below_pow2(v: u64, k: nat)
    requires
        k >= 64,
    ensures
        (v as nat) < pow2(k),
{
    lemma2_to64();
    assert(pow2(64) == 0x10000000000000000) by {
        lemma_pow2_adds(32, 32);
        lemma2_to64();
    }
    if k > 64 {
        lemma_pow2_strictly_increases(64, k);
    }
}

/// Leading one-bits of `s` before the first other symbol.
pub open spec fn lead_ones(s: Seq<u8>) -> nat
    decreases s.len(),
{
    if s.len() == 0 {
        0
    } else if s[0] == 1 {
        1 + lead_ones(s.drop_first())
    } else {
        0
    }
}

pub proof fn lemma_lead_ones_exact(s: Seq<u8>, c: nat)
    requires
        c < s.len(),
        forall|i: int| 0 <= i < c ==> #[trigger] s[i] == 1,
        s[c as int] != 1,
    ensures
        lead_ones(s) == c,
    decreases c,
{
    if c == 0 {
    } else {
        assert(s[0] == 1);
        let t = s.drop_first();
        assert(forall|i: int| 0 <= i < t.len() ==> #[trigger] t[i] == s[i + 1]);
        lemma_lead_ones_exact(t, (c - 1) as nat);
    }
}

pub proof fn lemma_lead_ones_min(s: Seq<u8>, c: nat)
    requires
        c <= s.len(),
        forall|i: int| 0 <= i < c ==> #[trigger] s[i] == 1,
    ensures
        lead_ones(s) >= c,
    decreases c,
{
    if c > 0 {
        assert(s[0] == 1);
        let t = s.drop_first();
        assert(forall|i: int| 0 <= i < t.len() ==> #[trigger] t[i] == s[i + 1]);
        lemma_lead_ones_min(t, (c - 1) as nat);
    }
}

pub proof fn lemma_lead_ones_le(s: Seq<u8>)
    ensures
        lead_ones(s) <= s.len(),
    decreases s.len(),
{
    if s.len() > 0 && s[0] == 1 {
        lemma_lead_ones_le(s.drop_first());
    }
}

/// `v mod 2^(a+b)` splits at bit `a` into a high and a low part.
pub proof fn lemma_split_low_bits(v: u64, a: nat, b: nat)
    requires
        a < 64,
    ensures
        v as nat % pow2(a + b) == ((v >> (a as u64)) as nat % pow2(b)) * pow2(a) + v as nat % pow2(
            a,
        ),
{
    vstd::bits::lemma_u64_shr_is_div(v, a as u64);
    lemma_pow2_adds(a, b);
    vstd::arithmetic::power2::lemma_pow2_pos(a);
    vstd::arithmetic::power2::lemma_pow2_pos(b);
    vstd::arithmetic::div_mod::lemma_mod_breakdown(v as int, pow2(a) as int, pow2(b) as int);
    let q = (v as nat / pow2(a)) % pow2(b);
    assert(pow2(a) * q == q * pow2(a)) by (nonlinear_arith);
}

/// Shifting twice is shifting by the sum.
#[verifier::rlimit(60)]
pub proof fn lemma_shr_shr(v: u64, a: u64, b: u64)
    requires
        a + b < 64,
    ensures
        (v >> a) >> b == v >> ((a + b) as u64),
{
    let c = (a + b) as u64;
    assert((v >> a) >> b == v >> c) by (bit_vector)
        requires
            a < 64,
            b < 64,
            c == a + b,
    ;
}

/// The value of a bit sequence is at least the value of any prefix.
pub proof fn lemma_bits_value_prefix(s: Seq<u8>, j: int)
    requires
        0 <= j <= s.len(),
    ensures
        bits_value(s) >= bits_value(s.take(j)),
{
    assert(s =~= s.take(j) + s.skip(j));
    lemma_bits_value_concat(s.take(j), s.skip(j));
    vstd::arithmetic::power2::lemma_pow2_pos((s.len() - j) as nat);
    let a = bits_value(s.take(j));
    let p = pow2((s.len() - j) as nat);
    assert(a * p >= a) by (nonlinear_arith)
        requires
            p >= 1,
            a >= 0,
    ;
}

/// Reads a bit sequence, most significant bit first, as an unsigned
/// 64-bit integer; reports when the value does not fit.
pub fn bits_fold_checked(slots: &Vec<u8>) -> (r: Option<u64>)
    requires
        bits_ok(slots@),
    ensures
        r matches Some(v) ==> v == bits_value(slots@),
        r is None ==> bits_value(slots@) > u64::MAX,
{
    let mut acc: u64 = 0;
    let mut i: usize = 0;
    proof {
        assert(slots@.take(0) =~= Seq::<u8>::empty());
    }
    while i < slots.len()
        invariant
            bits_ok(slots@),
            i <= slots@.len(),
            acc == bits_value(slots@.take(i as int)),
        decreases slots@.len() - i,
    {
        let b = slots[i];
        proof {
            assert(slots@.take(i + 1).drop_last() =~= slots@.take(i as int));
            assert(slots@.take(i + 1).last() == slots@[i as int]);
        }
        if acc > (u64::MAX - (b as u64)) / 2 {
            proof {
                assert(bits_value(slots@.take(i + 1)) > u64::MAX);
                lemma_bits_value_prefix(slots@, i + 1);
            }
            return None;
        }
        acc = acc * 2 + (b as u64);
        i = i + 1;
    }
    proof {
        assert(slots@.take(slots@.len() as int) =~= slots@);
    }
    Some(acc)
}

/// Pushes the low `width` bits of `v`, most significant first.
pub fn push_bits_msb(out: &mut Vec<u8>, v: u64, width: usize)
    ensures
        final(out)@ == old(out)@ + bits_msb(v, width as nat),
{
    let ghost orig = out@;
    for i in 0..width
        invariant
            out@ == orig + bits_msb(v, width as nat).take(i as int),
    {
        let k = width - 1 - i;
        let b: u8 = if k >= 64 {
            0u8
        } else {
            let kb = k as u64;
            proof {
                assert(((v >> kb) & 1) <= 1) by (bit_vector);
            }
            ((v >> kb) & 1) as u8
        };
        out.push(b);
        proof {
            assert(b == bit_of(v, (width - 1 - i) as nat));
            assert(bits_msb(v, width as nat).take(i + 1) =~= bits_msb(v, width as nat).take(
                i as int,
            ).push(b));
        }
    }
    proof {
        assert(bits_msb(v, width as nat).take(width as int) =~= bits_msb(v, width as nat));
    }
}

} // verus!
