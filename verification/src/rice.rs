//! Rice residual coder: a value splits into a unary quotient (a run
//! of one-bits closed by a zero stop bit) and `k` binary remainder
//! bits, most significant first.

use crate::bits::{
    bits_fold_checked, bits_msb, bits_ok, bits_value, is_bit, lead_ones, lemma_bits_msb_ok,
    lemma_bits_msb_value, lemma_lead_ones_exact, lemma_lead_ones_le, lemma_lead_ones_min,
    lemma_u64_below_pow2, one_bits, push_bits_msb,
};
use vstd::arithmetic::power2::pow2;
use vstd::prelude::*;

verus! {

pub struct RiceEncoder;

/// Error reported by the Rice coder's decoding side.
#[derive(Clone, Copy, Debug, PartialEq, Eq, Structural)]
pub enum RiceError {
    /// The bit sequence is not a quotient run, a stop bit, and `k`
    /// remainder bits.
    InvalidEncoding,
    /// The decoded value does not fit an unsigned 64-bit integer.
    ValueOutOfRange,
}

/// The unary quotient of `v` for parameter `k`.
pub open spec fn rice_quot(v: u64, k: nat) -> nat {
    (v as nat) / pow2(k)
}

/// The encoding of `v`: quotient one-bits, a zero stop bit, then the
/// low `k` bits of `v`, most significant first.
pub open spec fn rice_encode_spec(v: u64, k: nat) -> Seq<u8> {
    (one_bits(rice_quot(v, k)) + seq![0u8]) + bits_msb(v, k)
}

/// Reading back: count one-bits to the stop bit, scale by `2^k`, and
/// add the remainder bits; `None` when the sequence is not exactly a
/// quotient run, a stop bit, and `k` remainder bits.
pub open spec fn rice_decode_spec(s: Seq<u8>, k: nat) -> Option<nat> {
    let q = lead_ones(s);
    if s.len() == q + 1 + k {
        Some(q * pow2(k) + bits_value(s.subrange(q as int + 1, s.len() as int)))
    } else {
        None
    }
}

/// Round trip of the Rice code: decoding recovers the value, and the
/// encoded length is exactly `(v >> k) + 1 + k` bits.
pub proof fn lemma_rice_round_trip(v: u64, k: nat)
    ensures
        rice_encode_spec(v, k).len() == rice_quot(v, k) + 1 + k,
        rice_decode_spec(rice_encode_spec(v, k), k) == Some(v as nat),
{
    let q = rice_quot(v, k);
    let e = rice_encode_spec(v, k);
    lemma_bits_msb_ok(v, k);
    assert(e.len() == q + 1 + k);
    assert forall|i: int| 0 <= i < q implies #[trigger] e[i] == 1 by {
        assert(e[i] == one_bits(q)[i]);
    }
    assert(e[q as int] == 0) by {
        assert(e[q as int] == (one_bits(q) + seq![0u8])[q as int]);
    }
    lemma_lead_ones_exact(e, q);
    assert(e.subrange(q as int + 1, e.len() as int) =~= bits_msb(v, k));
    lemma_bits_msb_value(v, k);
    vstd::arithmetic::power2::lemma_pow2_pos(k);
    vstd::arithmetic::div_mod::lemma_fundamental_div_mod(v as int, pow2(k) as int);
    assert(pow2(k) as int * ((v as int) / (pow2(k) as int)) == ((v as int) / (pow2(k) as int))
        * pow2(k) as int) by (nonlinear_arith);
}

impl RiceEncoder {
    /// Encode `num` with Rice parameter `k`: `num >> k` one-bits, a
    /// zero stop bit, then the low `k` bits of `num`, most
    /// significant first. The quotient run's length is unbounded in
    /// `num`; choosing `k` to keep it short is the caller's concern.
    pub fn encode(num: u64, k: usize) -> (r: Vec<u8>)
        ensures
            r@ == rice_encode_spec(num, k as nat),
            r@.len() == rice_quot(num, k as nat) + 1 + k,
    {
        let q: u64 = if k >= 64 {
            proof {
                lemma_u64_below_pow2(num, k as nat);
                vstd::arithmetic::div_mod::lemma_basic_div(num as int, pow2(k as nat) as int);
            }
            0
        } else {
            proof {
                vstd::bits::lemma_u64_shr_is_div(num, k as u64);
            }
            num >> (k as u64)
        };
        let mut out: Vec<u8> = Vec::new();
        let mut i: u64 = 0;
        while i < q
            invariant
                i <= q,
                out@ == one_bits(i as nat),
            decreases q - i,
        {
            out.push(1);
            proof {
                assert(one_bits((i + 1) as nat) =~= one_bits(i as nat).push(1u8));
            }
            i = i + 1;
        }
        out.push(0);
        push_bits_msb(&mut out, num, k);
        proof {
            assert(out@ =~= rice_encode_spec(num, k as nat));
        }
        out
    }

    /// Decode a Rice-coded bit sequence with parameter `k`; a
    /// malformed sequence, or a value beyond 64 bits, is reported.
    pub fn decode(bits: &Vec<u8>, k: usize) -> (r: Result<u64, RiceError>)
        requires
            bits_ok(bits@),
        ensures
            rice_decode_spec(bits@, k as nat) matches Some(val) ==> ((val <= u64::MAX ==> (
            r matches Ok(x) && x == val)) && (val > u64::MAX ==> r == Err::<u64, RiceError>(
                RiceError::ValueOutOfRange,
            ))),
            rice_decode_spec(bits@, k as nat) is None ==> r == Err::<u64, RiceError>(
                RiceError::InvalidEncoding,
            ),
    {
        let mut q: usize = 0;
        while q < bits.len() && bits[q] == 1
            invariant
                bits_ok(bits@),
                q <= bits@.len(),
                forall|i: int| 0 <= i < q ==> #[trigger] bits@[i] == 1,
            decreases bits@.len() - q,
        {
            q = q + 1;
        }
        if q == bits.len() {
            proof {
                lemma_lead_ones_min(bits@, q as nat);
                lemma_lead_ones_le(bits@);
            }
            return Err(RiceError::InvalidEncoding);
        }
        proof {
            lemma_lead_ones_exact(bits@, q as nat);
        }
        if bits.len() - q - 1 != k {
            return Err(RiceError::InvalidEncoding);
        }
        let ghost val = (q as nat) * pow2(k as nat) + bits_value(
            bits@.subrange(q as int + 1, bits@.len() as int),
        );
        proof {
            assert(rice_decode_spec(bits@, k as nat) == Some(val));
        }

        // Collect the remainder bits.
        let mut rem_bits: Vec<u8> = Vec::new();
        let mut i: usize = q + 1;
        proof {
            assert(bits@.subrange(q as int + 1, q as int + 1) =~= Seq::<u8>::empty());
        }
        while i < bits.len()
            invariant
                bits_ok(bits@),
                q + 1 <= i <= bits@.len(),
                rem_bits@ == bits@.subrange(q as int + 1, i as int),
            decreases bits@.len() - i,
        {
            rem_bits.push(bits[i]);
            proof {
                assert(bits@.subrange(q as int + 1, i + 1) =~= bits@.subrange(
                    q as int + 1,
                    i as int,
                ).push(bits@[i as int]));
            }
            i = i + 1;
        }
        proof {
            assert(bits_ok(rem_bits@)) by {
                assert forall|t: int| 0 <= t < rem_bits@.len() implies is_bit(
                    #[trigger] rem_bits@[t],
                ) by {
                    assert(rem_bits@[t] == bits@[q as int + 1 + t]);
                }
            }
        }
        let rem: u64 = match bits_fold_checked(&rem_bits) {
            Some(r) => r,
            None => {
                proof {
                    vstd::arithmetic::power2::lemma_pow2_pos(k as nat);
                    assert((q as nat) * pow2(k as nat) >= 0) by (nonlinear_arith)
                        requires
                            pow2(k as nat) >= 1,
                    ;
                }
                return Err(RiceError::ValueOutOfRange);
            },
        };
        if k >= 64 {
            if q > 0 {
                proof {
                    vstd::arithmetic::power2::lemma_pow2_pos(k as nat);
                    lemma_u64_below_pow2(u64::MAX, k as nat);
                    assert((q as nat) * pow2(k as nat) >= pow2(k as nat)) by (nonlinear_arith)
                        requires
                            q >= 1,
                            pow2(k as nat) >= 1,
                    ;
                }
                return Err(RiceError::ValueOutOfRange);
            }
            Ok(rem)
        } else {
            let kk = k as u64;
            proof {
                vstd::bits::lemma_u64_shr_is_div(u64::MAX, kk);
                vstd::arithmetic::power2::lemma_pow2_pos(k as nat);
            }
            if (q as u64) > (u64::MAX >> kk) {
                proof {
                    let p = pow2(k as nat) as int;
                    let m = u64::MAX as int;
                    vstd::arithmetic::div_mod::lemma_fundamental_div_mod(m, p);
                    vstd::arithmetic::div_mod::lemma_mod_bound(m, p);
                    assert((q as int) * p > m) by (nonlinear_arith)
                        requires
                            q as int >= m / p + 1,
                            p >= 1,
                            m == p * (m / p) + m % p,
                            m % p < p,
                    ;
                }
                return Err(RiceError::ValueOutOfRange);
            }
            proof {
                let p = pow2(k as nat) as int;
                let m = u64::MAX as int;
                vstd::arithmetic::div_mod::lemma_fundamental_div_mod(m, p);
                vstd::arithmetic::div_mod::lemma_mod_bound(m, p);
                assert((q as int) * p <= m) by (nonlinear_arith)
                    requires
                        q as int <= m / p,
                        p >= 1,
                        m == p * (m / p) + m % p,
                        m % p >= 0,
                ;
                vstd::bits::lemma_u64_shl_is_mul(q as u64, kk);
            }
            let shifted: u64 = (q as u64) << kk;
            if shifted > u64::MAX - rem {
                return Err(RiceError::ValueOutOfRange);
            }
            Ok(shifted + rem)
        }
    }
}

} // verus!
