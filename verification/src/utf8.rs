//! Variable-length integer encoder: a non-negative integer becomes a
//! self-delimiting multi-byte bit pattern whose total byte count is
//! chosen by the value's magnitude, using reserved prefix and
//! continuation bit groups; up to 36 value bits are carried.

use crate::bits::{
    bits_fold_checked, bits_msb, bits_ok, bits_value, is_bit, lead_ones, lemma_bits_msb_ok,
    lemma_bits_msb_value, lemma_bits_value_bound, lemma_bits_value_concat, lemma_lead_ones_exact,
    lemma_lead_ones_min, lemma_shr_shr, lemma_split_low_bits, one_bits, push_bits_msb,
};
use vstd::arithmetic::power2::{
    lemma2_to64, lemma2_to64_rest, lemma_pow2_strictly_increases, pow2,
};
use vstd::prelude::*;

verus! {

pub struct Utf8Encoder;

/// Error reported by the variable-length integer code.
#[derive(Clone, Copy, Debug, PartialEq, Eq, Structural)]
pub enum Utf8Error {
    /// The value needs more than 36 significant bits.
    ValueOutOfRange,
    /// The bit sequence is not a well-formed encoding.
    InvalidEncoding,
}

/// Total bytes of the encoding of `v`: the smallest row of the prefix
/// table whose bit budget holds `v`'s significant bits.
pub open spec fn vl_total_bytes(v: u64) -> nat
    recommends
        v < 0x1000000000,
{
    if v < 0x80 {
        1
    } else if v < 0x800 {
        2
    } else if v < 0x10000 {
        3
    } else if v < 0x200000 {
        4
    } else if v < 0x4000000 {
        5
    } else if v < 0x80000000 {
        6
    } else {
        7
    }
}

/// Payload bits carried by the leading byte of an `n`-byte encoding.
pub open spec fn vl_lead_slots(n: nat) -> nat
    recommends
        1 <= n <= 7,
{
    if n == 1 {
        7
    } else {
        (7 - n) as nat
    }
}

/// The leading byte's bits: for one byte a zero then seven payload
/// bits; otherwise `n` one-bits closed by a zero, then the highest
/// payload bits.
pub open spec fn vl_lead(v: u64, n: nat) -> Seq<u8>
    recommends
        1 <= n <= 7,
{
    if n == 1 {
        seq![0u8] + bits_msb(v, 7)
    } else {
        (one_bits(n) + seq![0u8]) + bits_msb(v >> ((6 * (n - 1)) as u64), vl_lead_slots(n))
    }
}

/// The trailing `m` continuation bytes of the encoding of `v`: each
/// starts with `10` and carries six payload bits, the first carrying
/// the highest of the remaining `6 * m` value bits.
pub open spec fn vl_cont_tail(v: u64, m: nat) -> Seq<u8>
    recommends
        m <= 6,
    decreases m,
{
    if m == 0 {
        Seq::empty()
    } else {
        (seq![1u8, 0u8] + bits_msb(v >> ((6 * (m - 1)) as u64), 6)) + vl_cont_tail(
            v,
            (m - 1) as nat,
        )
    }
}

/// The full encoding of `v`.
pub open spec fn vl_encode(v: u64) -> Seq<u8>
    recommends
        v < 0x1000000000,
{
    vl_lead(v, vl_total_bytes(v)) + vl_cont_tail(v, (vl_total_bytes(v) - 1) as nat)
}

/// A well-formed encoding: whole bytes, a leading byte whose run of
/// one-bits states the byte count, and continuation bytes that each
/// begin with `10`.
pub open spec fn vl_valid(s: Seq<u8>) -> bool {
    let k = lead_ones(s);
    let n = s.len() / 8;
    &&& s.len() >= 8
    &&& s.len() % 8 == 0
    &&& ((k == 0 && n == 1) || (2 <= k <= 7 && n == k))
    &&& forall|j: int| 1 <= j < n ==> (#[trigger] s[8 * j] == 1 && s[8 * j + 1] == 0)
}

/// Payload bits of the first `m` continuation bytes, in byte order.
pub open spec fn vl_cont_slots(s: Seq<u8>, m: nat) -> Seq<u8>
    decreases m,
{
    if m == 0 {
        Seq::empty()
    } else {
        vl_cont_slots(s, (m - 1) as nat) + s.subrange(8 * m as int + 2, 8 * m as int + 8)
    }
}

/// All payload bits of a well-formed encoding, in order.
pub open spec fn vl_slots(s: Seq<u8>) -> Seq<u8> {
    let k = lead_ones(s);
    s.subrange(k as int + 1, 8) + vl_cont_slots(s, (s.len() / 8 - 1) as nat)
}

/// Reassembling the payload bits of a well-formed encoding; `None` on
/// any other bit sequence.
pub open spec fn vl_decode(s: Seq<u8>) -> Option<u64> {
    if vl_valid(s) {
        Some(bits_value(vl_slots(s)) as u64)
    } else {
        None
    }
}

proof fn lemma_cont_tail_props(v: u64, m: nat)
    requires
        m <= 6,
    ensures
        vl_cont_tail(v, m).len() == 8 * m,
        bits_ok(vl_cont_tail(v, m)),
        forall|b: int|
            0 <= b < m ==> (#[trigger] vl_cont_tail(v, m)[8 * b] == 1 && vl_cont_tail(v, m)[8 * b
                + 1] == 0),
        forall|b: int|
            0 <= b < m ==> #[trigger] vl_cont_tail(v, m).subrange(8 * b + 2, 8 * b + 8) == bits_msb(
                v >> ((6 * (m - 1 - b)) as u64),
                6,
            ),
    decreases m,
{
    if m > 0 {
        lemma_cont_tail_props(v, (m - 1) as nat);
        let sh = (6 * (m - 1)) as u64;
        let head = seq![1u8, 0u8] + bits_msb(v >> sh, 6);
        let rest = vl_cont_tail(v, (m - 1) as nat);
        let whole = vl_cont_tail(v, m);
        lemma_bits_msb_ok(v >> sh, 6);
        assert(whole == head + rest);
        assert(head.len() == 8);
        assert(bits_ok(whole)) by {
            assert forall|i: int| 0 <= i < whole.len() implies is_bit(#[trigger] whole[i]) by {
                if i < 8 {
                    assert(whole[i] == head[i]);
                } else {
                    assert(whole[i] == rest[i - 8]);
                }
            }
        }
        assert forall|b: int| 0 <= b < m implies (#[trigger] whole[8 * b] == 1 && whole[8 * b + 1]
            == 0) by {
            if b == 0 {
                assert(whole[0] == head[0] && whole[1] == head[1]);
            } else {
                assert(whole[8 * b] == rest[8 * (b - 1)]);
                assert(whole[8 * b + 1] == rest[8 * (b - 1) + 1]);
            }
        }
        assert forall|b: int| 0 <= b < m implies #[trigger] whole.subrange(8 * b + 2, 8 * b + 8)
            == bits_msb(v >> ((6 * (m - 1 - b)) as u64), 6) by {
            if b == 0 {
                assert(whole.subrange(2, 8) =~= bits_msb(v >> sh, 6));
            } else {
                assert(whole.subrange(8 * b + 2, 8 * b + 8) =~= rest.subrange(
                    8 * (b - 1) + 2,
                    8 * (b - 1) + 8,
                ));
                assert(rest.subrange(8 * (b - 1) + 2, 8 * (b - 1) + 8) == bits_msb(
                    v >> ((6 * ((m - 1) - 1 - (b - 1))) as u64),
                    6,
                ));
                assert(6 * ((m - 1) - 1 - (b - 1)) == 6 * (m - 1 - b));
            }
        }
    }
}

proof fn lemma_cont_slots_len(s: Seq<u8>, m: nat)
    requires
        s.len() >= 8 * (m + 1),
    ensures
        vl_cont_slots(s, m).len() == 6 * m,
    decreases m,
{
    if m > 0 {
        lemma_cont_slots_len(s, (m - 1) as nat);
    }
}

proof fn lemma_cont_slots_value(s: Seq<u8>, v: u64, mm: nat, m: nat)
    requires
        mm <= 6,
        m <= mm,
        s.len() >= 8 * (mm + 1),
        forall|j: int|
            1 <= j <= mm ==> #[trigger] s.subrange(8 * j + 2, 8 * j + 8) == bits_msb(
                v >> ((6 * (mm - j)) as u64),
                6,
            ),
    ensures
        vl_cont_slots(s, m).len() == 6 * m,
        bits_value(vl_cont_slots(s, m)) == ((v >> ((6 * (mm - m)) as u64)) as nat) % pow2(6 * m),
    decreases m,
{
    lemma_cont_slots_len(s, m);
    if m == 0 {
        lemma2_to64();
    } else {
        lemma_cont_slots_value(s, v, mm, (m - 1) as nat);
        let u = v >> ((6 * (mm - m)) as u64);
        assert(s.subrange(8 * m as int + 2, 8 * m as int + 8) == bits_msb(u, 6)) by {
            assert(6 * (mm - m) == 6 * (mm - (m as int)));
        }
        lemma_bits_value_concat(vl_cont_slots(s, (m - 1) as nat), s.subrange(8 * m as int + 2, 8 * m as int + 8));
        lemma_shr_shr(v, (6 * (mm - m)) as u64, 6);
        assert((v >> ((6 * (mm - m)) as u64)) >> 6 == v >> ((6 * (mm - (m - 1))) as u64)) by {
            assert(6 * (mm - m) + 6 == 6 * (mm - (m - 1)));
        }
        lemma_bits_msb_value(u, 6);
        lemma_split_low_bits(u, 6, (6 * (m - 1)) as nat);
        assert(6 + 6 * (m - 1) == 6 * m);
    }
}

/// Round trip of the variable-length code: for every value within the
/// 36-bit budget, the encoding is whole bytes of the length the table
/// prescribes, and decoding it gives the value back.
pub proof fn lemma_vl_round_trip(v: u64)
    requires
        v < 0x1000000000,
    ensures
        vl_encode(v).len() == 8 * vl_total_bytes(v),
        vl_decode(vl_encode(v)) == Some(v),
{
    let n = vl_total_bytes(v);
    let m = (n - 1) as nat;
    let e = vl_encode(v);
    let lead = vl_lead(v, n);
    let tail = vl_cont_tail(v, m);
    let ls = vl_lead_slots(n);
    let hi = if n == 1 {
        v
    } else {
        v >> ((6 * (n - 1)) as u64)
    };
    lemma_cont_tail_props(v, m);
    lemma_bits_msb_ok(v, 7);
    lemma_bits_msb_ok(hi, ls);
    assert(lead.len() == 8);
    assert(e.len() == 8 * n);
    assert(e.len() / 8 == n);
    assert(e.len() % 8 == 0);

    // The run of leading one-bits states the byte count.
    let k: nat = if n == 1 {
        0
    } else {
        n
    };
    if n == 1 {
        assert(e[0] == 0);
        assert(lead_ones(e) == 0);
    } else {
        assert forall|i: int| 0 <= i < n implies #[trigger] e[i] == 1 by {
            assert(e[i] == one_bits(n)[i]);
        }
        assert(e[n as int] == 0) by {
            assert(e[n as int] == (one_bits(n) + seq![0u8])[n as int]);
        }
        lemma_lead_ones_exact(e, n);
    }

    // Continuation bytes each begin with `10`.
    assert forall|j: int| 1 <= j < n implies (#[trigger] e[8 * j] == 1 && e[8 * j + 1] == 0) by {
        assert(e[8 * j] == tail[8 * (j - 1)]);
        assert(e[8 * j + 1] == tail[8 * (j - 1) + 1]);
    }
    assert(vl_valid(e));

    // The payload slots hold exactly the value's bits.
    assert(e.subrange(k as int + 1, 8) =~= bits_msb(hi, ls)) by {
        assert forall|i: int| 0 <= i < 8 - k - 1 implies e[k as int + 1 + i] == bits_msb(hi, ls)[i]
            by {
            assert(e[k as int + 1 + i] == lead[k as int + 1 + i]);
        }
    }
    assert forall|j: int| 1 <= j <= m implies #[trigger] e.subrange(8 * j + 2, 8 * j + 8)
        == bits_msb(v >> ((6 * (m - j)) as u64), 6) by {
        assert(e.subrange(8 * j + 2, 8 * j + 8) =~= tail.subrange(
            8 * (j - 1) + 2,
            8 * (j - 1) + 8,
        ));
        assert(tail.subrange(8 * (j - 1) + 2, 8 * (j - 1) + 8) == bits_msb(
            v >> ((6 * (m - 1 - (j - 1))) as u64),
            6,
        ));
        assert(6 * (m - 1 - (j - 1)) == 6 * (m - j));
    }
    lemma_cont_slots_value(e, v, m, m);
    assert(v >> 0u64 == v) by (bit_vector);
    assert((6 * (m - m)) as u64 == 0u64);
    assert(bits_value(vl_cont_slots(e, m)) == (v as nat) % pow2(6 * m));
    lemma_bits_value_concat(e.subrange(k as int + 1, 8), vl_cont_slots(e, m));
    lemma_bits_msb_value(hi, ls);

    // Reassembled, the slots denote `v mod 2^(total slots)`, and `v`
    // is within that budget.
    lemma2_to64();
    lemma2_to64_rest();
    if n == 1 {
        let q = v as nat % pow2(7);
        assert(bits_value(vl_slots(e)) == q * pow2(0) + 0);
        assert(pow2(0) == 1);
        assert(q * 1 == q) by (nonlinear_arith);
        vstd::arithmetic::div_mod::lemma_small_mod(v as nat, pow2(7));
    } else {
        lemma_split_low_bits(v, 6 * m, ls);
        assert(bits_value(vl_slots(e)) == v as nat % pow2(6 * m + ls));
        assert(v < pow2(6 * m + ls));
        vstd::arithmetic::div_mod::lemma_small_mod(v as nat, pow2(6 * m + ls));
    }
    assert(bits_value(vl_slots(e)) == v as nat);
}

impl Utf8Encoder {
    /// Encode a number into its UTF-8-style variable-length bit
    /// pattern. Although UTF-8 encoding is for characters, the same
    /// prefix scheme carries frame and sample counters here. A value
    /// needing more than 36 significant bits is out of range and is
    /// reported, never truncated.
    pub fn encode(num: u64) -> (r: Result<Vec<u8>, Utf8Error>)
        ensures
            num < 0x1000000000 ==> (r matches Ok(bits) && bits@ == vl_encode(num) && bits@.len()
                == 8 * vl_total_bytes(num)),
            num >= 0x1000000000 ==> r == Err::<Vec<u8>, Utf8Error>(Utf8Error::ValueOutOfRange),
    {
        let n: usize = if num < 0x80 {
            1
        } else if num < 0x800 {
            2
        } else if num < 0x10000 {
            3
        } else if num < 0x200000 {
            4
        } else if num < 0x4000000 {
            5
        } else if num < 0x80000000 {
            6
        } else if num < 0x1000000000 {
            7
        } else {
            return Err(Utf8Error::ValueOutOfRange);
        };
        let mut out: Vec<u8> = Vec::new();
        if n == 1 {
            out.push(0);
            push_bits_msb(&mut out, num, 7);
            proof {
                assert(out@ =~= vl_lead(num, 1));
            }
        } else {
            let mut i: usize = 0;
            while i < n
                invariant
                    i <= n,
                    out@ == one_bits(i as nat),
                decreases n - i,
            {
                out.push(1);
                proof {
                    assert(one_bits((i + 1) as nat) =~= one_bits(i as nat).push(1u8));
                }
                i = i + 1;
            }
            out.push(0);
            let sh: u64 = 6 * ((n as u64) - 1);
            push_bits_msb(&mut out, num >> sh, 7 - n);
            proof {
                assert(out@ =~= vl_lead(num, n as nat));
            }
        }
        let ghost enc = vl_encode(num);
        proof {
            assert(enc =~= out@ + vl_cont_tail(num, (n - 1) as nat));
        }
        let mut j: usize = 0;
        while j < n - 1
            invariant
                1 <= n <= 7,
                j <= n - 1,
                out@.len() == 8 + 8 * j,
                out@ + vl_cont_tail(num, (n - 1 - j) as nat) == enc,
            decreases n - 1 - j,
        {
            let m = n - 1 - j;
            let ghost before = out@;
            out.push(1);
            out.push(0);
            let sh: u64 = 6 * ((m as u64) - 1);
            push_bits_msb(&mut out, num >> sh, 6);
            proof {
                let chunk = seq![1u8, 0u8] + bits_msb(num >> ((6 * (m - 1)) as u64), 6);
                assert(vl_cont_tail(num, m as nat) == chunk + vl_cont_tail(num, (m - 1) as nat));
                assert(out@ =~= before + chunk);
                assert(out@ + vl_cont_tail(num, (n - 1 - (j + 1)) as nat) =~= before
                    + vl_cont_tail(num, (n - 1 - j) as nat));
            }
            j = j + 1;
        }
        proof {
            assert(vl_cont_tail(num, 0) =~= Seq::<u8>::empty());
            assert(out@ =~= out@ + vl_cont_tail(num, 0));
            assert(out@ == enc);
        }
        Ok(out)
    }

    /// Decode a variable-length bit pattern back to its value; any
    /// sequence that is not a well-formed encoding is reported.
    pub fn decode(bits: &Vec<u8>) -> (r: Result<u64, Utf8Error>)
        requires
            bits_ok(bits@),
        ensures
            vl_valid(bits@) ==> (r matches Ok(v) && vl_decode(bits@) == Some(v)),
            !vl_valid(bits@) ==> r == Err::<u64, Utf8Error>(Utf8Error::InvalidEncoding),
    {
        if bits.len() < 8 || bits.len() % 8 != 0 {
            return Err(Utf8Error::InvalidEncoding);
        }
        let n_bytes = bits.len() / 8;

        // Measure the run of leading one-bits of the first byte.
        let mut k: usize = 0;
        while k < 8 && bits[k] == 1
            invariant
                k <= 8,
                bits@.len() >= 8,
                forall|i: int| 0 <= i < k ==> #[trigger] bits@[i] == 1,
            decreases 8 - k,
        {
            k = k + 1;
        }
        if k == 8 {
            proof {
                lemma_lead_ones_min(bits@, 8);
            }
            return Err(Utf8Error::InvalidEncoding);
        }
        proof {
            lemma_lead_ones_exact(bits@, k as nat);
        }
        if !((k == 0 && n_bytes == 1) || (k >= 2 && k <= 7 && n_bytes == k)) {
            return Err(Utf8Error::InvalidEncoding);
        }

        // Every continuation byte must begin with `10`.
        let mut j: usize = 1;
        while j < n_bytes
            invariant
                bits_ok(bits@),
                n_bytes == bits@.len() / 8,
                n_bytes <= 7,
                bits@.len() == 8 * n_bytes,
                1 <= j <= n_bytes,
                forall|t: int| 1 <= t < j ==> (#[trigger] bits@[8 * t] == 1 && bits@[8 * t + 1] == 0),
            decreases n_bytes - j,
        {
            if bits[8 * j] != 1 || bits[8 * j + 1] != 0 {
                return Err(Utf8Error::InvalidEncoding);
            }
            j = j + 1;
        }
        assert forall|t: int| 1 <= t < bits@.len() / 8 implies (#[trigger] bits@[8 * t] == 1
            && bits@[8 * t + 1] == 0) by {}
        assert(vl_valid(bits@));

        // Collect the payload bits in order.
        let mut slots: Vec<u8> = Vec::new();
        let mut i: usize = k + 1;
        proof {
            assert(bits@.subrange(k as int + 1, k as int + 1) =~= Seq::<u8>::empty());
        }
        while i < 8
            invariant
                bits_ok(bits@),
                bits@.len() >= 8,
                k < 8,
                k + 1 <= i <= 8,
                slots@ == bits@.subrange(k as int + 1, i as int),
            decreases 8 - i,
        {
            slots.push(bits[i]);
            proof {
                assert(bits@.subrange(k as int + 1, i + 1) =~= bits@.subrange(
                    k as int + 1,
                    i as int,
                ).push(bits@[i as int]));
            }
            i = i + 1;
        }
        let mut j: usize = 1;
        proof {
            assert(slots@ =~= bits@.subrange(k as int + 1, 8) + vl_cont_slots(bits@, 0));
        }
        while j < n_bytes
            invariant
                bits_ok(bits@),
                n_bytes == bits@.len() / 8,
                n_bytes <= 7,
                bits@.len() == 8 * n_bytes,
                k < 8,
                1 <= j <= n_bytes,
                slots@ == bits@.subrange(k as int + 1, 8) + vl_cont_slots(bits@, (j - 1) as nat),
            decreases n_bytes - j,
        {
            let ghost head = bits@.subrange(k as int + 1, 8) + vl_cont_slots(bits@, (j - 1) as nat);
            let mut t: usize = 0;
            proof {
                assert(bits@.subrange(8 * j as int + 2, 8 * j as int + 2) =~= Seq::<u8>::empty());
                assert(slots@ =~= head + bits@.subrange(8 * j as int + 2, 8 * j as int + 2));
            }
            while t < 6
                invariant
                    bits_ok(bits@),
                    bits@.len() == 8 * n_bytes,
                    1 <= j < n_bytes,
                    n_bytes <= 7,
                    t <= 6,
                    slots@ == head + bits@.subrange(8 * j as int + 2, 8 * j as int + 2 + t),
                decreases 6 - t,
            {
                slots.push(bits[8 * j + 2 + t]);
                proof {
                    assert(bits@.subrange(8 * j as int + 2, 8 * j as int + 2 + t + 1)
                        =~= bits@.subrange(8 * j as int + 2, 8 * j as int + 2 + t).push(
                        bits@[8 * j as int + 2 + t],
                    ));
                    assert(slots@ =~= head + bits@.subrange(
                        8 * j as int + 2,
                        8 * j as int + 2 + t + 1,
                    ));
                }
                t = t + 1;
            }
            proof {
                assert(vl_cont_slots(bits@, j as nat) == vl_cont_slots(bits@, (j - 1) as nat)
                    + bits@.subrange(8 * j as int + 2, 8 * j as int + 8));
                assert(slots@ =~= bits@.subrange(k as int + 1, 8) + vl_cont_slots(
                    bits@,
                    j as nat,
                ));
            }
            j = j + 1;
        }
        proof {
            assert(slots@ == vl_slots(bits@));
            assert(bits_ok(slots@)) by {
                assert forall|x: int| 0 <= x < slots@.len() implies is_bit(#[trigger] slots@[x]) by {
                    lemma_cont_slots_len(bits@, (n_bytes - 1) as nat);
                    if x < 8 - k - 1 {
                        assert(slots@[x] == bits@[k as int + 1 + x]);
                    } else {
                        lemma_cont_slots_elements(bits@, (n_bytes - 1) as nat);
                    }
                }
            }
        }
        match bits_fold_checked(&slots) {
            Some(v) => {
                proof {
                    assert(vl_decode(bits@) == Some(bits_value(vl_slots(bits@)) as u64));
                }
                Ok(v)
            },
            None => {
                proof {
                    lemma_bits_value_bound(slots@);
                    lemma_cont_slots_len(bits@, (n_bytes - 1) as nat);
                    assert(slots@.len() <= 43);
                    if slots@.len() < 43 {
                        lemma_pow2_strictly_increases(slots@.len(), 43);
                    }
                    lemma2_to64();
                    lemma2_to64_rest();
                    assert(false);
                }
                Err(Utf8Error::InvalidEncoding)
            },
        }
    }
}

proof fn lemma_cont_slots_elements(s: Seq<u8>, m: nat)
    requires
        bits_ok(s),
        s.len() >= 8 * (m + 1),
    ensures
        bits_ok(vl_cont_slots(s, m)),
    decreases m,
{
    if m > 0 {
        lemma_cont_slots_elements(s, (m - 1) as nat);
        lemma_cont_slots_len(s, m);
        lemma_cont_slots_len(s, (m - 1) as nat);
        let whole = vl_cont_slots(s, m);
        let rest = vl_cont_slots(s, (m - 1) as nat);
        assert forall|i: int| 0 <= i < whole.len() implies is_bit(#[trigger] whole[i]) by {
            if i < rest.len() {
                assert(whole[i] == rest[i]);
            } else {
                assert(whole[i] == s[8 * m + 2 + (i - rest.len())]);
            }
        }
    }
}

/// Minimal binary representation of `v`, least significant bit first.
pub open spec fn bits_lsb_min(v: nat) -> Seq<u8>
    decreases v,
{
    if v == 0 {
        Seq::empty()
    } else {
        seq![(v % 2) as u8] + bits_lsb_min(v / 2)
    }
}

/// The bits of `int_fmt`, least significant first, with no leading
/// zeros; zero becomes the empty sequence.
pub fn int_to_bin(int_fmt: u64) -> (r: Vec<u8>)
    ensures
        r@ == bits_lsb_min(int_fmt as nat),
{
    let mut bin_fmt: Vec<u8> = Vec::new();
    let mut v: u64 = int_fmt;
    proof {
        assert(bits_lsb_min(int_fmt as nat) =~= bin_fmt@ + bits_lsb_min(v as nat));
    }
    while v > 0
        invariant
            bits_lsb_min(int_fmt as nat) == bin_fmt@ + bits_lsb_min(v as nat),
        decreases v,
    {
        let ghost before = bin_fmt@;
        bin_fmt.push((v % 2) as u8);
        proof {
            assert(bits_lsb_min(v as nat) == seq![(v as nat % 2) as u8] + bits_lsb_min(
                (v / 2) as nat,
            ));
            assert(bin_fmt@ + bits_lsb_min((v / 2) as nat) =~= before + bits_lsb_min(v as nat));
        }
        v = v / 2;
    }
    proof {
        assert(bits_lsb_min(0) =~= Seq::<u8>::empty());
        assert(bin_fmt@ + bits_lsb_min(0) =~= bin_fmt@);
    }
    bin_fmt
}

} // verus!
