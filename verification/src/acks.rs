//! Sliding-window acknowledgements.
//!
//! Every outgoing datagram carries `last_ack_packet_id`, the newest
//! packet id the sender has received from its peer, and a 32-bit field
//! acknowledging the 32 packets before it: the most significant bit
//! stands for `last_ack_packet_id - 1`, the next for `- 2`, and so on.
//! The field is modelled as its 32 booleans, least significant first;
//! `bits_val` maps the booleans to the integer that goes on the wire.

use vstd::prelude::*;
use crate::wrapping::{wrap_sub, wrapping_sub};

verus! {

/// 2^i for small exponents.
pub open spec fn p2(i: int) -> int
    decreases i,
{
    if i <= 0 {
        1
    } else {
        2 * p2(i - 1)
    }
}

/// The integer a run of bits denotes, least significant bit first.
pub open spec fn bits_val(bits: Seq<bool>) -> int
    decreases bits.len(),
{
    if bits.len() == 0 {
        0
    } else {
        (if bits[0] {
            1int
        } else {
            0
        }) + 2 * bits_val(bits.drop_first())
    }
}

/// The value of a bit run is bounded by 2^length.
pub proof fn lemma_bits_val_bound(bits: Seq<bool>)
    ensures
        0 <= bits_val(bits) < p2(bits.len() as int),
    decreases bits.len(),
{
    if bits.len() > 0 {
        lemma_bits_val_bound(bits.drop_first());
    }
}

/// Equal-length bit runs with the same value are the same run.
pub proof fn lemma_bits_val_injective(a: Seq<bool>, b: Seq<bool>)
    requires
        a.len() == b.len(),
        bits_val(a) == bits_val(b),
    ensures
        a == b,
    decreases a.len(),
{
    if a.len() == 0 {
        assert(a =~= b);
    } else {
        lemma_bits_val_bound(a.drop_first());
        lemma_bits_val_bound(b.drop_first());
        let ha: int = if a[0] {
            1
        } else {
            0
        };
        let hb: int = if b[0] {
            1
        } else {
            0
        };
        assert(ha == hb) by (nonlinear_arith)
            requires
                ha + 2 * bits_val(a.drop_first()) == hb + 2 * bits_val(b.drop_first()),
                0 <= ha <= 1,
                0 <= hb <= 1,
        ;
        assert(a[0] == b[0]);
        lemma_bits_val_injective(a.drop_first(), b.drop_first());
        assert forall|i: int| 0 <= i < a.len() implies a[i] == b[i] by {
            if i > 0 {
                assert(a[i] == a.drop_first()[i - 1]);
                assert(b[i] == b.drop_first()[i - 1]);
            }
        }
        assert(a =~= b);
    }
}

/// Appending a bit on the high end adds its weighted value.
proof fn lemma_bits_val_push(bits: Seq<bool>, x: bool)
    ensures
        bits_val(bits.push(x)) == bits_val(bits) + (if x {
            1int
        } else {
            0
        }) * p2(bits.len() as int),
    decreases bits.len(),
{
    let xv: int = if x {
        1
    } else {
        0
    };
    if bits.len() == 0 {
        assert(bits.push(x).drop_first() =~= Seq::<bool>::empty());
        assert(bits.push(x)[0] == x);
        assert(bits_val(bits.push(x)) == xv + 2 * bits_val(Seq::<bool>::empty()));
        assert(p2(0) == 1);
    } else {
        assert(bits.push(x).drop_first() =~= bits.drop_first().push(x));
        lemma_bits_val_push(bits.drop_first(), x);
        assert(bits.push(x)[0] == bits[0]);
        assert(2 * (xv * p2(bits.len() - 1)) == xv * p2(bits.len() as int)) by (nonlinear_arith)
            requires
                p2(bits.len() as int) == 2 * p2(bits.len() - 1),
        ;
    }
}

/// The 32 bits a wire integer denotes, least significant first: the
/// one bit run of length 32 whose value is `v`.
pub open spec fn bits_of_val(v: u32) -> Seq<bool> {
    choose|b: Seq<bool>| b.len() == 32 && bits_val(b) == v
}

/// Split `v` into its 32 bits, least significant first.
pub fn u32_to_bits(v: u32) -> (r: Vec<bool>)
    ensures
        r@.len() == 32,
        bits_val(r@) == v,
        r@ == bits_of_val(v),
{
    proof {
        reveal_with_fuel(p2, 33);
    }
    let mut acc: u32 = v;
    let mut r: Vec<bool> = Vec::new();
    let mut i: usize = 0;
    while i < 32
        invariant
            i <= 32,
            r@.len() == i,
            v as int == bits_val(r@) + acc as int * p2(i as int),
        decreases 32 - i,
    {
        let bit = acc % 2 == 1;
        let newacc = acc / 2;
        proof {
            lemma_bits_val_push(r@, bit);
            let b: int = if bit {
                1
            } else {
                0
            };
            assert(acc as int * p2(i as int) == b * p2(i as int) + newacc as int * p2(i + 1))
                by (nonlinear_arith)
                requires
                    acc as int == 2 * newacc as int + b,
                    p2(i + 1) == 2 * p2(i as int),
            ;
        }
        r.push(bit);
        acc = newacc;
        i += 1;
    }
    proof {
        lemma_bits_val_bound(r@);
        assert(acc == 0) by (nonlinear_arith)
            requires
                v as int == bits_val(r@) + acc as int * p2(32),
                p2(32) == 0x100000000,
                0 <= bits_val(r@),
                (v as int) < 0x100000000,
                acc as int >= 0,
        ;
        assert(r@.len() == 32 && bits_val(r@) == v);
        let w = bits_of_val(v);
        assert(w.len() == 32 && bits_val(w) == v);
        lemma_bits_val_injective(w, r@);
    }
    r
}

/// Reassemble the wire integer from 32 bits, least significant first.
pub fn bits_to_u32(bits: &Vec<bool>) -> (r: u32)
    requires
        bits@.len() == 32,
    ensures
        r == bits_val(bits@),
{
    proof {
        reveal_with_fuel(p2, 33);
    }
    let mut acc: u32 = 0;
    let mut i: usize = 32;
    while i > 0
        invariant
            i <= 32,
            bits@.len() == 32,
            acc as int == bits_val(bits@.skip(i as int)),
            (acc as int) < p2(32 - i),
        decreases i,
    {
        proof {
            lemma_bits_val_bound(bits@.skip(i - 1));
            assert(bits@.skip(i - 1).drop_first() =~= bits@.skip(i as int));
            assert(p2(32 - (i - 1)) == 2 * p2(32 - i));
            assert(p2(32 - (i - 1)) <= p2(32)) by {
                lemma_p2_increases(32 - (i - 1), 32);
            }
            assert(p2(32) == 0x100000000) by {
                reveal_with_fuel(p2, 33);
            }
        }
        let b: u32 = if bits[i - 1] {
            1
        } else {
            0
        };
        acc = acc * 2 + b;
        i -= 1;
    }
    proof {
        assert(bits@.skip(0) =~= bits@);
    }
    acc
}

/// p2 is monotone.
proof fn lemma_p2_increases(a: int, b: int)
    requires
        a <= b,
    ensures
        p2(a) <= p2(b),
    decreases b - a,
{
    if a < b {
        lemma_p2_increases(a, b - 1);
        lemma_p2_pos(b - 1);
    }
}

proof fn lemma_p2_pos(i: int)
    ensures
        p2(i) >= 1,
    decreases i,
{
    if i > 0 {
        lemma_p2_pos(i - 1);
    }
}

/// The ids acknowledged by the window positions 1..=k: `last_ack`
/// itself, then `last_ack - j` for each `j <= k` whose bit is set
/// (the most significant bit, index 31, stands for `last_ack - 1`, so
/// position `j` is index `32 - j`).
pub open spec fn acked_ids_upto(last_ack: u16, bits: Seq<bool>, k: int) -> Seq<u16>
    decreases k,
{
    if k <= 0 {
        seq![last_ack]
    } else {
        let before = acked_ids_upto(last_ack, bits, k - 1);
        if bits[32 - k] {
            before + seq![wrap_sub(last_ack, k as u16)]
        } else {
            before
        }
    }
}

/// Every id an ack header acknowledges: `last_ack` itself and the set
/// bits of the 32-wide window before it.
pub open spec fn acked_ids_of(last_ack: u16, bits: Seq<bool>) -> Seq<u16> {
    acked_ids_upto(last_ack, bits, 32)
}

/// Whether `v` holds `x`.
pub fn contains_u16(v: &Vec<u16>, x: u16) -> (r: bool)
    ensures
        r == v@.contains(x),
{
    let n = v.len();
    let mut i: usize = 0;
    while i < n
        invariant
            n == v@.len(),
            i <= n,
            forall|j: int| 0 <= j < i ==> v@[j] != x,
        decreases n - i,
    {
        if v[i] == x {
            return true;
        }
        i += 1;
    }
    false
}

/// Resolve an ack header into the list of acknowledged packet ids:
/// `last_ack` first, then the window, newest first.
pub fn resolve_acks(last_ack: u16, bits: &Vec<bool>) -> (r: Vec<u16>)
    requires
        bits@.len() == 32,
    ensures
        r@ == acked_ids_of(last_ack, bits@),
{
    let mut r: Vec<u16> = Vec::new();
    r.push(last_ack);
    proof {
        assert(r@ =~= acked_ids_upto(last_ack, bits@, 0));
    }
    let mut k: usize = 1;
    while k <= 32
        invariant
            1 <= k <= 33,
            bits@.len() == 32,
            r@ == acked_ids_upto(last_ack, bits@, k - 1),
        decreases 33 - k,
    {
        if bits[32 - k] {
            r.push(wrapping_sub(last_ack, k as u16));
            proof {
                assert(r@ =~= acked_ids_upto(last_ack, bits@, k as int));
            }
        }
        k += 1;
    }
    r
}

/// The ack bits describing a received-id history: position `j` of the
/// window (1 newest) is set exactly when `latest - j` has been received,
/// and position `j` lives at index `32 - j`.
pub fn make_ack_bits(latest: u16, history: &Vec<u16>) -> (r: Vec<bool>)
    ensures
        r@.len() == 32,
        forall|i: int|
            0 <= i < 32 ==> #[trigger] r@[i] == history@.contains(wrap_sub(latest, (32 - i) as u16)),
{
    let mut r: Vec<bool> = Vec::new();
    let mut i: usize = 0;
    while i < 32
        invariant
            i <= 32,
            r@.len() == i,
            forall|j: int| 0 <= j < i ==> r@[j] == history@.contains(
                wrap_sub(latest, (32 - j) as u16),
            ),
        decreases 32 - i,
    {
        r.push(contains_u16(history, wrapping_sub(latest, (32 - i) as u16)));
        i += 1;
    }
    r
}

} // verus!
