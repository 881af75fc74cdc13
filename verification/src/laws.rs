//! Proofs about the varint model: size bounds, minimality, continuation
//! bits, round-trip of decoding after encoding, and the decoder's behaviour
//! on truncated input.

use vstd::arithmetic::power2::{
    lemma2_to64, lemma2_to64_rest, lemma_pow2_adds, lemma_pow2_strictly_increases, pow2,
};
use vstd::prelude::*;

use crate::model::{
    bit_length, consumed_groups, decoded_len, decoded_value, groups_value, varint_bytes,
    varint_size,
};

verus! {

/// `v` lies between the powers of two that delimit encodings of
/// `varint_size(v)` bytes: each byte carries seven bits of payload.
pub proof fn lemma_varint_size_bounds(v: nat)
    requires
        v > 0,
    ensures
        pow2((7 * (varint_size(v) - 1)) as nat) <= v,
        v < pow2(7 * varint_size(v)),
    decreases v,
{
    lemma2_to64();
    if v < 128 {
        assert(varint_size(v) == 1);
    } else {
        let s = varint_size(v / 128);
        lemma_varint_size_bounds(v / 128);
        assert(varint_size(v) == 1 + s);
        lemma_pow2_adds((7 * (s - 1)) as nat, 7);
        lemma_pow2_adds(7 * s, 7);
        assert(128 * (v / 128) <= v < 128 * (v / 128) + 128);
        assert(128 * pow2((7 * (s - 1)) as nat) <= 128 * (v / 128)) by {
            assert(pow2((7 * (s - 1)) as nat) <= v / 128);
        }
        assert(128 * (v / 128) < 128 * pow2(7 * s)) by {
            assert(v / 128 < pow2(7 * s));
        }
    }
}

/// No 64-bit value needs more than ten bytes.
pub proof fn lemma_varint_size_le_ten(v: nat)
    requires
        v < 0x1_0000_0000_0000_0000,
    ensures
        varint_size(v) <= 10,
{
    if v > 0 {
        lemma_varint_size_bounds(v);
        lemma2_to64();
        if varint_size(v) > 10 {
            lemma_pow2_strictly_increases(64, (7 * (varint_size(v) - 1)) as nat);
        }
    }
}

/// The encoding holds exactly `varint_size(v)` bytes.
pub proof fn lemma_varint_bytes_len(v: nat)
    ensures
        varint_bytes(v).len() == varint_size(v),
    decreases v,
{
    if v >= 128 {
        lemma_varint_bytes_len(v / 128);
    }
}

/// A single digit is its own value.
pub proof fn lemma_groups_value_singleton(d: u8)
    ensures
        groups_value(seq![d]) == d,
{
    assert(seq![d].skip(1) =~= Seq::<u8>::empty());
    assert(groups_value(Seq::<u8>::empty()) == 0);
}

/// Prepending a digit multiplies the tail's value by the base.
pub proof fn lemma_groups_value_cons(d: u8, t: Seq<u8>)
    ensures
        groups_value(seq![d] + t) == d + 128 * groups_value(t),
{
    let s = seq![d] + t;
    assert(s[0] == d);
    assert(s.skip(1) =~= t);
}

/// Decoding consumes an encoding exactly and reads the value back, for any
/// group budget that covers the encoding's length.
pub proof fn lemma_consume_encoding(v: nat, budget: nat)
    requires
        varint_size(v) <= budget,
    ensures
        consumed_groups(varint_bytes(v), budget) =~= varint_bytes(v).map_values(
            |b: u8| (b % 128) as u8,
        ),
        consumed_groups(varint_bytes(v), budget).len() == varint_size(v),
        groups_value(consumed_groups(varint_bytes(v), budget)) == v,
    decreases v,
{
    lemma_varint_bytes_len(v);
    let e = varint_bytes(v);
    if v < 128 {
        assert(e =~= seq![v as u8]);
        assert(consumed_groups(e, budget) =~= seq![v as u8]);
        lemma_groups_value_singleton(v as u8);
        assert(consumed_groups(e, budget) =~= e.map_values(|b: u8| (b % 128) as u8));
    } else {
        let d = (v % 128) as u8;
        let tail = varint_bytes(v / 128);
        assert(e == seq![(128 + v % 128) as u8] + tail);
        assert(e[0] == 128 + v % 128);
        assert(e.skip(1) =~= tail);
        lemma_consume_encoding(v / 128, (budget - 1) as nat);
        let g = consumed_groups(tail, (budget - 1) as nat);
        assert(consumed_groups(e, budget) =~= seq![d] + g);
        lemma_groups_value_cons(d, g);
        assert(groups_value(consumed_groups(e, budget)) == v % 128 + 128 * (v / 128));
        assert(consumed_groups(e, budget) =~= e.map_values(|b: u8| (b % 128) as u8));
    }
}

/// Every byte of an encoding except the last has the continuation bit set;
/// the last has it clear.
pub proof fn lemma_continuation_bits(v: nat)
    ensures
        varint_bytes(v).len() >= 1,
        forall|i: int|
            0 <= i < varint_bytes(v).len() - 1 ==> (#[trigger] varint_bytes(v)[i]) >= 128,
        varint_bytes(v)[varint_bytes(v).len() - 1] < 128,
    decreases v,
{
    if v >= 128 {
        lemma_continuation_bits(v / 128);
        let e = varint_bytes(v);
        let tail = varint_bytes(v / 128);
        assert forall|i: int| 0 <= i < e.len() - 1 implies (#[trigger] e[i]) >= 128 by {
            if i > 0 {
                assert(e[i] == tail[i - 1]);
            }
        }
        assert(e[e.len() - 1] == tail[tail.len() - 1]);
    }
}

/// On input made only of continuation bytes, the decoder consumes the whole
/// input or stops at its group cap, whichever comes first.
pub proof fn lemma_all_continuation(s: Seq<u8>, budget: nat)
    requires
        forall|i: int| 0 <= i < s.len() ==> (#[trigger] s[i]) >= 128,
    ensures
        consumed_groups(s, budget).len() == if s.len() < budget {
            s.len()
        } else {
            budget
        },
    decreases budget,
{
    if budget > 0 && s.len() > 0 {
        lemma_all_continuation(s.skip(1), (budget - 1) as nat);
    }
}

/// Powers of two do not decrease.
pub proof fn lemma_pow2_le(e1: nat, e2: nat)
    requires
        e1 <= e2,
    ensures
        pow2(e1) <= pow2(e2),
{
    if e1 < e2 {
        lemma_pow2_strictly_increases(e1, e2);
    }
}

/// `v` lies between the powers of two that delimit binary representations of
/// `bit_length(v)` digits.
pub proof fn lemma_bit_length_bounds(v: nat)
    requires
        v > 0,
    ensures
        pow2((bit_length(v) - 1) as nat) <= v,
        v < pow2(bit_length(v)),
    decreases v,
{
    lemma2_to64();
    assert(bit_length(0nat) == 0);
    if v >= 2 {
        let l = bit_length(v / 2);
        lemma_bit_length_bounds(v / 2);
        lemma_pow2_adds((l - 1) as nat, 1);
        lemma_pow2_adds(l, 1);
        assert(2 * pow2((l - 1) as nat) <= 2 * (v / 2));
        assert(2 * (v / 2) + 1 < 2 * pow2(l));
    }
}

/// Minimality: the encoding of `v` holds exactly as many bytes as 7-bit
/// groups are needed to cover every significant bit of `v`, and never fewer
/// than one byte.
pub proof fn lemma_minimal_size(v: nat)
    ensures
        v == 0 ==> varint_size(v) == 1 && bit_length(v) == 0,
        v > 0 ==> varint_size(v) == (bit_length(v) + 6) / 7 >= 1,
{
    if v > 0 {
        let s = varint_size(v);
        let l = bit_length(v);
        lemma_varint_size_bounds(v);
        lemma_bit_length_bounds(v);
        if 7 * (s - 1) >= l {
            lemma_pow2_le(l, (7 * (s - 1)) as nat);
            assert(false);
        }
        if l - 1 >= 7 * s {
            lemma_pow2_le(7 * s, (l - 1) as nat);
            assert(false);
        }
        assert(7 * s <= l + 6 < 7 * s + 7);
    }
}

/// Round trip at the 64-bit core: decoding an encoding yields the encoded
/// value and consumes exactly the encoding's bytes.
pub proof fn lemma_round_trip_wide(v: u64)
    ensures
        decoded_value(varint_bytes(v as nat)) == v,
        decoded_len(varint_bytes(v as nat)) == varint_size(v as nat),
{
    lemma2_to64();
    lemma_varint_size_le_ten(v as nat);
    lemma_consume_encoding(v as nat, 10);
}

} // verus!
