//! Mathematical model of the varint wire format.
//!
//! Every byte of an encoding carries one base-128 digit of the value in its
//! low seven bits; bit 7 is the continuation flag, set on every byte except
//! the last. The spec functions here define how many bytes a value needs,
//! which bytes its encoding holds, and what a decoder reads back from an
//! arbitrary byte sequence.

use vstd::prelude::*;

verus! {

/// How many bytes the varint encoding of `v` occupies: one for `v < 128`,
/// and one more for each further base-128 digit.
pub open spec fn varint_size(v: nat) -> nat
    decreases v,
{
    if v < 128 {
        1
    } else {
        1 + varint_size(v / 128)
    }
}

/// The bytes of the varint encoding of `v`: the least-significant base-128
/// digit comes first, and every byte except the last has bit 7 (value 128) set.
pub open spec fn varint_bytes(v: nat) -> Seq<u8>
    decreases v,
{
    if v < 128 {
        seq![v as u8]
    } else {
        seq![(128 + v % 128) as u8] + varint_bytes(v / 128)
    }
}

/// The 7-bit groups a decoder takes from the front of `s`, at most `budget`
/// of them: bytes are consumed up to and including the first one with bit 7
/// clear, or until the budget or the input runs out.
pub open spec fn consumed_groups(s: Seq<u8>, budget: nat) -> Seq<u8>
    decreases budget,
{
    if budget == 0 || s.len() == 0 {
        seq![]
    } else if s[0] < 128 {
        seq![s[0]]
    } else {
        seq![(s[0] - 128) as u8] + consumed_groups(s.skip(1), (budget - 1) as nat)
    }
}

/// The value of a little-endian sequence of base-128 digits.
pub open spec fn groups_value(g: Seq<u8>) -> nat
    decreases g.len(),
{
    if g.len() == 0 {
        0
    } else {
        (g[0] as nat) + 128 * groups_value(g.skip(1))
    }
}

/// The number of groups the decoder consumes from `s`: its cap is ten groups,
/// enough to cover 70 bits of payload.
pub open spec fn decode_cap() -> nat {
    10
}

/// What decoding `s` as a 64-bit value returns: the value of the consumed
/// groups, reduced modulo 2^64 (bits above the 64th are discarded).
pub open spec fn decoded_value(s: Seq<u8>) -> u64 {
    (groups_value(consumed_groups(s, decode_cap())) % 0x1_0000_0000_0000_0000) as u64
}

/// How many leading bytes decoding `s` consumes.
pub open spec fn decoded_len(s: Seq<u8>) -> nat {
    consumed_groups(s, decode_cap()).len()
}

/// The number of significant binary digits of `v`; zero for `v == 0`.
pub open spec fn bit_length(v: nat) -> nat
    decreases v,
{
    if v == 0 {
        0
    } else {
        1 + bit_length(v / 2)
    }
}

} // verus!
