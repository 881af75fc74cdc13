//! A verified variable-length integer (varint) codec.
//!
//! Unsigned integers are encoded LEB128-style: seven value bits per byte,
//! least-significant group first, with bit 7 of every byte except the last
//! set as a continuation flag. The [`EncodeVar`] trait offers `required_size`,
//! `encode_varint`, `real_encode` and `decode_varint` for `u64`, `u32`, `u16`,
//! `u8` and `usize`; every width delegates to the 64-bit core.

use vstd::prelude::*;

pub mod laws;
pub mod model;

use crate::model::{consumed_groups, decoded_len, decoded_value, groups_value, varint_bytes, varint_size};
use vstd::arithmetic::div_mod::{lemma_mod_multiples_vanish, lemma_small_mod};
use vstd::arithmetic::power2::{lemma2_to64, lemma2_to64_rest, lemma_pow2_adds, pow2};

verus! {

/// A value that the varint codec can encode and decode: one operation set per
/// integer width, every width delegating to the 64-bit core.
pub trait EncodeVar: Sized + Copy {
    /// The value this width holds, widened to 64 bits.
    spec fn as_wide(self) -> u64;

    /// The value of this width that a decoded 64-bit quantity narrows to
    /// (by truncation, for widths below 64 bits).
    spec fn narrowed(v: u64) -> Self;

    /// How many bytes `encode_varint` produces for this value.
    fn required_size(self) -> (n: usize)
        ensures
            n == varint_size(self.as_wide() as nat),
    ;

    /// Writes the encoding into the first `required_size` bytes of `dst` and
    /// leaves the remaining bytes as they were.
    fn real_encode(self, dst: &mut [u8])
        requires
            old(dst)@.len() >= varint_size(self.as_wide() as nat),
        ensures
            final(dst)@.len() == old(dst)@.len(),
            final(dst)@.subrange(0, varint_size(self.as_wide() as nat) as int) == varint_bytes(
                self.as_wide() as nat,
            ),
            final(dst)@.skip(varint_size(self.as_wide() as nat) as int) == old(dst)@.skip(
                varint_size(self.as_wide() as nat) as int,
            ),
    ;

    /// Encodes the value into a fresh buffer of exactly `required_size` bytes.
    fn encode_varint(self) -> (r: Vec<u8>)
        ensures
            r@ == varint_bytes(self.as_wide() as nat),
    ;

    /// Reads a value from the front of `src`, returning it together with the
    /// number of leading bytes consumed. Decoding never fails: it stops at
    /// the first byte with bit 7 clear, at the end of the input, or at the
    /// ten-group cap, whichever comes first.
    fn decode_varint(src: &[u8]) -> (r: (Self, usize))
        ensures
            r.0 == Self::narrowed(decoded_value(src@)),
            r.1 == decoded_len(src@),
    ;

    /// Round trip: decoding an encoding returns the encoded value and
    /// consumes exactly `required_size` bytes.
    proof fn lemma_round_trip(self)
        ensures
            Self::narrowed(decoded_value(varint_bytes(self.as_wide() as nat))) == self,
            decoded_len(varint_bytes(self.as_wide() as nat)) == varint_size(
                self.as_wide() as nat,
            ),
    ;
}

/// The number of bytes the varint encoding of `v` occupies, computed by
/// counting base-128 digits without allocating.
pub fn required_encoded_space_unsigned(v: u64) -> (n: usize)
    ensures
        n == varint_size(v as nat),
{
    if v == 0 {
        return 1;
    }
    let mut c: usize = 0;
    let mut t: u64 = v;
    while t > 0
        invariant
            t > 0 ==> c + varint_size(t as nat) == varint_size(v as nat),
            t == 0 ==> c == varint_size(v as nat),
            c <= varint_size(v as nat),
        decreases t,
    {
        proof {
            // c stays below the ten-byte bound of a 64-bit value, so the
            // increment cannot overflow
            crate::laws::lemma_varint_size_le_ten(v as nat);
        }
        c = c + 1;
        t = t / 128;
    }
    c
}

impl EncodeVar for u64 {
    open spec fn as_wide(self) -> u64 {
        self
    }

    open spec fn narrowed(v: u64) -> Self {
        v
    }

    fn required_size(self) -> (n: usize) {
        required_encoded_space_unsigned(self)
    }

    fn real_encode(self, dst: &mut [u8]) {
        let ghost dst0 = dst@;
        proof {
            crate::laws::lemma_varint_bytes_len(self as nat);
            assert(dst@.subrange(0, 0) + varint_bytes(self as nat) =~= varint_bytes(
                self as nat,
            ));
        }
        let mut i: usize = 0;
        let mut t: u64 = self;
        while t >= 128
            invariant
                dst@.len() == dst0.len(),
                varint_size(self as nat) <= dst0.len(),
                i + varint_size(t as nat) == varint_size(self as nat),
                varint_bytes(self as nat) == dst@.subrange(0, i as int) + varint_bytes(
                    t as nat,
                ),
                dst@.skip(varint_size(self as nat) as int) == dst0.skip(
                    varint_size(self as nat) as int,
                ),
            decreases t,
        {
            let ghost pre = dst@;
            let b: u8 = (t % 128 + 128) as u8;
            dst[i] = b;
            proof {
                assert(varint_bytes(t as nat) == seq![(128 + t as nat % 128) as u8]
                    + varint_bytes((t / 128) as nat));
                crate::laws::lemma_varint_bytes_len(t as nat);
                crate::laws::lemma_varint_bytes_len((t / 128) as nat);
                assert(dst@.subrange(0, i + 1 as int) =~= pre.subrange(0, i as int) + seq![b]);
                assert(varint_bytes(self as nat) =~= dst@.subrange(0, i + 1 as int)
                    + varint_bytes((t / 128) as nat));
                assert(dst@.skip(varint_size(self as nat) as int) =~= pre.skip(
                    varint_size(self as nat) as int,
                ));
            }
            i = i + 1;
            t = t / 128;
        }
        let ghost pre = dst@;
        dst[i] = t as u8;
        proof {
            assert(varint_bytes(t as nat) =~= seq![t as u8]);
            assert(dst@.subrange(0, i + 1 as int) =~= pre.subrange(0, i as int) + seq![
                t as u8,
            ]);
            assert(dst@.subrange(0, varint_size(self as nat) as int) =~= varint_bytes(
                self as nat,
            ));
            assert(dst@.skip(varint_size(self as nat) as int) =~= pre.skip(
                varint_size(self as nat) as int,
            ));
        }
    }

    fn encode_varint(self) -> (r: Vec<u8>) {
        let n = required_encoded_space_unsigned(self);
        let mut buf: Vec<u8> = vec![0u8; n];
        proof {
            crate::laws::lemma_varint_bytes_len(self as nat);
        }
        self.real_encode(buf.as_mut_slice());
        proof {
            assert(buf@ =~= buf@.subrange(0, n as int));
        }
        buf
    }

    fn decode_varint(src: &[u8]) -> (r: (Self, usize)) {
        let mut result: u64 = 0;
        let mut multiplier: u64 = 1;
        let mut i: usize = 0;
        proof {
            lemma2_to64();
            lemma2_to64_rest();
            assert(src@.skip(0) =~= src@);
        }
        loop
            invariant_except_break
                i <= 9,
                i <= src@.len(),
                multiplier == pow2(7 * i as nat),
                (result as nat) < pow2(7 * i as nat),
                groups_value(consumed_groups(src@, 10)) == result + pow2(7 * i as nat)
                    * groups_value(
                    consumed_groups(src@.skip(i as int), (10 - i) as nat),
                ),
                consumed_groups(src@, 10).len() == i + consumed_groups(
                    src@.skip(i as int),
                    (10 - i) as nat,
                ).len(),
            ensures
                result == groups_value(consumed_groups(src@, 10)) % 0x1_0000_0000_0000_0000,
                i == consumed_groups(src@, 10).len(),
            decreases 10 - i,
        {
            proof {
                lemma2_to64();
                lemma2_to64_rest();
                crate::laws::lemma_pow2_le(7 * i as nat, 63);
            }
            if i >= src.len() {
                proof {
                    assert(consumed_groups(src@.skip(i as int), (10 - i) as nat)
                        =~= Seq::<u8>::empty());
                    assert(groups_value(
                        consumed_groups(src@.skip(i as int), (10 - i) as nat),
                    ) == 0);
                    assert(pow2(7 * i as nat) * groups_value(
                        consumed_groups(src@.skip(i as int), (10 - i) as nat),
                    ) == 0) by (nonlinear_arith)
                        requires
                            groups_value(
                                consumed_groups(src@.skip(i as int), (10 - i) as nat),
                            ) == 0,
                    ;
                    assert(groups_value(consumed_groups(src@, 10)) == result);
                    lemma_small_mod(result as nat, 0x1_0000_0000_0000_0000nat);
                }
                break;
            }
            let b = src[i];
            let d: u64 = (b % 128) as u64;
            let ghost i0: int = i as int;
            let ghost r0: u64 = result;
            let ghost total: nat = groups_value(consumed_groups(src@, 10));
            let ghost rest: Seq<u8> = src@.skip(i as int);
            let ghost g_rest: Seq<u8> = consumed_groups(rest, (10 - i) as nat);
            let ghost g_next: Seq<u8> = consumed_groups(src@.skip(i0 + 1), (9 - i0) as nat);
            proof {
                assert(rest[0] == b);
                assert(rest.skip(1) =~= src@.skip(i0 + 1));
                if b < 128 || i == 9 {
                    // the byte read below is the last one consumed: it alone carries
                    // the groups' value d, whether the terminator or the cap ends it
                    if b >= 128 {
                        assert(consumed_groups(rest.skip(1), 0) =~= Seq::<u8>::empty());
                        assert(g_rest =~= seq![(b - 128) as u8] + Seq::<u8>::empty());
                    }
                    assert(g_rest =~= seq![d as u8]);
                    crate::laws::lemma_groups_value_singleton(d as u8);
                    assert(groups_value(g_rest) == d);
                } else {
                    assert(g_rest =~= seq![d as u8] + g_next);
                    crate::laws::lemma_groups_value_cons(d as u8, g_next);
                    assert(groups_value(g_rest) == d + 128 * groups_value(g_next));
                }
            }
            if i == 9 {
                // the tenth group lands at bit 63, so only its lowest bit
                // still fits in the 64-bit result; the rest is discarded
                proof {
                    assert(result + (d % 2) * multiplier < 0x1_0000_0000_0000_0000)
                        by (nonlinear_arith)
                        requires
                            result < 0x8000_0000_0000_0000u64,
                            multiplier == 0x8000_0000_0000_0000u64,
                            d < 128,
                    ;
                    assert(total == r0 + pow2(63) * d);
                    assert(pow2(63) * d == pow2(63) * (d % 2) + pow2(64) * (d / 2));
                    lemma_mod_multiples_vanish(
                        d as int / 2,
                        r0 + pow2(63) * (d % 2),
                        0x1_0000_0000_0000_0000,
                    );
                    lemma_small_mod((r0 + pow2(63) * (d % 2)) as nat, 0x1_0000_0000_0000_0000nat);
                    assert(total % 0x1_0000_0000_0000_0000 == r0 + pow2(63) * (d % 2));
                }
                result = result + (d % 2) * multiplier;
                i = 10;
                proof {
                    assert(result == r0 + pow2(63) * (d % 2));
                    assert(consumed_groups(src@, 10).len() == 10);
                }
                break;
            }
            proof {
                assert(d * multiplier <= 127 * multiplier) by (nonlinear_arith)
                    requires
                        d < 128,
                        multiplier >= 1,
                ;
                lemma_pow2_adds(7 * i as nat, 7);
                crate::laws::lemma_pow2_le(7 * (i + 1) as nat, 63);
                assert(128 * multiplier == pow2(7 * (i + 1) as nat));
                assert(r0 + d * multiplier < pow2(7 * (i + 1) as nat));
            }
            result = result + d * multiplier;
            i = i + 1;
            if b < 128 {
                proof {
                    assert(d * multiplier == pow2(7 * i0 as nat) * d) by (nonlinear_arith)
                        requires
                            multiplier == pow2(7 * i0 as nat),
                    ;
                    assert(result == r0 + pow2(7 * i0 as nat) * d);
                    assert(total == result);
                    lemma_small_mod(result as nat, 0x1_0000_0000_0000_0000nat);
                    assert(consumed_groups(src@, 10).len() == i);
                }
                break;
            }
            proof {
                let x = groups_value(g_next);
                assert(pow2(7 * i0 as nat) * (d + 128 * x) == pow2(7 * i0 as nat) * d + pow2(
                    7 * i as nat,
                ) * x) by (nonlinear_arith)
                    requires
                        pow2(7 * i as nat) == 128 * pow2(7 * i0 as nat),
                        i == i0 + 1,
                ;
                assert(d * multiplier == pow2(7 * i0 as nat) * d) by (nonlinear_arith)
                    requires
                        multiplier == pow2(7 * i0 as nat),
                ;
                assert(total == r0 + pow2(7 * i0 as nat) * (d + 128 * x));
                assert(total == result + pow2(7 * i as nat) * groups_value(
                    consumed_groups(src@.skip(i as int), (10 - i) as nat),
                ));
                assert(consumed_groups(src@, 10).len() == i + consumed_groups(
                    src@.skip(i as int),
                    (10 - i) as nat,
                ).len());
            }
            multiplier = multiplier * 128;
        }
        (result, i)
    }

    proof fn lemma_round_trip(self) {
        crate::laws::lemma_round_trip_wide(self);
    }
}

impl EncodeVar for u32 {
    open spec fn as_wide(self) -> u64 {
        self as u64
    }

    open spec fn narrowed(v: u64) -> Self {
        v as u32
    }

    fn required_size(self) -> (n: usize) {
        required_encoded_space_unsigned(self as u64)
    }

    fn real_encode(self, dst: &mut [u8]) {
        (self as u64).real_encode(dst);
    }

    fn encode_varint(self) -> (r: Vec<u8>) {
        (self as u64).encode_varint()
    }

    fn decode_varint(src: &[u8]) -> (r: (Self, usize)) {
        let (n, s) = u64::decode_varint(src);
        (n as u32, s)
    }

    proof fn lemma_round_trip(self) {
        crate::laws::lemma_round_trip_wide(self as u64);
    }
}

impl EncodeVar for u16 {
    open spec fn as_wide(self) -> u64 {
        self as u64
    }

    open spec fn narrowed(v: u64) -> Self {
        v as u16
    }

    fn required_size(self) -> (n: usize) {
        required_encoded_space_unsigned(self as u64)
    }

    fn real_encode(self, dst: &mut [u8]) {
        (self as u64).real_encode(dst);
    }

    fn encode_varint(self) -> (r: Vec<u8>) {
        (self as u64).encode_varint()
    }

    fn decode_varint(src: &[u8]) -> (r: (Self, usize)) {
        let (n, s) = u64::decode_varint(src);
        (n as u16, s)
    }

    proof fn lemma_round_trip(self) {
        crate::laws::lemma_round_trip_wide(self as u64);
    }
}

impl EncodeVar for u8 {
    open spec fn as_wide(self) -> u64 {
        self as u64
    }

    open spec fn narrowed(v: u64) -> Self {
        v as u8
    }

    fn required_size(self) -> (n: usize) {
        required_encoded_space_unsigned(self as u64)
    }

    fn real_encode(self, dst: &mut [u8]) {
        (self as u64).real_encode(dst);
    }

    fn encode_varint(self) -> (r: Vec<u8>) {
        (self as u64).encode_varint()
    }

    fn decode_varint(src: &[u8]) -> (r: (Self, usize)) {
        let (n, s) = u64::decode_varint(src);
        (n as u8, s)
    }

    proof fn lemma_round_trip(self) {
        crate::laws::lemma_round_trip_wide(self as u64);
    }
}

impl EncodeVar for usize {
    open spec fn as_wide(self) -> u64 {
        self as u64
    }

    open spec fn narrowed(v: u64) -> Self {
        v as usize
    }

    fn required_size(self) -> (n: usize) {
        required_encoded_space_unsigned(self as u64)
    }

    fn real_encode(self, dst: &mut [u8]) {
        (self as u64).real_encode(dst);
    }

    fn encode_varint(self) -> (r: Vec<u8>) {
        (self as u64).encode_varint()
    }

    fn decode_varint(src: &[u8]) -> (r: (Self, usize)) {
        let (n, s) = u64::decode_varint(src);
        (n as usize, s)
    }

    proof fn lemma_round_trip(self) {
        crate::laws::lemma_round_trip_wide(self as u64);
    }
}

} // verus!
