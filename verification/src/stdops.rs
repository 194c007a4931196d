use vstd::prelude::*;

use crate::err::{ErrCode, Res, RtError};

verus! {

/// Bit `i` of `x` (bit 0 is the least significant); false for `i >= 32`.
pub open spec fn bit(x: u32, i: u32) -> bool {
    (x >> i) & 1u32 == 1u32
}

/// Bit `j` of the mingle of `v` and `w`: the odd bits come from `v`, the even
/// bits from `w`, each taken from its low half in order.
pub open spec fn mingled_bit(v: u32, w: u32, j: u32) -> bool {
    if j % 2 == 1 {
        bit(v, j / 2)
    } else {
        bit(w, j / 2)
    }
}

spec fn mingle_formula(v: u32, w: u32) -> u32 {
    let v1 = ((v & 0x0000ff00u32) << 8u32) | (v & 0x000000ffu32);
    let v2 = ((v1 & 0x00f000f0u32) << 4u32) | (v1 & 0x000f000fu32);
    let v3 = ((v2 & 0x0c0c0c0cu32) << 2u32) | (v2 & 0x03030303u32);
    let v4 = ((v3 & 0x22222222u32) << 1u32) | (v3 & 0x11111111u32);
    let w1 = ((w & 0x0000ff00u32) << 8u32) | (w & 0x000000ffu32);
    let w2 = ((w1 & 0x00f000f0u32) << 4u32) | (w1 & 0x000f000fu32);
    let w3 = ((w2 & 0x0c0c0c0cu32) << 2u32) | (w2 & 0x03030303u32);
    let w4 = ((w3 & 0x22222222u32) << 1u32) | (w3 & 0x11111111u32);
    (v4 << 1u32) | w4
}

proof fn lemma_mingle_formula_bit(v: u32, w: u32, j: u32)
    requires
        j < 32,
    ensures
        bit(mingle_formula(v, w), j) == mingled_bit(v, w, j),
{
    assert(bit(mingle_formula(v, w), j) == mingled_bit(v, w, j)) by (bit_vector)
        requires
            j < 32,
    ;
}

/// Implements the Mingle operator: interleaves the low 16 bits of `v` (odd
/// result bits) with the low 16 bits of `w` (even result bits).
pub fn mingle(v: u32, w: u32) -> (r: u32)
    ensures
        forall|j: u32| j < 32 ==> #[trigger] bit(r, j) == mingled_bit(v, w, j),
        r == mingle_value(v, w),
{
    let mut v = v;
    let mut w = w;
    let ghost v0 = v;
    let ghost w0 = w;
    v = ((v & 0x0000ff00) << 8) | (v & 0x000000ff);
    v = ((v & 0x00f000f0) << 4) | (v & 0x000f000f);
    v = ((v & 0x0c0c0c0c) << 2) | (v & 0x03030303);
    v = ((v & 0x22222222) << 1) | (v & 0x11111111);
    w = ((w & 0x0000ff00) << 8) | (w & 0x000000ff);
    w = ((w & 0x00f000f0) << 4) | (w & 0x000f000f);
    w = ((w & 0x0c0c0c0c) << 2) | (w & 0x03030303);
    w = ((w & 0x22222222) << 1) | (w & 0x11111111);
    let r = (v << 1) | w;
    assert(r == mingle_formula(v0, w0));
    assert forall|j: u32| j < 32 implies #[trigger] bit(r, j) == mingled_bit(v0, w0, j) by {
        lemma_mingle_formula_bit(v0, w0, j);
    }
    proof {
        lemma_word_with_bits(r, |j: u32| mingled_bit(v0, w0, j));
    }
    r
}


/// Two words with the same 32 bits are equal.
pub proof fn lemma_bits_determine(a: u32, b: u32)
    requires
        forall|i: u32| i < 32 ==> #[trigger] bit(a, i) == bit(b, i),
    ensures
        a == b,
{
    assert(bit(a, 0u32) == bit(b, 0u32));
    assert(bit(a, 1u32) == bit(b, 1u32));
    assert(bit(a, 2u32) == bit(b, 2u32));
    assert(bit(a, 3u32) == bit(b, 3u32));
    assert(bit(a, 4u32) == bit(b, 4u32));
    assert(bit(a, 5u32) == bit(b, 5u32));
    assert(bit(a, 6u32) == bit(b, 6u32));
    assert(bit(a, 7u32) == bit(b, 7u32));
    assert(bit(a, 8u32) == bit(b, 8u32));
    assert(bit(a, 9u32) == bit(b, 9u32));
    assert(bit(a, 10u32) == bit(b, 10u32));
    assert(bit(a, 11u32) == bit(b, 11u32));
    assert(bit(a, 12u32) == bit(b, 12u32));
    assert(bit(a, 13u32) == bit(b, 13u32));
    assert(bit(a, 14u32) == bit(b, 14u32));
    assert(bit(a, 15u32) == bit(b, 15u32));
    assert(bit(a, 16u32) == bit(b, 16u32));
    assert(bit(a, 17u32) == bit(b, 17u32));
    assert(bit(a, 18u32) == bit(b, 18u32));
    assert(bit(a, 19u32) == bit(b, 19u32));
    assert(bit(a, 20u32) == bit(b, 20u32));
    assert(bit(a, 21u32) == bit(b, 21u32));
    assert(bit(a, 22u32) == bit(b, 22u32));
    assert(bit(a, 23u32) == bit(b, 23u32));
    assert(bit(a, 24u32) == bit(b, 24u32));
    assert(bit(a, 25u32) == bit(b, 25u32));
    assert(bit(a, 26u32) == bit(b, 26u32));
    assert(bit(a, 27u32) == bit(b, 27u32));
    assert(bit(a, 28u32) == bit(b, 28u32));
    assert(bit(a, 29u32) == bit(b, 29u32));
    assert(bit(a, 30u32) == bit(b, 30u32));
    assert(bit(a, 31u32) == bit(b, 31u32));
    assert(a == b) by (bit_vector)
        requires
            bit(a, 0u32) == bit(b, 0u32),
            bit(a, 1u32) == bit(b, 1u32),
            bit(a, 2u32) == bit(b, 2u32),
            bit(a, 3u32) == bit(b, 3u32),
            bit(a, 4u32) == bit(b, 4u32),
            bit(a, 5u32) == bit(b, 5u32),
            bit(a, 6u32) == bit(b, 6u32),
            bit(a, 7u32) == bit(b, 7u32),
            bit(a, 8u32) == bit(b, 8u32),
            bit(a, 9u32) == bit(b, 9u32),
            bit(a, 10u32) == bit(b, 10u32),
            bit(a, 11u32) == bit(b, 11u32),
            bit(a, 12u32) == bit(b, 12u32),
            bit(a, 13u32) == bit(b, 13u32),
            bit(a, 14u32) == bit(b, 14u32),
            bit(a, 15u32) == bit(b, 15u32),
            bit(a, 16u32) == bit(b, 16u32),
            bit(a, 17u32) == bit(b, 17u32),
            bit(a, 18u32) == bit(b, 18u32),
            bit(a, 19u32) == bit(b, 19u32),
            bit(a, 20u32) == bit(b, 20u32),
            bit(a, 21u32) == bit(b, 21u32),
            bit(a, 22u32) == bit(b, 22u32),
            bit(a, 23u32) == bit(b, 23u32),
            bit(a, 24u32) == bit(b, 24u32),
            bit(a, 25u32) == bit(b, 25u32),
            bit(a, 26u32) == bit(b, 26u32),
            bit(a, 27u32) == bit(b, 27u32),
            bit(a, 28u32) == bit(b, 28u32),
            bit(a, 29u32) == bit(b, 29u32),
            bit(a, 30u32) == bit(b, 30u32),
            bit(a, 31u32) == bit(b, 31u32),
    ;
}

/// The bit that bit `i` of `v` is paired with by the 16-bit unary operators:
/// the next higher bit, with bit 15 paired with bit 0 (and with bit 16, which
/// is clear for a 16-bit value).
pub open spec fn partner16(v: u32, i: u32) -> bool {
    if i == 15 {
        bit(v, 0) || bit(v, 16)
    } else {
        bit(v, (i + 1) as u32)
    }
}

/// The bit that bit `i` of `v` is paired with by the 32-bit unary operators:
/// the next higher bit, cyclically.
pub open spec fn partner32(v: u32, i: u32) -> bool {
    bit(v, ((i + 1) % 32) as u32)
}

spec fn rot16(v: u32) -> u32 {
    if v & 1u32 > 0 {
        (v >> 1u32) | 0x8000u32
    } else {
        v >> 1u32
    }
}

spec fn rot32(v: u32) -> u32 {
    if v & 1u32 > 0 {
        (v >> 1u32) | 0x80000000u32
    } else {
        v >> 1u32
    }
}

proof fn lemma_bitwise(a: u32, b: u32, i: u32)
    ensures
        bit(a & b, i) == (bit(a, i) && bit(b, i)),
        bit(a | b, i) == (bit(a, i) || bit(b, i)),
        bit(a ^ b, i) == (bit(a, i) != bit(b, i)),
{
    assert(bit(a & b, i) == (bit(a, i) && bit(b, i)) && bit(a | b, i) == (bit(a, i) || bit(b, i))
        && bit(a ^ b, i) == (bit(a, i) != bit(b, i))) by (bit_vector);
}

proof fn lemma_rot16(v: u32, i: u32)
    requires
        i < 32,
    ensures
        bit(rot16(v), i) == partner16(v, i),
        v < 0x10000 ==> rot16(v) & v < 0x10000 && rot16(v) | v < 0x10000 && rot16(v) ^ v < 0x10000,
{
    assert(bit(rot16(v), i) == partner16(v, i)) by (bit_vector)
        requires
            i < 32,
    ;
    assert(v < 0x10000 ==> rot16(v) & v < 0x10000 && rot16(v) | v < 0x10000 && rot16(v) ^ v
        < 0x10000) by (bit_vector);
}

proof fn lemma_rot32(v: u32, i: u32)
    requires
        i < 32,
    ensures
        bit(rot32(v), i) == partner32(v, i),
{
    assert(bit(rot32(v), i) == partner32(v, i)) by (bit_vector)
        requires
            i < 32,
    ;
}

/// Unary AND on a 16-bit value: each bit is ANDed with its cyclic neighbour.
pub fn and_16(v: u32) -> (r: u32)
    ensures
        r == and16_value(v),
        forall|i: u32| i < 32 ==> #[trigger] bit(r, i) == (bit(v, i) && partner16(v, i)),
        v < 0x10000 ==> r < 0x10000,
{
    let mut w = v >> 1;
    if v & 1 > 0 {
        w |= 0x8000;
    }
    assert(w == rot16(v));
    proof {
        lemma_rot16(v, 0);
        assert forall|i: u32| i < 32 implies #[trigger] bit(w & v, i) == (bit(v, i) && partner16(v, i)) by {
            lemma_rot16(v, i);
            lemma_bitwise(w, v, i);
        }
    }
    let r = w & v;
    proof {
        lemma_word_with_bits(r, |i: u32| bit(v, i) && partner16(v, i));
    }
    r
}

/// Unary AND on a 32-bit value: each bit is ANDed with its cyclic neighbour.
pub fn and_32(v: u32) -> (r: u32)
    ensures
        r == and32_value(v),
        forall|i: u32| i < 32 ==> #[trigger] bit(r, i) == (bit(v, i) && partner32(v, i)),
{
    let mut w = v >> 1;
    if v & 1 > 0 {
        w |= 0x80000000;
    }
    assert(w == rot32(v));
    proof {
        assert forall|i: u32| i < 32 implies #[trigger] bit(w & v, i) == (bit(v, i) && partner32(v, i)) by {
            lemma_rot32(v, i);
            lemma_bitwise(w, v, i);
        }
    }
    let r = w & v;
    proof {
        lemma_word_with_bits(r, |i: u32| bit(v, i) && partner32(v, i));
    }
    r
}

/// Unary OR on a 16-bit value: each bit is ORed with its cyclic neighbour.
pub fn or_16(v: u32) -> (r: u32)
    ensures
        r == or16_value(v),
        forall|i: u32| i < 32 ==> #[trigger] bit(r, i) == (bit(v, i) || partner16(v, i)),
        v < 0x10000 ==> r < 0x10000,
{
    let mut w = v >> 1;
    if v & 1 > 0 {
        w |= 0x8000;
    }
    assert(w == rot16(v));
    proof {
        lemma_rot16(v, 0);
        assert forall|i: u32| i < 32 implies #[trigger] bit(w | v, i) == (bit(v, i) || partner16(v, i)) by {
            lemma_rot16(v, i);
            lemma_bitwise(w, v, i);
        }
    }
    let r = w | v;
    proof {
        lemma_word_with_bits(r, |i: u32| bit(v, i) || partner16(v, i));
    }
    r
}

/// Unary OR on a 32-bit value: each bit is ORed with its cyclic neighbour.
pub fn or_32(v: u32) -> (r: u32)
    ensures
        r == or32_value(v),
        forall|i: u32| i < 32 ==> #[trigger] bit(r, i) == (bit(v, i) || partner32(v, i)),
{
    let mut w = v >> 1;
    if v & 1 > 0 {
        w |= 0x80000000;
    }
    assert(w == rot32(v));
    proof {
        assert forall|i: u32| i < 32 implies #[trigger] bit(w | v, i) == (bit(v, i) || partner32(v, i)) by {
            lemma_rot32(v, i);
            lemma_bitwise(w, v, i);
        }
    }
    let r = w | v;
    proof {
        lemma_word_with_bits(r, |i: u32| bit(v, i) || partner32(v, i));
    }
    r
}

/// Unary XOR on a 16-bit value: each bit is XORed with its cyclic neighbour.
pub fn xor_16(v: u32) -> (r: u32)
    ensures
        r == xor16_value(v),
        forall|i: u32| i < 32 ==> #[trigger] bit(r, i) == (bit(v, i) != partner16(v, i)),
        v < 0x10000 ==> r < 0x10000,
{
    let mut w = v >> 1;
    if v & 1 > 0 {
        w |= 0x8000;
    }
    assert(w == rot16(v));
    proof {
        lemma_rot16(v, 0);
        assert forall|i: u32| i < 32 implies #[trigger] bit(w ^ v, i) == (bit(v, i) != partner16(v, i)) by {
            lemma_rot16(v, i);
            lemma_bitwise(w, v, i);
        }
    }
    let r = w ^ v;
    proof {
        lemma_word_with_bits(r, |i: u32| bit(v, i) != partner16(v, i));
    }
    r
}

/// Unary XOR on a 32-bit value: each bit is XORed with its cyclic neighbour.
pub fn xor_32(v: u32) -> (r: u32)
    ensures
        r == xor32_value(v),
        forall|i: u32| i < 32 ==> #[trigger] bit(r, i) == (bit(v, i) != partner32(v, i)),
{
    let mut w = v >> 1;
    if v & 1 > 0 {
        w |= 0x80000000;
    }
    assert(w == rot32(v));
    proof {
        assert forall|i: u32| i < 32 implies #[trigger] bit(w ^ v, i) == (bit(v, i) != partner32(v, i)) by {
            lemma_rot32(v, i);
            lemma_bitwise(w, v, i);
        }
    }
    let r = w ^ v;
    proof {
        lemma_word_with_bits(r, |i: u32| bit(v, i) != partner32(v, i));
    }
    r
}

/// The Select operator on natural numbers: the bits of `v` at the positions
/// where `w` has a one, packed together at the low end, lowest first.
pub open spec fn select_bits(v: nat, w: nat) -> nat
    decreases w,
{
    if w == 0 {
        0
    } else if w % 2 == 1 {
        v % 2 + 2 * select_bits(v / 2, w / 2)
    } else {
        select_bits(v / 2, w / 2)
    }
}

proof fn lemma_select_set_step(v: u32, w: u32, t: u32, i: u32, k: u32, k1: u32)
    requires
        k < 32,
        k1 == k + 1,
        i == 1u32 << k,
        t < i,
        w & i > 0,
    ensures
        (w >> k) % 2 == 1,
        (t | (v & i)) == t + ((v >> k) % 2) * i,
        ((w ^ i) >> k1) == (w >> k) / 2,
        (v >> k1) == (v >> k) / 2,
        (w ^ i) < w,
        k1 < 32 ==> (i << 1u32) == i * 2,
        k1 < 32 ==> (i << 1u32) == 1u32 << k1,
        k1 == 32 ==> (i << 1u32) == 0,
{
    assert((w >> k) % 2 == 1 && (t | (v & i)) == t + ((v >> k) % 2) * i && ((w ^ i) >> k1) == (w
        >> k) / 2 && (v >> k1) == (v >> k) / 2 && (w ^ i) < w && (k1 < 32 ==> (i << 1u32) == i * 2)
        && (k1 < 32 ==> (i << 1u32) == 1u32 << k1) && (k1 == 32 ==> (i << 1u32) == 0)) by (bit_vector)
        requires
            k < 32,
            k1 == k + 1,
            i == 1u32 << k,
            t < i,
            w & i > 0,
    ;
}

proof fn lemma_select_clear_step(v: u32, w: u32, i: u32, k: u32)
    requires
        k <= 32,
        k < 32 ==> i == 1u32 << k,
        k == 32 ==> i == 0,
        !(w & i > 0),
        w > 0,
    ensures
        (w >> k) % 2 == 0,
        ((w >> 1u32) >> k) == (w >> k) / 2,
        ((v >> 1u32) >> k) == (v >> k) / 2,
        (w >> 1u32) < w,
{
    assert((w >> k) % 2 == 0 && ((w >> 1u32) >> k) == (w >> k) / 2 && ((v >> 1u32) >> k) == (v
        >> k) / 2 && (w >> 1u32) < w) by (bit_vector)
        requires
            k <= 32,
            k < 32 ==> i == 1u32 << k,
            k == 32 ==> i == 0,
            !(w & i > 0),
            w > 0,
    ;
}

/// Implements the Select operator: the bits of `v` where `w` has a one,
/// packed together at the low end, lowest first.
pub fn select(v: u32, w: u32) -> (r: u32)
    ensures
        r == select_bits(v as nat, w as nat),
{
    let ghost v0 = v;
    let ghost w0 = w;
    let mut v = v;
    let mut w = w;
    let mut i: u32 = 1;
    let mut t: u32 = 0;
    let ghost mut k: u32 = 0;
    let ghost mut p: int = 1;
    assert(v >> 0u32 == v && w >> 0u32 == w && 1u32 << 0u32 == 1u32) by (bit_vector);
    while w > 0
        invariant
            k <= 32,
            k < 32 ==> i == 1u32 << k,
            k == 32 ==> i == 0,
            k < 32 ==> i as int == p,
            p > 0,
            t < p,
            select_bits(v0 as nat, w0 as nat) == t + p * select_bits((v >> k) as nat, (w >> k) as nat),
        decreases w,
    {
        let ghost vk = (v >> k) as nat;
        let ghost wk = (w >> k) as nat;
        if w & i > 0 {
            proof {
                assert((w & i > 0) ==> i != 0) by (bit_vector);
            }
            let ghost k1: u32 = (k + 1) as u32;
            proof {
                lemma_select_set_step(v, w, t, i, k, k1);
                assert(select_bits(vk, wk) == vk % 2 + 2 * select_bits(vk / 2, wk / 2));
                let s = select_bits(vk / 2, wk / 2);
                assert(p * (vk % 2 + 2 * s) == (vk % 2) * p + (2 * p) * s) by (nonlinear_arith);
                assert((vk % 2) * p <= p) by (nonlinear_arith)
                    requires
                        vk % 2 <= 1,
                        p > 0,
                ;
            }
            t |= v & i;
            w ^= i;
            i <<= 1;
            proof {
                k = k1;
                p = 2 * p;
            }
        } else {
            proof {
                lemma_select_clear_step(v, w, i, k);
                assert(select_bits(vk, wk) == select_bits(vk / 2, wk / 2));
            }
            w >>= 1;
            v >>= 1;
        }
    }
    assert(w >> k == 0) by (bit_vector)
        requires
            w == 0,
    ;
    assert(select_bits((v >> k) as nat, (w >> k) as nat) == 0);
    assert(p * 0 == 0);
    t
}

/// The bits of the values of the unary operators: each bit of the operand
/// combined with its cyclic neighbour (bit 15 with bit 0 at 16 bits, bit 31
/// with bit 0 at 32 bits); a 16-bit operand gives a 16-bit value.
pub proof fn lemma_unary_value_bits(v: u32)
    ensures
        forall|i: u32| i < 32 ==> #[trigger] bit(and16_value(v), i) == (bit(v, i) && partner16(v, i)),
        forall|i: u32| i < 32 ==> #[trigger] bit(or16_value(v), i) == (bit(v, i) || partner16(v, i)),
        forall|i: u32| i < 32 ==> #[trigger] bit(xor16_value(v), i) == (bit(v, i) != partner16(v, i)),
        forall|i: u32| i < 32 ==> #[trigger] bit(and32_value(v), i) == (bit(v, i) && partner32(v, i)),
        forall|i: u32| i < 32 ==> #[trigger] bit(or32_value(v), i) == (bit(v, i) || partner32(v, i)),
        forall|i: u32| i < 32 ==> #[trigger] bit(xor32_value(v), i) == (bit(v, i) != partner32(v, i)),
        v < 0x10000 ==> and16_value(v) < 0x10000 && or16_value(v) < 0x10000 && xor16_value(v)
            < 0x10000,
{
    let w = rot16(v);
    let z = rot32(v);
    lemma_rot16(v, 0);
    assert forall|i: u32| i < 32 implies #[trigger] bit(w & v, i) == (bit(v, i) && partner16(v, i)) by {
        lemma_rot16(v, i);
        lemma_rot32(v, i);
        lemma_bitwise(w, v, i);
    }
    assert forall|i: u32| i < 32 implies #[trigger] bit(w | v, i) == (bit(v, i) || partner16(v, i)) by {
        lemma_rot16(v, i);
        lemma_rot32(v, i);
        lemma_bitwise(w, v, i);
    }
    assert forall|i: u32| i < 32 implies #[trigger] bit(w ^ v, i) == (bit(v, i) != partner16(v, i)) by {
        lemma_rot16(v, i);
        lemma_rot32(v, i);
        lemma_bitwise(w, v, i);
    }
    assert forall|i: u32| i < 32 implies #[trigger] bit(z & v, i) == (bit(v, i) && partner32(v, i)) by {
        lemma_rot16(v, i);
        lemma_rot32(v, i);
        lemma_bitwise(z, v, i);
    }
    assert forall|i: u32| i < 32 implies #[trigger] bit(z | v, i) == (bit(v, i) || partner32(v, i)) by {
        lemma_rot16(v, i);
        lemma_rot32(v, i);
        lemma_bitwise(z, v, i);
    }
    assert forall|i: u32| i < 32 implies #[trigger] bit(z ^ v, i) == (bit(v, i) != partner32(v, i)) by {
        lemma_rot16(v, i);
        lemma_rot32(v, i);
        lemma_bitwise(z, v, i);
    }
    lemma_word_with_bits(w & v, |i: u32| bit(v, i) && partner16(v, i));
    lemma_word_with_bits(w | v, |i: u32| bit(v, i) || partner16(v, i));
    lemma_word_with_bits(w ^ v, |i: u32| bit(v, i) != partner16(v, i));
    lemma_word_with_bits(z & v, |i: u32| bit(v, i) && partner32(v, i));
    lemma_word_with_bits(z | v, |i: u32| bit(v, i) || partner32(v, i));
    lemma_word_with_bits(z ^ v, |i: u32| bit(v, i) != partner32(v, i));
}

/// The bits of the mingle of `v` and `w`: odd bit `2i + 1` is bit `i` of `v`,
/// even bit `2i` is bit `i` of `w`, for the low 16 bits of each.
pub proof fn lemma_mingle_value_bits(v: u32, w: u32)
    ensures
        forall|i: u32| i < 16 ==> #[trigger] bit(mingle_value(v, w), (2 * i + 1) as u32) == bit(v, i),
        forall|i: u32| i < 16 ==> #[trigger] bit(mingle_value(v, w), (2 * i) as u32) == bit(w, i),
{
    let m = mingle_formula(v, w);
    assert forall|j: u32| j < 32 implies #[trigger] bit(m, j) == mingled_bit(v, w, j) by {
        lemma_mingle_formula_bit(v, w, j);
    }
    lemma_word_with_bits(m, |j: u32| mingled_bit(v, w, j));
    assert forall|i: u32| i < 16 implies #[trigger] bit(m, (2 * i + 1) as u32) == bit(v, i) by {
        assert(mingled_bit(v, w, (2 * i + 1) as u32) == bit(v, i));
    }
    assert forall|i: u32| i < 16 implies #[trigger] bit(m, (2 * i) as u32) == bit(w, i) by {
        assert(mingled_bit(v, w, (2 * i) as u32) == bit(w, i));
    }
}

/// The mask with ones at the odd positions below `2 * k`.
pub open spec fn odd_mask(k: nat) -> nat
    decreases k,
{
    if k == 0 {
        0
    } else {
        2 + 4 * odd_mask((k - 1) as nat)
    }
}

/// The mask with ones at the even positions below `2 * k`.
pub open spec fn even_mask(k: nat) -> nat
    decreases k,
{
    if k == 0 {
        0
    } else {
        1 + 4 * even_mask((k - 1) as nat)
    }
}

proof fn lemma_pair_step(x: u32, v: u32, k: u32)
    requires
        k < 16,
    ensures
        ((x / 2) % 2 == 1) == bit(x, 1),
        (x % 2 == 1) == bit(x, 0),
        (x / 4) as nat == (x as nat / 2) / 2,
        forall|i: u32| i < 30 ==> #[trigger] bit(x / 4, i) == bit(x, (i + 2) as u32),
        forall|i: u32| i < 31 ==> #[trigger] bit(v / 2, i) == bit(v, (i + 1) as u32),
        (v & ((1u32 << ((k + 1) as u32)) - 1) as u32) == (v % 2) + 2 * ((v / 2) & ((1u32 << k)
            - 1) as u32),
{
    assert(((x / 2) % 2 == 1) == bit(x, 1)) by (bit_vector);
    assert((x % 2 == 1) == bit(x, 0)) by (bit_vector);
    assert((x / 4) as nat == (x as nat / 2) / 2) by (nonlinear_arith);
    assert forall|i: u32| i < 30 implies #[trigger] bit(x / 4, i) == bit(x, (i + 2) as u32) by {
        assert(bit(x / 4, i) == bit(x, (i + 2) as u32)) by (bit_vector)
            requires
                i < 30,
        ;
    }
    assert forall|i: u32| i < 31 implies #[trigger] bit(v / 2, i) == bit(v, (i + 1) as u32) by {
        assert(bit(v / 2, i) == bit(v, (i + 1) as u32)) by (bit_vector)
            requires
                i < 31,
        ;
    }
    assert((v & ((1u32 << ((k + 1) as u32)) - 1) as u32) == (v % 2) + 2 * ((v / 2) & ((1u32 << k)
        - 1) as u32)) by (bit_vector)
        requires
            k < 16,
    ;
}

/// Selecting with the odd-position mask gathers the odd bits.
proof fn lemma_select_odd(x: u32, v: u32, k: u32)
    requires
        k <= 16,
        forall|i: u32| i < k ==> #[trigger] bit(x, (2 * i + 1) as u32) == bit(v, i),
    ensures
        select_bits(x as nat, odd_mask(k as nat)) == (v & ((1u32 << k) - 1) as u32) as nat,
    decreases k,
{
    if k == 0 {
        assert((v & ((1u32 << 0u32) - 1) as u32) == 0) by (bit_vector);
    } else {
        let k1 = (k - 1) as u32;
        lemma_pair_step(x, v, k1);
        assert forall|i: u32| i < k1 implies #[trigger] bit(x / 4, (2 * i + 1) as u32) == bit(
            v / 2,
            i,
        ) by {
            assert(bit(x / 4, (2 * i + 1) as u32) == bit(x, (2 * i + 3) as u32));
            assert(bit(x, (2 * (i + 1) + 1) as u32) == bit(v, (i + 1) as u32));
            assert(bit(v / 2, i) == bit(v, (i + 1) as u32));
        }
        lemma_select_odd(x / 4, v / 2, k1);
        let m = odd_mask(k1 as nat);
        assert(odd_mask(k as nat) == 2 + 4 * m);
        assert((2 + 4 * m) / 2 == 1 + 2 * m);
        assert((1 + 2 * m) / 2 == m);
        assert(select_bits(x as nat, 2 + 4 * m) == select_bits(x as nat / 2, 1 + 2 * m));
        assert(select_bits(x as nat / 2, 1 + 2 * m) == (x as nat / 2) % 2 + 2 * select_bits(
            (x as nat / 2) / 2,
            m,
        ));
        assert(bit(x, (2 * 0 + 1) as u32) == bit(v, 0));
        assert(((x / 2) % 2 == 1) == (v % 2 == 1)) by {
            assert((v % 2 == 1) == bit(v, 0)) by (bit_vector);
        }
    }
}

/// Selecting with the even-position mask gathers the even bits.
proof fn lemma_select_even(x: u32, w: u32, k: u32)
    requires
        k <= 16,
        forall|i: u32| i < k ==> #[trigger] bit(x, (2 * i) as u32) == bit(w, i),
    ensures
        select_bits(x as nat, even_mask(k as nat)) == (w & ((1u32 << k) - 1) as u32) as nat,
    decreases k,
{
    if k == 0 {
        assert((w & ((1u32 << 0u32) - 1) as u32) == 0) by (bit_vector);
    } else {
        let k1 = (k - 1) as u32;
        lemma_pair_step(x, w, k1);
        assert forall|i: u32| i < k1 implies #[trigger] bit(x / 4, (2 * i) as u32) == bit(w / 2, i) by {
            assert(bit(x / 4, (2 * i) as u32) == bit(x, (2 * i + 2) as u32));
            assert(bit(x, (2 * (i + 1)) as u32) == bit(w, (i + 1) as u32));
            assert(bit(w / 2, i) == bit(w, (i + 1) as u32));
        }
        lemma_select_even(x / 4, w / 2, k1);
        let m = even_mask(k1 as nat);
        assert(even_mask(k as nat) == 1 + 4 * m);
        assert((1 + 4 * m) / 2 == 2 * m);
        assert(select_bits(x as nat, 1 + 4 * m) == (x as nat) % 2 + 2 * select_bits(
            x as nat / 2,
            2 * m,
        ));
        if m == 0 {
            assert(select_bits(x as nat / 2, 2 * m) == 0);
            assert(select_bits((x as nat / 2) / 2, m) == 0);
        } else {
            assert((2 * m) / 2 == m);
            assert(select_bits(x as nat / 2, 2 * m) == select_bits((x as nat / 2) / 2, m));
        }
        assert(bit(x, (2 * 0) as u32) == bit(w, 0));
        assert(((x % 2) == 1) == (w % 2 == 1)) by {
            assert((w % 2 == 1) == bit(w, 0)) by (bit_vector);
        }
    }
}

/// Select undoes Mingle: selecting the odd bits of the mingle of `v` and `w`
/// gives back the low 16 bits of `v`, selecting the even bits those of `w`.
pub proof fn lemma_select_undoes_mingle(v: u32, w: u32)
    ensures
        select_bits(mingle_value(v, w) as nat, 0xaaaa_aaaa) == v % 0x10000,
        select_bits(mingle_value(v, w) as nat, 0x5555_5555) == w % 0x10000,
{
    let m = mingle_formula(v, w);
    assert forall|j: u32| j < 32 implies #[trigger] bit(m, j) == mingled_bit(v, w, j) by {
        lemma_mingle_formula_bit(v, w, j);
    }
    lemma_word_with_bits(m, |j: u32| mingled_bit(v, w, j));
    assert forall|i: u32| i < 16 implies #[trigger] bit(m, (2 * i + 1) as u32) == bit(v, i) by {
        assert(mingled_bit(v, w, (2 * i + 1) as u32) == bit(v, i));
    }
    assert forall|i: u32| i < 16 implies #[trigger] bit(m, (2 * i) as u32) == bit(w, i) by {
        assert(mingled_bit(v, w, (2 * i) as u32) == bit(w, i));
    }
    lemma_select_odd(m, v, 16);
    lemma_select_even(m, w, 16);
    assert(odd_mask(16) == 0xaaaa_aaaa) by {
        reveal_with_fuel(odd_mask, 17);
    }
    assert(even_mask(16) == 0x5555_5555) by {
        reveal_with_fuel(even_mask, 17);
    }
    assert((v & ((1u32 << 16u32) - 1) as u32) == v % 0x10000) by (bit_vector);
    assert((w & ((1u32 << 16u32) - 1) as u32) == w % 0x10000) by (bit_vector);
}


/// A number type that can hold a 16-bit value.
pub trait LikeU16: Copy + Sized {
    /// The number a value stands for.
    spec fn wide(self) -> nat;

    /// Values that stand for the same number are the same value.
    proof fn lemma_wide_injective(a: Self, b: Self)
        ensures
            a.wide() == b.wide() ==> a == b,
    ;

    fn from_u16(x: u16) -> (r: Self)
        ensures
            r.wide() == x as nat,
    ;

    fn to_u16(self) -> (r: u16)
        ensures
            r as nat == self.wide() % 0x10000,
    ;
}

impl LikeU16 for u16 {
    open spec fn wide(self) -> nat {
        self as nat
    }

    proof fn lemma_wide_injective(a: Self, b: Self) {
    }

    fn from_u16(x: u16) -> (r: u16) {
        x
    }

    fn to_u16(self) -> (r: u16) {
        self
    }
}

impl LikeU16 for u32 {
    open spec fn wide(self) -> nat {
        self as nat
    }

    proof fn lemma_wide_injective(a: Self, b: Self) {
    }

    fn from_u16(x: u16) -> (r: u32) {
        x as u32
    }

    fn to_u16(self) -> (r: u16) {
        (self % 0x10000) as u16
    }
}

/// The number of elements of an array with the given dimensions.
pub open spec fn dims_product(dims: Seq<usize>) -> nat
    decreases dims.len(),
{
    if dims.len() == 0 {
        1
    } else {
        dims_product(dims.drop_last()) * (dims.last() as nat)
    }
}

/// Every running product of the dimensions, as computed from the first one
/// on, fits in a `usize`.
pub open spec fn products_fit(dims: Seq<usize>) -> bool {
    forall|n: int| 0 <= n <= dims.len() ==> #[trigger] dims_product(dims.take(n)) <= usize::MAX
}

/// An INTERCAL array: its dimensions and its elements, the first subscript
/// varying fastest.
#[derive(Debug)]
pub struct Array<T> {
    pub dims: Vec<usize>,
    pub elems: Vec<T>,
}


/// What an array holds: its dimensions and its elements.
pub struct ArrayView<T> {
    pub dims: Seq<usize>,
    pub elems: Seq<T>,
}

impl<T> View for Array<T> {
    type V = ArrayView<T>;

    open spec fn view(&self) -> ArrayView<T> {
        ArrayView { dims: self.dims@, elems: self.elems@ }
    }
}

impl<T> ArrayView<T> {
    /// The array holds one element for each combination of subscripts (or is
    /// the empty, never dimensioned array), and that count fits in a `usize`.
    pub open spec fn wf(self) -> bool {
        &&& products_fit(self.dims)
        &&& (self.elems.len() == dims_product(self.dims) || (self.dims.len() == 0
            && self.elems.len() == 0))
    }
}

impl<T: Copy> Clone for Array<T> {
    /// A copy of the array, with the same dimensions and elements.
    fn clone(&self) -> (r: Self)
        ensures
            r@ == self@,
    {
        let mut dims: Vec<usize> = Vec::new();
        let mut i: usize = 0;
        while i < self.dims.len()
            invariant
                i <= self.dims@.len(),
                dims@ == self.dims@.take(i as int),
            decreases self.dims@.len() - i,
        {
            dims.push(self.dims[i]);
            i = i + 1;
            assert(dims@ =~= self.dims@.take(i as int));
        }
        let mut elems: Vec<T> = Vec::new();
        let mut j: usize = 0;
        while j < self.elems.len()
            invariant
                j <= self.elems@.len(),
                elems@ == self.elems@.take(j as int),
            decreases self.elems@.len() - j,
        {
            elems.push(self.elems[j]);
            j = j + 1;
            assert(elems@ =~= self.elems@.take(j as int));
        }
        proof {
            lemma_take_full(self.dims@);
            lemma_take_full(self.elems@);
        }
        Array { dims, elems }
    }
}

/// What a variable holds: its value, the values stashed for it, and whether it
/// may be changed.
pub struct BindView<T> {
    pub val: T,
    pub stack: Seq<T>,
    pub rw: bool,
}

impl<T: View> View for Bind<T> {
    type V = BindView<T::V>;

    open spec fn view(&self) -> BindView<T::V> {
        BindView {
            val: self.val@,
            stack: self.stack@.map_values(|x: T| x@),
            rw: self.rw,
        }
    }
}

impl<T> Array<T> {
    /// The array holds one element for each combination of subscripts (or is
    /// the empty, never dimensioned array), and that count fits in a `usize`.
    pub open spec fn wf(&self) -> bool {
        self@.wf()
    }
}

proof fn lemma_take_full<A>(s: Seq<A>)
    ensures
        s.take(s.len() as int) == s,
{
    assert(s.take(s.len() as int) =~= s);
}

impl<T: LikeU16> Array<T> {
    /// A new array with the given dimensions, every element zero.
    pub fn new(dims: Vec<usize>) -> (r: Array<T>)
        requires
            products_fit(dims@),
        ensures
            r.dims@ == dims@,
            r.elems@.len() == dims_product(dims@),
            forall|i: int| 0 <= i < r.elems@.len() ==> (#[trigger] r.elems@[i]).wide() == 0,
            r.wf(),
    {
        let mut total: usize = 1;
        let mut n: usize = 0;
        assert(dims@.take(0) =~= Seq::<usize>::empty());
        while n < dims.len()
            invariant
                n <= dims.len(),
                products_fit(dims@),
                total == dims_product(dims@.take(n as int)),
            decreases dims.len() - n,
        {
            assert(dims@.take(n + 1).drop_last() =~= dims@.take(n as int));
            assert(dims_product(dims@.take(n + 1)) <= usize::MAX);
            total = total * dims[n];
            n = n + 1;
        }
        proof {
            lemma_take_full(dims@);
        }
        let value = T::from_u16(0);
        let mut elems: Vec<T> = Vec::new();
        while elems.len() < total
            invariant
                elems@.len() <= total,
                forall|i: int| 0 <= i < elems@.len() ==> (#[trigger] elems@[i]).wide() == 0,
                value.wide() == 0,
            decreases total - elems@.len(),
        {
            elems.push(value);
        }
        Array { dims, elems }
    }

    /// The empty array that a variable holds before it is dimensioned.
    pub fn empty() -> (r: Array<T>)
        ensures
            r.dims@.len() == 0,
            r.elems@.len() == 0,
            r.wf(),
    {
        proof {
            assert(Seq::<usize>::empty().take(0) =~= Seq::<usize>::empty());
        }
        Array { dims: Vec::new(), elems: Vec::new() }
    }
}

/// An INTERCAL variable: its value, the values STASHed away for it, and
/// whether it may be changed (false after IGNORE).
#[derive(Clone, Debug)]
pub struct Bind<T> {
    pub val: T,
    pub stack: Vec<T>,
    pub rw: bool,
}

impl<T: Clone> Bind<T> {
    /// A fresh, writable variable holding `t`, with nothing stashed.
    pub fn new(t: T) -> (r: Bind<T>)
        ensures
            r.val == t,
            r.stack@.len() == 0,
            r.rw,
    {
        Bind { val: t, stack: Vec::new(), rw: true }
    }

    /// Assign `v`, unless the variable is being ignored.
    pub fn assign(&mut self, v: T)
        ensures
            final(self).val == (if old(self).rw { v } else { old(self).val }),
            final(self).stack@ == old(self).stack@,
            final(self).rw == old(self).rw,
    {
        if self.rw {
            self.val = v;
        }
    }

    /// Assign `v` whether or not the variable is being ignored.
    pub fn assign_unchecked(&mut self, v: T)
        ensures
            final(self).val == v,
            final(self).stack@ == old(self).stack@,
            final(self).rw == old(self).rw,
    {
        self.val = v;
    }

    /// STASH: push a copy of the current value.
    pub fn stash(&mut self)
        ensures
            final(self).val == old(self).val,
            final(self).rw == old(self).rw,
            final(self).stack@.len() == old(self).stack@.len() + 1,
            final(self).stack@.drop_last() == old(self).stack@,
            cloned(old(self).val, final(self).stack@.last()),
    {
        let c = self.val.clone();
        self.stack.push(c);
        assert(self.stack@.drop_last() =~= old(self).stack@);
    }

    /// RETRIEVE: pop the last stashed value, restoring it unless the variable
    /// is being ignored; fails with IE436 when nothing is stashed.
    pub fn retrieve(&mut self, line: usize) -> (r: Res<()>)
        ensures
            old(self).stack@.len() == 0 <==> r is Err,
            r matches Err(e) ==> e.code == ErrCode::IE436 && e.word is None && e.line == line,
            r is Err ==> final(self).val == old(self).val && final(self).stack@ == old(self).stack@
                && final(self).rw == old(self).rw,
            r is Ok ==> {
                &&& final(self).stack@ == old(self).stack@.drop_last()
                &&& final(self).val == (if old(self).rw {
                    old(self).stack@.last()
                } else {
                    old(self).val
                })
                &&& final(self).rw == old(self).rw
            },
    {
        match self.stack.pop() {
            None => ErrCode::IE436.err_with(None, line),
            Some(v) => {
                if self.rw {
                    self.val = v;
                }
                Ok(())
            },
        }
    }
}

/// The state of the random number generator after one more draw.
pub open spec fn next_rand(state: u32) -> u32 {
    ((state as nat * 1103515245 + 12345) % 0x1_0000_0000) as u32
}

/// Check statement execution chance (false -> skip): a chance of 100 always
/// runs and leaves the generator alone; any other chance draws a number from
/// 0 to 99 and runs when it is below the chance.
pub fn check_chance(chance: u8, state: u32) -> (r: (bool, u32))
    ensures
        chance == 100 ==> r == (true, state),
        chance != 100 ==> r.1 == next_rand(state) && r.0 == ((r.1 / 65536) % 100 < chance),
{
    if chance == 100 {
        (true, state)
    } else {
        let new_state = state.wrapping_mul(1103515245).wrapping_add(12345);
        proof {
            let m = (state as nat * 1103515245) % 0x1_0000_0000;
            vstd::arithmetic::div_mod::lemma_add_mod_noop(
                (state as nat * 1103515245) as int,
                12345,
                0x1_0000_0000,
            );
            assert(12345int % 0x1_0000_0000 == 12345);
            vstd::arithmetic::div_mod::lemma_mod_twice(
                (state as nat * 1103515245) as int,
                0x1_0000_0000,
            );
        }
        let random = (new_state / 65536) % 100;
        (random < (chance as u32), new_state)
    }
}

/// Check for 16-bit overflow.
pub fn check_ovf(v: u32, line: usize) -> (r: Res<u32>)
    ensures
        v <= 0xffff <==> r is Ok,
        r matches Ok(x) ==> x == v,
        r matches Err(e) ==> e.code == ErrCode::IE533 && e.word is None && e.line == line,
{
    if v > (u16::MAX as u32) {
        ErrCode::IE533.err_with(None, line)
    } else {
        Ok(v)
    }
}

/// Pop `n` jumps from the jump stack and return the last one popped.
/// `n == 0` is an error (IE621) when `strict`, else nothing happens; popping
/// more jumps than there are is an error (IE632) when `strict`, else the
/// stack is emptied.
pub fn pop_jumps<T>(jumps: &mut Vec<T>, n: u32, strict: bool, line: usize) -> (r: Res<Option<T>>)
    ensures
        n == 0 ==> *final(jumps) == *old(jumps),
        n == 0 && strict ==> (r matches Err(e) && e.code == ErrCode::IE621 && e.word is None
            && e.line == line),
        n == 0 && !strict ==> (r matches Ok(None)),
        0 < n && old(jumps)@.len() < n && strict ==> *final(jumps) == *old(jumps) && (r matches Err(
            e) && e.code == ErrCode::IE632 && e.word is None && e.line == line),
        0 < n && old(jumps)@.len() < n && !strict ==> final(jumps)@.len() == 0 && (r matches Ok(
            None)),
        0 < n <= old(jumps)@.len() ==> {
            &&& final(jumps)@ == old(jumps)@.take(old(jumps)@.len() - n)
            &&& r == Ok::<Option<T>, RtError>(Some(old(jumps)@[old(jumps)@.len() - n]))
        },
{
    if n == 0 {
        if strict {
            return ErrCode::IE621.err_with(None, line);
        } else {
            return Ok(None);
        }
    }
    if jumps.len() < n as usize {
        if strict {
            return ErrCode::IE632.err_with(None, line);
        } else {
            jumps.clear();
            return Ok(None);
        }
    }
    let newlen = jumps.len() - (n as usize - 1);
    jumps.truncate(newlen);
    let r = jumps.pop();
    assert(jumps@ =~= old(jumps)@.take(old(jumps)@.len() - n));
    Ok(r)
}

/// The flat position, first subscript fastest, of the element with the given
/// (one-based) subscripts.
pub open spec fn flat_index(subs: Seq<usize>, dims: Seq<usize>) -> int
    decreases subs.len(),
{
    if subs.len() == 0 || dims.len() == 0 {
        0
    } else {
        flat_index(subs.drop_last(), dims.drop_last()) + (subs.last() - 1) * dims_product(
            dims.drop_last(),
        )
    }
}

/// Each of the first `n` subscripts lies between one and its dimension.
pub open spec fn prefix_in_range(subs: Seq<usize>, dims: Seq<usize>, n: int) -> bool {
    forall|j: int| 0 <= j < n ==> 1 <= #[trigger] subs[j] <= dims[j]
}

/// As many subscripts as dimensions, each between one and its dimension.
pub open spec fn in_range(subs: Seq<usize>, dims: Seq<usize>) -> bool {
    subs.len() == dims.len() && prefix_in_range(subs, dims, subs.len() as int)
}

/// The bits of `b` in reverse order.
pub open spec fn reverse_bits(b: u8) -> u8 {
    ((b & 1) << 7u8) | ((b & 2) << 5u8) | ((b & 4) << 3u8) | ((b & 8) << 1u8) | ((b & 16) >> 1u8)
        | ((b & 32) >> 3u8) | ((b & 64) >> 5u8) | ((b & 128) >> 7u8)
}

/// The output state after reading out `vals` from state `s0`: each value is
/// subtracted, modulo 256, from the state before it.
pub open spec fn out_state<T: LikeU16>(vals: Seq<T>, s0: u8) -> u8
    decreases vals.len(),
{
    if vals.len() == 0 {
        s0
    } else {
        ((out_state(vals.drop_last(), s0) as int - vals.last().wide()) % 256) as u8
    }
}

/// The bytes written when reading out `vals` from state `s0`: each state
/// reached, bit-reversed.
pub open spec fn out_bytes<T: LikeU16>(vals: Seq<T>, s0: u8) -> Seq<u8> {
    Seq::new(vals.len(), |i: int| reverse_bits(out_state(vals.take(i + 1), s0)))
}

/// The input state after the bytes `input` (256 standing for end of input):
/// the last byte read, or 0 after end of input.
pub open spec fn in_state(input: Seq<u16>, s0: u8) -> u8 {
    if input.len() == 0 {
        s0
    } else if input.last() == 256 {
        0
    } else {
        input.last() as u8
    }
}

/// The value stored for the `i`-th input byte: 256 at end of input, else the
/// byte minus the state before it, modulo 256.
pub open spec fn in_value(input: Seq<u16>, s0: u8, i: int) -> nat {
    if input[i] == 256 {
        256
    } else {
        ((input[i] - in_state(input.take(i), s0)) % 256) as nat
    }
}

proof fn lemma_reverse_bits(c0: u8)
    ensures
        ({
            let c1 = (c0 & 0x0f) << 4u8 | (c0 & 0xf0) >> 4u8;
            let c2 = (c1 & 0x33) << 2u8 | (c1 & 0xcc) >> 2u8;
            let c3 = (c2 & 0x55) << 1u8 | (c2 & 0xaa) >> 1u8;
            c3 == reverse_bits(c0)
        }),
{
    assert({
        let c1 = (c0 & 0x0f) << 4u8 | (c0 & 0xf0) >> 4u8;
        let c2 = (c1 & 0x33) << 2u8 | (c1 & 0xcc) >> 2u8;
        let c3 = (c2 & 0x55) << 1u8 | (c2 & 0xaa) >> 1u8;
        c3 == reverse_bits(c0)
    }) by (bit_vector);
}

/// The output state minus the element, modulo 256.
fn difference_byte<T: LikeU16>(s: u8, v: T) -> (b: u8)
    ensures
        b == ((s as int - v.wide()) % 256) as u8,
{
    let v16 = v.to_u16();
    proof {
        lemma_low_byte_difference(s, v16, v.wide());
    }
    s.wrapping_sub((v16 % 256) as u8)
}

/// Subtracting a number modulo 256 is subtracting its low byte.
proof fn lemma_low_byte_difference(s: u8, w: u16, wide: nat)
    requires
        w as nat == wide % 0x10000,
    ensures
        (s as int - wide) % 256 == (s as int + 256 - (w % 256) as int) % 256,
        (s as int - wide) % 256 == (s as int - (w % 256) as int) % 256,
{
    let lw = (w % 256) as int;
    vstd::arithmetic::div_mod::lemma_mod_mod(wide as int, 256, 256);
    assert(lw == (wide as int) % 256);
    vstd::arithmetic::div_mod::lemma_sub_mod_noop_right(s as int, wide as int, 256);
    vstd::arithmetic::div_mod::lemma_mod_add_multiples_vanish(s as int - lw, 256);
}

/// The bits of `b` in reverse order, by swapping halves, pairs and neighbours.
fn reverse_byte(b: u8) -> (r: u8)
    ensures
        r == reverse_bits(b),
{
    let mut c = b;
    c = (c & 0x0f) << 4 | (c & 0xf0) >> 4;
    c = (c & 0x33) << 2 | (c & 0xcc) >> 2;
    c = (c & 0x55) << 1 | (c & 0xaa) >> 1;
    proof {
        lemma_reverse_bits(b);
    }
    c
}

/// An array with one dimension has as many elements as that dimension.
proof fn lemma_one_dimension(d: Seq<usize>)
    requires
        d.len() == 1,
    ensures
        dims_product(d) == d[0] as nat,
{
    assert(d.drop_last() =~= Seq::<usize>::empty());
    assert(dims_product(d.drop_last()) == 1);
    assert(d.last() == d[0]);
    assert(dims_product(d) == dims_product(d.drop_last()) * (d.last() as nat));
}

impl<T: LikeU16> Bind<Array<T>> {
    /// Helper to calculate an array index: IE241 unless there are as many
    /// subscripts as dimensions and each lies between one and its dimension.
    fn get_index(&self, subs: &Vec<usize>, line: usize) -> (r: Res<usize>)
        requires
            products_fit(self.val.dims@),
        ensures
            r is Ok <==> in_range(subs@, self.val.dims@),
            r matches Ok(ix) ==> ix == flat_index(subs@, self.val.dims@) && ix < dims_product(
                self.val.dims@,
            ),
            r matches Err(e) ==> e.code == ErrCode::IE241 && e.word is None && e.line == line,
    {
        let dims = &self.val.dims;
        if subs.len() != dims.len() {
            return ErrCode::IE241.err_with(None, line);
        }
        let mut ix: usize = 0;
        let mut prev_dim: usize = 1;
        let mut n: usize = 0;
        assert(dims@.take(0) =~= Seq::<usize>::empty());
        assert(subs@.take(0) =~= Seq::<usize>::empty());
        while n < subs.len()
            invariant
                n <= subs@.len(),
                dims@ == self.val.dims@,
                subs@.len() == dims@.len(),
                products_fit(dims@),
                prefix_in_range(subs@, dims@, n as int),
                prev_dim == dims_product(dims@.take(n as int)),
                ix == flat_index(subs@.take(n as int), dims@.take(n as int)),
                ix < prev_dim,
            decreases subs@.len() - n,
        {
            let sub = subs[n];
            let dim = dims[n];
            if sub == 0 || sub > dim {
                assert(!in_range(subs@, dims@)) by {
                    assert(!(1 <= subs@[n as int] <= dims@[n as int]));
                    assert(!prefix_in_range(subs@, dims@, subs@.len() as int));
                }
                return ErrCode::IE241.err_with(None, line);
            }
            assert(prefix_in_range(subs@, dims@, n + 1));
            assert(dims@.take(n + 1).drop_last() =~= dims@.take(n as int));
            assert(subs@.take(n + 1).drop_last() =~= subs@.take(n as int));
            assert(dims_product(dims@.take(n + 1)) <= usize::MAX);
            assert(dims_product(dims@.take(n + 1)) == prev_dim * dim);
            assert(ix + (sub - 1) * prev_dim < prev_dim * dim) by (nonlinear_arith)
                requires
                    ix < prev_dim,
                    1 <= sub <= dim,
            ;
            ix = ix + (sub - 1) * prev_dim;
            prev_dim = prev_dim * dim;
            n = n + 1;
        }
        proof {
            lemma_take_full(subs@);
            lemma_take_full(dims@);
        }
        Ok(ix)
    }

    /// Assign to the element with the given subscripts (unless the variable is
    /// ignored); IE241 when the subscripts do not fit the dimensions.
    pub fn set_md(&mut self, subs: Vec<usize>, val: T, line: usize) -> (r: Res<()>)
        requires
            old(self).val.wf(),
            subs@.len() == 0 ==> old(self).val.elems@.len() == dims_product(old(self).val.dims@),
        ensures
            r is Ok <==> in_range(subs@, old(self).val.dims@),
            r is Ok ==> flat_index(subs@, old(self).val.dims@) < dims_product(old(self).val.dims@),
            r matches Err(e) ==> e.code == ErrCode::IE241 && e.word is None && e.line == line,
            final(self).val.dims@ == old(self).val.dims@,
            final(self).val.elems@ == (if r is Ok && old(self).rw {
                old(self).val.elems@.update(flat_index(subs@, old(self).val.dims@), val)
            } else {
                old(self).val.elems@
            }),
            final(self).stack@ == old(self).stack@,
            final(self).rw == old(self).rw,
            final(self).val.wf(),
    {
        let ix = self.get_index(&subs, line)?;
        if self.rw {
            self.val.elems.set(ix, val);
        }
        Ok(())
    }

    /// Assign to the element with the given subscripts, whether or not the
    /// variable is ignored; IE241 when the subscripts do not fit.
    pub fn set_md_unchecked(&mut self, subs: Vec<usize>, val: T, line: usize) -> (r: Res<()>)
        requires
            old(self).val.wf(),
            subs@.len() == 0 ==> old(self).val.elems@.len() == dims_product(old(self).val.dims@),
        ensures
            r is Ok <==> in_range(subs@, old(self).val.dims@),
            r is Ok ==> flat_index(subs@, old(self).val.dims@) < dims_product(old(self).val.dims@),
            r matches Err(e) ==> e.code == ErrCode::IE241 && e.word is None && e.line == line,
            final(self).val.dims@ == old(self).val.dims@,
            final(self).val.elems@ == (if r is Ok {
                old(self).val.elems@.update(flat_index(subs@, old(self).val.dims@), val)
            } else {
                old(self).val.elems@
            }),
            final(self).stack@ == old(self).stack@,
            final(self).rw == old(self).rw,
            final(self).val.wf(),
    {
        let ix = self.get_index(&subs, line)?;
        self.val.elems.set(ix, val);
        Ok(())
    }

    /// Assign to element `sub` (one-based) of a one-dimensional array, unless
    /// the variable is ignored; IE241 unless the array has one dimension and
    /// `sub` lies between one and that dimension.
    pub fn set(&mut self, sub: usize, val: T, line: usize) -> (r: Res<()>)
        requires
            old(self).val.wf(),
        ensures
            r is Ok <==> old(self).val.dims@.len() == 1 && 1 <= sub <= old(self).val.dims@[0],
            r matches Err(e) ==> e.code == ErrCode::IE241 && e.word is None && e.line == line,
            final(self).val.dims@ == old(self).val.dims@,
            final(self).val.elems@ == (if r is Ok && old(self).rw {
                old(self).val.elems@.update(sub - 1, val)
            } else {
                old(self).val.elems@
            }),
            final(self).stack@ == old(self).stack@,
            final(self).rw == old(self).rw,
            final(self).val.wf(),
    {
        if self.val.dims.len() != 1 || sub == 0 || sub > self.val.dims[0] {
            return ErrCode::IE241.err_with(None, line);
        }
        proof {
            lemma_one_dimension(self.val.dims@);
        }
        if self.rw {
            self.val.elems.set(sub - 1, val);
        }
        Ok(())
    }

    /// Assign to element `sub` (one-based) of a one-dimensional array, whether
    /// or not the variable is ignored.
    pub fn set_unchecked(&mut self, sub: usize, val: T, line: usize) -> (r: Res<()>)
        requires
            old(self).val.wf(),
        ensures
            r is Ok <==> old(self).val.dims@.len() == 1 && 1 <= sub <= old(self).val.dims@[0],
            r matches Err(e) ==> e.code == ErrCode::IE241 && e.word is None && e.line == line,
            final(self).val.dims@ == old(self).val.dims@,
            final(self).val.elems@ == (if r is Ok {
                old(self).val.elems@.update(sub - 1, val)
            } else {
                old(self).val.elems@
            }),
            final(self).stack@ == old(self).stack@,
            final(self).rw == old(self).rw,
            final(self).val.wf(),
    {
        if self.val.dims.len() != 1 || sub == 0 || sub > self.val.dims[0] {
            return ErrCode::IE241.err_with(None, line);
        }
        proof {
            lemma_one_dimension(self.val.dims@);
        }
        self.val.elems.set(sub - 1, val);
        Ok(())
    }

    /// The element with the given subscripts; IE241 when they do not fit.
    pub fn get_md(&self, subs: Vec<usize>, line: usize) -> (r: Res<T>)
        requires
            self.val.wf(),
            subs@.len() == 0 ==> self.val.elems@.len() == dims_product(self.val.dims@),
        ensures
            r is Ok <==> in_range(subs@, self.val.dims@),
            r is Ok ==> flat_index(subs@, self.val.dims@) < dims_product(self.val.dims@),
            r matches Ok(v) ==> v == self.val.elems@[flat_index(subs@, self.val.dims@)],
            r matches Err(e) ==> e.code == ErrCode::IE241 && e.word is None && e.line == line,
    {
        let ix = self.get_index(&subs, line)?;
        Ok(self.val.elems[ix])
    }

    /// Element `sub` (one-based) of a one-dimensional array; IE241 unless the
    /// array has one dimension and `sub` does not exceed it.
    pub fn get(&self, sub: usize, line: usize) -> (r: Res<T>)
        requires
            self.val.wf(),
        ensures
            r is Ok <==> self.val.dims@.len() == 1 && 1 <= sub <= self.val.dims@[0],
            r matches Ok(v) ==> v == self.val.elems@[sub - 1],
            r matches Err(e) ==> e.code == ErrCode::IE241 && e.word is None && e.line == line,
    {
        if self.val.dims.len() != 1 || sub == 0 || sub > self.val.dims[0] {
            return ErrCode::IE241.err_with(None, line);
        }
        proof {
            lemma_one_dimension(self.val.dims@);
        }
        Ok(self.val.elems[sub - 1])
    }

    /// DIMENSION: give the variable a fresh all-zero array with the given
    /// dimensions (unless it is ignored); IE240 when a dimension is zero.
    pub fn dimension(&mut self, dims: Vec<usize>, line: usize) -> (r: Res<()>)
        requires
            products_fit(dims@),
        ensures
            r is Err <==> dims_product(dims@) == 0,
            r matches Err(e) ==> e.code == ErrCode::IE240 && e.word is None && e.line == line,
            r is Ok && old(self).rw ==> {
                &&& final(self).val.dims@ == dims@
                &&& final(self).val.elems@.len() == dims_product(dims@)
                &&& forall|i: int|
                    0 <= i < final(self).val.elems@.len()
                        ==> (#[trigger] final(self).val.elems@[i]).wide() == 0
            },
            !(r is Ok && old(self).rw) ==> final(self).val == old(self).val,
            old(self).val.wf() ==> final(self).val.wf(),
            final(self).stack@ == old(self).stack@,
            final(self).rw == old(self).rw,
    {
        let mut total: usize = 1;
        let mut n: usize = 0;
        assert(dims@.take(0) =~= Seq::<usize>::empty());
        while n < dims.len()
            invariant
                n <= dims.len(),
                products_fit(dims@),
                total == dims_product(dims@.take(n as int)),
            decreases dims.len() - n,
        {
            assert(dims@.take(n + 1).drop_last() =~= dims@.take(n as int));
            assert(dims_product(dims@.take(n + 1)) <= usize::MAX);
            total = total * dims[n];
            n = n + 1;
        }
        proof {
            lemma_take_full(dims@);
        }
        if total == 0 {
            return ErrCode::IE240.err_with(None, line);
        }
        if self.rw {
            self.val = Array::new(dims);
        }
        Ok(())
    }

    /// READ OUT of a one-dimensional array: the bytes to write, each the
    /// output state minus the element modulo 256, bit-reversed; the state
    /// becomes the last such difference.  IE241 unless the array has one
    /// dimension.
    #[verifier::rlimit(50)]
    pub fn readout(&self, state: &mut u8, line: usize) -> (r: Res<Vec<u8>>)
        ensures
            r is Ok <==> self.val.dims@.len() == 1,
            r matches Err(e) ==> e.code == ErrCode::IE241 && e.word is None && e.line == line
                && *final(state) == *old(state),
            r matches Ok(bytes) ==> bytes@ == out_bytes(self.val.elems@, *old(state))
                && *final(state) == out_state(self.val.elems@, *old(state)),
    {
        if self.val.dims.len() != 1 {
            // only dimension-1 arrays can be output
            return ErrCode::IE241.err_with(None, line);
        }
        let ghost s0 = *state;
        let ghost vals = self.val.elems@;
        let mut res: Vec<u8> = Vec::new();
        let mut i: usize = 0;
        assert(vals.take(0) =~= Seq::<T>::empty());
        while i < self.val.elems.len()
            invariant
                i <= vals.len(),
                vals == self.val.elems@,
                *state == out_state(vals.take(i as int), s0),
                res@ == Seq::new(i as nat, |j: int| reverse_bits(out_state(vals.take(j + 1), s0))),
            decreases vals.len() - i,
        {
            let byte = difference_byte(*state, self.val.elems[i]);
            proof {
                assert(vals.take(i + 1).drop_last() =~= vals.take(i as int));
                assert(vals.take(i + 1).last() == vals[i as int]);
            }
            *state = byte;
            let c = reverse_byte(byte);
            res.push(c);
            i = i + 1;
            assert(res@ =~= Seq::new(i as nat, |j: int| reverse_bits(out_state(vals.take(j + 1), s0))));
        }
        proof {
            lemma_take_full(vals);
        }
        Ok(res)
    }

    /// WRITE IN of a one-dimensional array, given the bytes read for it (one
    /// per element, 256 standing for end of input): each element becomes the
    /// byte minus the input state modulo 256, or 256 at end of input (unless
    /// the variable is ignored); the state becomes the last byte, or 0 after
    /// end of input.  IE241 unless the array has one dimension.
    pub fn writein(&mut self, input: &Vec<u16>, state: &mut u8, line: usize) -> (r: Res<()>)
        requires
            old(self).val.dims@.len() == 1 ==> input@.len() == old(self).val.elems@.len(),
            forall|i: int| 0 <= i < input@.len() ==> #[trigger] input@[i] <= 256,
        ensures
            r is Ok <==> old(self).val.dims@.len() == 1,
            r matches Err(e) ==> e.code == ErrCode::IE241 && e.word is None && e.line == line,
            r is Err ==> *final(state) == *old(state)
                && final(self).val.elems@ == old(self).val.elems@,
            r is Ok ==> *final(state) == in_state(input@, *old(state)),
            r is Ok && old(self).rw ==> final(self).val.elems@.len() == input@.len() && forall|i: int|
                0 <= i < input@.len() ==> (#[trigger] final(self).val.elems@[i]).wide() == in_value(
                    input@,
                    *old(state),
                    i,
                ),
            r is Ok && !old(self).rw ==> final(self).val.elems@ == old(self).val.elems@,
            final(self).val.dims@ == old(self).val.dims@,
            final(self).stack@ == old(self).stack@,
            final(self).rw == old(self).rw,
            old(self).val.wf() ==> final(self).val.wf(),
    {
        if self.val.dims.len() != 1 {
            // only dimension-1 arrays can be input
            return ErrCode::IE241.err_with(None, line);
        }
        let ghost s0 = *state;
        let ghost old_elems = self.val.elems@;
        let mut i: usize = 0;
        assert(input@.take(0) =~= Seq::<u16>::empty());
        while i < input.len()
            invariant
                i <= input@.len(),
                input@.len() == self.val.elems@.len(),
                forall|k: int| 0 <= k < input@.len() ==> #[trigger] input@[k] <= 256,
                *state == in_state(input@.take(i as int), s0),
                self.val.dims@ == old(self).val.dims@,
                self.stack@ == old(self).stack@,
                self.rw == old(self).rw,
                !self.rw ==> self.val.elems@ == old_elems,
                self.rw ==> forall|k: int|
                    0 <= k < i ==> (#[trigger] self.val.elems@[k]).wide() == in_value(input@, s0, k),
            decreases input@.len() - i,
        {
            let byte = input[i];
            proof {
                assert(input@.take(i + 1).last() == input@[i as int]);
            }
            let c: u16 = if byte == 256 {
                *state = 0;
                256
            } else {
                let c = (byte + 256 - (*state as u16)) % 256;
                proof {
                    vstd::arithmetic::div_mod::lemma_mod_add_multiples_vanish(
                        byte as int - s0 as int - (byte as int - s0 as int),
                        256,
                    );
                    assert((byte + 256 - *state as int) % 256 == (byte - *state as int) % 256) by {
                        vstd::arithmetic::div_mod::lemma_mod_add_multiples_vanish(
                            byte - *state as int,
                            256,
                        );
                    }
                }
                *state = byte as u8;
                c
            };
            if self.rw {
                let v = T::from_u16(c);
                self.val.elems.set(i, v);
            }
            i = i + 1;
        }
        proof {
            lemma_take_full(input@);
        }
        Ok(())
    }
}

/// Bit `i` of `x` is `f(i)`, for every `i` below 32.
pub open spec fn has_bits(x: u32, f: spec_fn(u32) -> bool) -> bool {
    forall|i: u32| i < 32 ==> #[trigger] bit(x, i) == f(i)
}

/// The word whose bit `i` is `f(i)`, for `i` below 32.
pub open spec fn word_with_bits(f: spec_fn(u32) -> bool) -> u32 {
    choose|x: u32| #[trigger] has_bits(x, f)
}

/// A word is the word with its own bits.
pub proof fn lemma_word_with_bits(r: u32, f: spec_fn(u32) -> bool)
    requires
        forall|i: u32| i < 32 ==> #[trigger] bit(r, i) == f(i),
    ensures
        r == word_with_bits(f),
{
    assert(has_bits(r, f));
    let c = word_with_bits(f);
    assert(has_bits(c, f));
    assert forall|i: u32| i < 32 implies #[trigger] bit(r, i) == bit(c, i) by {
        assert(bit(r, i) == f(i));
        assert(bit(c, i) == f(i));
    }
    lemma_bits_determine(r, c);
}

/// The mingle of `v` and `w` as a number.
pub open spec fn mingle_value(v: u32, w: u32) -> u32 {
    word_with_bits(|j: u32| mingled_bit(v, w, j))
}

/// Unary AND on a 16-bit value, as a number.
pub open spec fn and16_value(v: u32) -> u32 {
    word_with_bits(|i: u32| bit(v, i) && partner16(v, i))
}

/// Unary OR on a 16-bit value, as a number.
pub open spec fn or16_value(v: u32) -> u32 {
    word_with_bits(|i: u32| bit(v, i) || partner16(v, i))
}

/// Unary XOR on a 16-bit value, as a number.
pub open spec fn xor16_value(v: u32) -> u32 {
    word_with_bits(|i: u32| bit(v, i) != partner16(v, i))
}

/// Unary AND on a 32-bit value, as a number.
pub open spec fn and32_value(v: u32) -> u32 {
    word_with_bits(|i: u32| bit(v, i) && partner32(v, i))
}

/// Unary OR on a 32-bit value, as a number.
pub open spec fn or32_value(v: u32) -> u32 {
    word_with_bits(|i: u32| bit(v, i) || partner32(v, i))
}

/// Unary XOR on a 32-bit value, as a number.
pub open spec fn xor32_value(v: u32) -> u32 {
    word_with_bits(|i: u32| bit(v, i) != partner32(v, i))
}

} // verus!
