use vstd::prelude::*;

verus! {

/// The sign bit of a single-precision bit pattern.
pub const SIGN_BIT: u32 = 0x8000_0000;

/// The bit pattern of positive infinity.
pub const POS_INF_BITS: u32 = 0x7f80_0000;

/// The bit pattern of negative infinity.
pub const NEG_INF_BITS: u32 = 0xff80_0000;

/// The order key of a single-precision bit pattern: a non-negative value gets
/// its sign bit set, a negative one has all its bits flipped, so that keys
/// compare as unsigned integers in the order of the numbers they stand for.
pub open spec fn key_spec(bits: u32) -> u32 {
    if bits & SIGN_BIT == 0 {
        bits | SIGN_BIT
    } else {
        !bits
    }
}

/// Whether a bit pattern is a NaN: all exponent bits set and a non-zero fraction.
pub open spec fn is_nan_bits(bits: u32) -> bool {
    bits & 0x7fff_ffff > POS_INF_BITS
}

/// The magnitude of a bit pattern: every bit but the sign.
pub open spec fn magnitude(bits: u32) -> u32 {
    bits & 0x7fff_ffff
}

/// The numeric order of two non-NaN single-precision values, read from their
/// sign and magnitude; the two zeros are equal.
pub open spec fn bits_less(a: u32, b: u32) -> bool {
    let na = a & SIGN_BIT != 0;
    let nb = b & SIGN_BIT != 0;
    if na && nb {
        magnitude(a) > magnitude(b)
    } else if !na && !nb {
        magnitude(a) < magnitude(b)
    } else if na {
        !(magnitude(a) == 0 && magnitude(b) == 0)
    } else {
        false
    }
}

/// The key of positive infinity, the largest key of a number.
pub const POS_INF_KEY: u32 = 0xff80_0000;

/// The key of negative infinity, the smallest key of a number.
pub const NEG_INF_KEY: u32 = 0x007f_ffff;

/// Whether a key stands for a number (not for a NaN).
pub open spec fn is_number_key(k: u32) -> bool {
    NEG_INF_KEY <= k <= POS_INF_KEY
}

/// The order key of a bit pattern.
pub fn order_key(bits: u32) -> (k: u32)
    ensures
        k == key_spec(bits),
{
    if bits & SIGN_BIT == 0 {
        bits | SIGN_BIT
    } else {
        !bits
    }
}

/// The bit pattern that has the given order key.
pub fn key_bits(k: u32) -> (bits: u32)
    ensures
        key_spec(bits) == k,
{
    if k & SIGN_BIT != 0 {
        let b = k & !SIGN_BIT;
        assert(key_spec(b) == k) by (bit_vector)
            requires
                k & 0x8000_0000u32 != 0,
                b == k & !0x8000_0000u32,
        ;
        b
    } else {
        let b = !k;
        assert(key_spec(b) == k) by (bit_vector)
            requires
                k & 0x8000_0000u32 == 0,
                b == !k,
        ;
        b
    }
}

/// Keys of two bit patterns are equal exactly when the patterns are.
pub proof fn lemma_key_injective(a: u32, b: u32)
    ensures
        key_spec(a) == key_spec(b) <==> a == b,
{
    assert(key_spec(a) == key_spec(b) <==> a == b) by (bit_vector);
}

/// Keys order the numbers they stand for: for two non-NaN values, the key of
/// the first is below the key of the second exactly when the first value is
/// smaller, or the first is negative zero and the second positive zero.
pub proof fn lemma_key_order(a: u32, b: u32)
    requires
        !is_nan_bits(a),
        !is_nan_bits(b),
    ensures
        key_spec(a) < key_spec(b) <==> (bits_less(a, b) || (a == SIGN_BIT && b == 0)),
{
    assert(key_spec(a) < key_spec(b) <==> (bits_less(a, b) || (a == SIGN_BIT && b == 0)))
        by (bit_vector)
        requires
            a & 0x7fff_ffffu32 <= 0x7f80_0000u32,
            b & 0x7fff_ffffu32 <= 0x7f80_0000u32,
    ;
}

/// The keys of numbers lie between the keys of the two infinities.
pub proof fn lemma_number_key(bits: u32)
    ensures
        is_number_key(key_spec(bits)) <==> !is_nan_bits(bits),
        key_spec(POS_INF_BITS) == POS_INF_KEY,
        key_spec(NEG_INF_BITS) == NEG_INF_KEY,
{
    assert(is_number_key(key_spec(bits)) <==> !is_nan_bits(bits)) by (bit_vector);
    assert(key_spec(POS_INF_BITS) == POS_INF_KEY) by (bit_vector);
    assert(key_spec(NEG_INF_BITS) == NEG_INF_KEY) by (bit_vector);
}

} // verus!
