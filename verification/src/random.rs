use vstd::prelude::*;

verus! {

/// One step of the xorshift64 generator (shifts 13, 7, 17).
pub open spec fn xorshift(x: u64) -> u64 {
    let a = x ^ (x << 13u64);
    let b = a ^ (a >> 7u64);
    b ^ (b << 17u64)
}

/// Advance the generator state and return the new state as the next
/// pseudo-random number. The sequence is fully determined by the seed.
pub fn rand_u64(state: &mut u64) -> (r: u64)
    ensures
        r == xorshift(*old(state)),
        *final(state) == r,
{
    let mut x = *state;
    x ^= x << 13u64;
    x ^= x >> 7u64;
    x ^= x << 17u64;
    *state = x;
    x
}

/// xorshift never reaches zero from a non-zero state, so a generator seeded
/// with a non-zero value never gets stuck.
pub proof fn law_xorshift_nonzero(x: u64)
    requires
        x != 0,
    ensures
        xorshift(x) != 0,
{
    let a = x ^ (x << 13u64);
    let b = a ^ (a >> 7u64);
    assert(x != 0 ==> x ^ (x << 13u64) != 0) by (bit_vector);
    assert(a != 0 ==> a ^ (a >> 7u64) != 0) by (bit_vector);
    assert(b != 0 ==> b ^ (b << 17u64) != 0) by (bit_vector);
}

/// xorshift is linear over GF(2): the step of a bitwise xor of two states
/// is the xor of their steps. (With law_xorshift_one_to_one, it is a fixed
/// invertible bit matrix, the same for every state.)
pub proof fn law_xorshift_linear(x: u64, y: u64)
    ensures
        xorshift(x ^ y) == xorshift(x) ^ xorshift(y),
{
    assert(xorshift(x ^ y) == xorshift(x) ^ xorshift(y)) by (bit_vector);
}

/// Distinct states step to distinct states, so the generator never merges
/// two sequences.
pub proof fn law_xorshift_one_to_one(x: u64, y: u64)
    ensures
        xorshift(x) == xorshift(y) ==> x == y,
{
    let a = x ^ (x << 13u64);
    let b = a ^ (a >> 7u64);
    let c = y ^ (y << 13u64);
    let d = c ^ (c >> 7u64);
    assert(b ^ (b << 17u64) == d ^ (d << 17u64) ==> b == d) by (bit_vector);
    assert(a ^ (a >> 7u64) == c ^ (c >> 7u64) ==> a == c) by (bit_vector);
    assert(x ^ (x << 13u64) == y ^ (y << 13u64) ==> x == y) by (bit_vector);
}

/// Each bit of a step is the xor of a fixed set of state bits: bit 0 of
/// the result is bit 0 of the state xored with bit 7, for every state.
pub proof fn law_xorshift_low_bit(x: u64)
    ensures
        xorshift(x) & 1 == (x ^ (x >> 7u64)) & 1,
{
    assert(xorshift(x) & 1 == (x ^ (x >> 7u64)) & 1) by (bit_vector);
}

/// The step as one sum over GF(2) of eight shifted copies of the state,
/// with no dependence between the three shifts: each result bit is fixed
/// by the state bits alone, with no case split on the state.
pub proof fn law_xorshift_expanded(x: u64)
    ensures
        xorshift(x) == x ^ (x << 13u64) ^ (x >> 7u64) ^ ((x << 13u64) >> 7u64) ^ (x << 17u64) ^ (x
            << 30u64) ^ ((x >> 7u64) << 17u64) ^ (((x << 13u64) >> 7u64) << 17u64),
{
    assert(xorshift(x) == x ^ (x << 13u64) ^ (x >> 7u64) ^ ((x << 13u64) >> 7u64) ^ (x << 17u64) ^ (x
        << 30u64) ^ ((x >> 7u64) << 17u64) ^ (((x << 13u64) >> 7u64) << 17u64)) by (bit_vector);
}

} // verus!
