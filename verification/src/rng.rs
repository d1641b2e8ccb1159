use vstd::prelude::*;

verus! {

/// One XorShift64 step (shifts 13, 7, 17); bits shifted past either end are lost.
pub open spec fn xorshift_next(s: u64) -> u64 {
    let a = s ^ ((s << 13u64) as u64);
    let b = a ^ (a >> 7u64);
    b ^ ((b << 17u64) as u64)
}

/// Advances the generator state in place and returns the new state.
pub fn xorshift(s: &mut u64) -> (r: u64)
    ensures
        *final(s) == xorshift_next(*old(s)),
        r == *final(s),
{
    *s = *s ^ (*s << 13u64);
    *s = *s ^ (*s >> 7u64);
    *s = *s ^ (*s << 17u64);
    *s
}

/// A nonzero state never steps to zero, so a generator seeded with a nonzero
/// value keeps producing fresh numbers; zero is a fixed point.
pub proof fn lemma_xorshift_nonzero(s: u64)
    ensures
        s != 0 ==> xorshift_next(s) != 0,
        s == 0 ==> xorshift_next(s) == 0,
{
    let a = s ^ ((s << 13u64) as u64);
    let b = a ^ (a >> 7u64);
    let c = b ^ ((b << 17u64) as u64);
    assert(s != 0 ==> a != 0) by (bit_vector)
        requires
            a == s ^ ((s << 13u64) as u64),
    ;
    assert(a != 0 ==> b != 0) by (bit_vector)
        requires
            b == a ^ (a >> 7u64),
    ;
    assert(b != 0 ==> c != 0) by (bit_vector)
        requires
            c == b ^ ((b << 17u64) as u64),
    ;
    assert(s == 0 ==> c == 0) by (bit_vector)
        requires
            a == s ^ ((s << 13u64) as u64),
            b == a ^ (a >> 7u64),
            c == b ^ ((b << 17u64) as u64),
    ;
}

/// Distinct states step to distinct states: the step is one-to-one, so the
/// generator's sequence is a permutation cycle and never merges into another.
pub proof fn lemma_xorshift_injective(s: u64, t: u64)
    requires
        xorshift_next(s) == xorshift_next(t),
    ensures
        s == t,
{
    let a1 = s ^ ((s << 13u64) as u64);
    let b1 = a1 ^ (a1 >> 7u64);
    let a2 = t ^ ((t << 13u64) as u64);
    let b2 = a2 ^ (a2 >> 7u64);
    assert(b1 == b2) by (bit_vector)
        requires
            b1 ^ ((b1 << 17u64) as u64) == b2 ^ ((b2 << 17u64) as u64),
    ;
    assert(a1 == a2) by (bit_vector)
        requires
            a1 ^ (a1 >> 7u64) == a2 ^ (a2 >> 7u64),
    ;
    assert(s == t) by (bit_vector)
        requires
            s ^ ((s << 13u64) as u64) == t ^ ((t << 13u64) as u64),
    ;
}

} // verus!
