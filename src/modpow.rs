//! The fixed public exponent 65537 = 2^16 + 1, applied by sixteen modular
//! squarings and one final multiplication.
use crate::bounded::{mul_mod, reduce, scale_of, BoundedUint};
use vstd::arithmetic::div_mod::{lemma_mul_mod_noop, lemma_mul_mod_noop_left};
use vstd::arithmetic::div_mod::lemma_small_mod;
use vstd::arithmetic::power::{lemma1_pow, lemma_pow1, lemma_pow_adds, pow};
use vstd::prelude::*;

verus! {

/// The public exponent.
pub const EXPONENT: u64 = 65537;

/// Number of squarings before the final multiplication.
pub const SQUARINGS: u32 = 16;

/// `base^65537 mod modulus` as a number.
pub open spec fn modpow_spec(base: nat, modulus: nat) -> nat
    recommends
        modulus > 0,
{
    (pow(base as int, EXPONENT as nat) % (modulus as int)) as nat
}

/// A base of one gives one for every modulus above one.
pub proof fn lemma_unit_base(modulus: nat)
    requires
        modulus > 1,
    ensures
        modpow_spec(1, modulus) == 1,
{
    lemma1_pow(EXPONENT as nat);
    lemma_small_mod(1, modulus);
}

proof fn lemma_square_step(b: int, e: nat, m: int, acc: int, next: int)
    requires
        m > 0,
        acc == pow(b, e) % m,
        next == (acc * acc) % m,
    ensures
        next == pow(b, e + e) % m,
{
    lemma_mul_mod_noop(pow(b, e), pow(b, e), m);
    lemma_pow_adds(b, e, e);
}

proof fn lemma_scale_facts(k: u32)
    requires
        k < 16,
    ensures
        scale_of((k + 1) as u32) == scale_of(k) + scale_of(k),
        scale_of(0) == 1,
        scale_of(16) == 65536,
{
    assert(scale_of((k + 1) as u32) == scale_of(k) + scale_of(k)) by (bit_vector)
        requires
            k < 16,
    ;
    assert(scale_of(0) == 1) by (bit_vector);
    assert(scale_of(16) == 65536) by (bit_vector);
}

/// `base^65537 mod modulus`: reduce the base, square it sixteen times,
/// then multiply once more by the base.  Defined for every modulus above
/// zero; a modulus of one gives zero.
pub fn modpow_65537(base: &BoundedUint, modulus: &BoundedUint) -> (r: BoundedUint)
    requires
        base.wf(),
        modulus.wf(),
        modulus@ > 0,
    ensures
        r.wf(),
        r@ == modpow_spec(base@, modulus@),
        r@ < modulus@,
{
    let ghost b = base@ as int;
    let ghost m = modulus@ as int;
    let mut acc = reduce(base, modulus);
    proof {
        lemma_pow1(b);
        lemma_scale_facts(0);
    }
    let mut k: u32 = 0;
    while k < SQUARINGS
        invariant
            base.wf(),
            modulus.wf(),
            b == base@,
            m == modulus@,
            m > 0,
            k <= SQUARINGS,
            acc.wf(),
            acc@ < m,
            acc@ == pow(b, scale_of(k) as nat) % m,
        decreases SQUARINGS - k,
    {
        let next = mul_mod(&acc, &acc, modulus);
        proof {
            lemma_scale_facts(k);
            lemma_square_step(b, scale_of(k) as nat, m, acc@ as int, next@ as int);
        }
        acc = next;
        k = k + 1;
    }
    let r = mul_mod(&acc, base, modulus);
    proof {
        lemma_scale_facts(0);
        lemma_mul_mod_noop_left(pow(b, 65536), b, m);
        lemma_pow_adds(b, 65536, 1);
    }
    r
}

} // verus!
