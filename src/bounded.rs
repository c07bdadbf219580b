//! Fixed-capacity unsigned integers and their modular arithmetic.
use crate::limbs::{
    add_limbs, lemma_limbs_val_bound, lemma_radix_pow_pos, lemma_limbs_val_front, limb_radix, limbs_val, radix_pow,
    sub_limbs,
};
use vstd::arithmetic::div_mod::{
    lemma_add_mod_noop, lemma_add_mod_noop_right, lemma_mod_add_multiples_vanish, lemma_small_mod,
};
use vstd::prelude::*;

verus! {

/// Number of 32-bit limbs in every operand.
pub const LIMBS: usize = 96;

/// Largest supported bit-length of an operand.
pub const MAX_BITS: usize = 3072;

/// Every operand value lies below this bound: `2^MAX_BITS`.
pub open spec fn capacity() -> nat {
    radix_pow(LIMBS as nat)
}

/// An unsigned integer of at most `MAX_BITS` bits, held as `LIMBS`
/// little-endian 32-bit limbs.
#[derive(Clone, Debug, PartialEq, Eq)]
pub struct BoundedUint {
    limbs: Vec<u32>,
}

impl View for BoundedUint {
    type V = nat;

    closed spec fn view(&self) -> nat {
        limbs_val(self.limbs@)
    }
}

impl BoundedUint {
    /// Storage always holds exactly `LIMBS` limbs.
    pub closed spec fn wf(&self) -> bool {
        self.limbs@.len() == LIMBS
    }

    pub proof fn lemma_below_capacity(&self)
        requires
            self.wf(),
        ensures
            self@ < capacity(),
    {
        lemma_limbs_val_bound(self.limbs@);
    }

    /// Wraps exactly `LIMBS` little-endian limbs.
    pub fn from_limbs(limbs: Vec<u32>) -> (r: BoundedUint)
        requires
            limbs@.len() == LIMBS,
        ensures
            r.wf(),
            r@ == limbs_val(limbs@),
    {
        BoundedUint { limbs }
    }

    /// The little-endian limbs.
    pub fn limbs(&self) -> (r: &Vec<u32>)
        requires
            self.wf(),
        ensures
            r@.len() == LIMBS,
            limbs_val(r@) == self@,
    {
        &self.limbs
    }

    /// The value zero.
    pub fn zero() -> (r: BoundedUint)
        ensures
            r.wf(),
            r@ == 0,
    {
        let limbs: Vec<u32> = vec![0u32; LIMBS];
        proof {
            lemma_all_zero(limbs@);
        }
        BoundedUint { limbs }
    }

    /// The value one.
    pub fn one() -> (r: BoundedUint)
        ensures
            r.wf(),
            r@ == 1,
    {
        let mut limbs: Vec<u32> = vec![0u32; LIMBS];
        limbs.set(0, 1u32);
        proof {
            lemma_limbs_val_front(limbs@);
            lemma_all_zero(limbs@.drop_first());
        }
        BoundedUint { limbs }
    }
}

impl BoundedUint {
    /// Whether the value is zero.
    pub fn is_zero(&self) -> (r: bool)
        requires
            self.wf(),
        ensures
            r == (self@ == 0),
    {
        let mut i: usize = 0;
        while i < LIMBS
            invariant
                self.wf(),
                i <= LIMBS,
                forall|j: int| 0 <= j < i ==> self.limbs@[j] == 0,
            decreases LIMBS - i,
        {
            if self.limbs[i] != 0 {
                proof {
                    lemma_nonzero_limb(self.limbs@, i as int);
                }
                return false;
            }
            i = i + 1;
        }
        proof {
            lemma_all_zero(self.limbs@);
        }
        true
    }
}

proof fn lemma_nonzero_limb(s: Seq<u32>, i: int)
    requires
        0 <= i < s.len(),
        s[i] != 0,
    ensures
        limbs_val(s) > 0,
    decreases s.len(),
{
    if i < s.len() - 1 {
        lemma_nonzero_limb(s.drop_last(), i);
    } else {
        lemma_radix_pow_pos(i as nat);
        assert(s[i] * radix_pow(i as nat) > 0) by (nonlinear_arith)
            requires
                s[i] > 0,
                radix_pow(i as nat) > 0,
        ;
    }
}

pub proof fn lemma_one_below_capacity()
    ensures
        1 < capacity(),
{
    lemma_radix_pow_grows(LIMBS as nat);
}

proof fn lemma_radix_pow_grows(n: nat)
    requires
        n > 0,
    ensures
        radix_pow(n) > 1,
    decreases n,
{
    lemma_radix_pow_pos((n - 1) as nat);
}

proof fn lemma_all_zero(s: Seq<u32>)
    requires
        forall|i: int| 0 <= i < s.len() ==> s[i] == 0,
    ensures
        limbs_val(s) == 0,
    decreases s.len(),
{
    if s.len() > 0 {
        lemma_all_zero(s.drop_last());
    }
}

/// `(a + b) mod m`, for summands whose total stays below `2 * m`.
pub fn mod_add(a: &BoundedUint, b: &BoundedUint, m: &BoundedUint) -> (r: BoundedUint)
    requires
        a.wf(),
        b.wf(),
        m.wf(),
        m@ > 0,
        a@ + b@ < 2 * m@,
    ensures
        r.wf(),
        r@ == (a@ + b@) % m@,
        r@ < m@,
{
    let (s, carry) = add_limbs(a.limbs(), b.limbs());
    let (d, borrow) = sub_limbs(&s, m.limbs());
    proof {
        let t = a@ + b@;
        let mm = m@ as int;
        m.lemma_below_capacity();
        lemma_limbs_val_bound(s@);
        if carry || !borrow {
            assert(limbs_val(d@) == t - mm);
            lemma_small_mod((t - mm) as nat, mm as nat);
            lemma_mod_add_multiples_vanish(t - mm, mm);
        } else {
            lemma_small_mod(t as nat, mm as nat);
        }
    }
    if carry || !borrow {
        BoundedUint::from_limbs(d)
    } else {
        BoundedUint::from_limbs(s)
    }
}

/// `(a - b) mod m`, for operands already reduced below `m`.
pub fn mod_sub(a: &BoundedUint, b: &BoundedUint, m: &BoundedUint) -> (r: BoundedUint)
    requires
        a.wf(),
        b.wf(),
        m.wf(),
        a@ < m@,
        b@ < m@,
    ensures
        r.wf(),
        r@ == (a@ - b@) % (m@ as int),
        r@ < m@,
{
    let (d, borrow) = sub_limbs(a.limbs(), b.limbs());
    let (s, _carry) = add_limbs(&d, m.limbs());
    proof {
        let x = a@ - b@;
        let mm = m@ as int;
        lemma_limbs_val_bound(s@);
        if borrow {
            lemma_small_mod((x + mm) as nat, mm as nat);
            lemma_mod_add_multiples_vanish(x, mm);
        } else {
            lemma_small_mod(x as nat, mm as nat);
        }
    }
    if borrow {
        BoundedUint::from_limbs(s)
    } else {
        BoundedUint::from_limbs(d)
    }
}

/// The top `k` bits of a 32-bit word, for `k <= 32`.
pub open spec fn top_bits(w: u32, k: u32) -> u64 {
    (w as u64) >> ((32 - k) as u64)
}

/// `2^k` as a 64-bit word, for `k <= 32`.
pub open spec fn scale_of(k: u32) -> u64 {
    1u64 << (k as u64)
}

proof fn lemma_bit_step(w: u32, k: u32)
    requires
        k < 32,
    ensures
        top_bits(w, (k + 1) as u32) == 2 * top_bits(w, k) + ((w >> ((31 - k) as u32)) & 1u32),
        scale_of((k + 1) as u32) == 2 * scale_of(k),
        top_bits(w, k) < scale_of(k),
{
    assert(top_bits(w, (k + 1) as u32) == 2 * top_bits(w, k) + ((w >> ((31 - k) as u32)) & 1u32))
        by (bit_vector)
        requires
            k < 32,
    ;
    assert(scale_of((k + 1) as u32) == 2 * scale_of(k)) by (bit_vector)
        requires
            k < 32,
    ;
    assert(top_bits(w, k) < scale_of(k)) by (bit_vector)
        requires
            k < 32,
    ;
}

proof fn lemma_bit_ends(w: u32)
    ensures
        top_bits(w, 0) == 0,
        top_bits(w, 32) == w,
        scale_of(0) == 1,
        scale_of(32) == limb_radix(),
{
    assert(top_bits(w, 0) == 0) by (bit_vector);
    assert(top_bits(w, 32) == w) by (bit_vector);
    assert(scale_of(0) == 1) by (bit_vector);
    assert(scale_of(32) == 0x1_0000_0000) by (bit_vector);
}

/// One step of the double-and-add ladder: from `a * x mod m` to
/// `a * (2x + bit) mod m`.
proof fn lemma_ladder_step(a: int, x: int, m: int, acc: int, dbl: int, bit: int, next: int)
    requires
        m > 0,
        acc == (a * x) % m,
        dbl == (acc + acc) % m,
        bit == 0 || bit == 1,
        bit == 1 ==> next == (dbl + a) % m,
        bit == 0 ==> next == dbl,
    ensures
        next == (a * (2 * x + bit)) % m,
{
    lemma_add_mod_noop(a * x, a * x, m);
    assert(a * x + a * x == a * (2 * x)) by (nonlinear_arith);
    if bit == 1 {
        lemma_add_mod_noop_right(a, a * (2 * x), m);
        assert(a * (2 * x) + a == a * (2 * x + 1)) by (nonlinear_arith);
    }
}

/// `(a * b) mod m`, by a double-and-add ladder over all `MAX_BITS` bits
/// of `b`, most significant first.  The work done does not depend on the
/// values.
pub fn mul_mod(a: &BoundedUint, b: &BoundedUint, m: &BoundedUint) -> (r: BoundedUint)
    requires
        a.wf(),
        b.wf(),
        m.wf(),
        m@ > 0,
        a@ <= m@,
    ensures
        r.wf(),
        r@ == (a@ * b@) % m@,
        r@ < m@,
{
    let bl = b.limbs();
    let ghost mm = m@ as int;
    let ghost av = a@ as int;
    let mut acc = BoundedUint::zero();
    let mut i: usize = LIMBS;
    proof {
        assert(bl@.skip(LIMBS as int).len() == 0);
        assert(av * 0 == 0);
        lemma_small_mod(0, mm as nat);
    }
    while i > 0
        invariant
            bl@.len() == LIMBS,
            limbs_val(bl@) == b@,
            a.wf(),
            m.wf(),
            mm == m@,
            av == a@,
            mm > 0,
            av <= mm,
            i <= LIMBS,
            acc.wf(),
            acc@ < mm,
            acc@ == (av * limbs_val(bl@.skip(i as int))) % mm,
        decreases i,
    {
        let w: u32 = bl[i - 1];
        let ghost q = limbs_val(bl@.skip(i as int)) as int;
        let mut k: u32 = 0;
        proof {
            lemma_bit_ends(w);
        }
        while k < 32
            invariant
                a.wf(),
                m.wf(),
                mm == m@,
                av == a@,
                mm > 0,
                av <= mm,
                k <= 32,
                acc.wf(),
                acc@ < mm,
                acc@ == (av * (q * scale_of(k) + top_bits(w, k))) % mm,
            decreases 32 - k,
        {
            let bit: u32 = (w >> (31 - k)) & 1u32;
            let dbl = mod_add(&acc, &acc, m);
            let with_a = mod_add(&dbl, a, m);
            let next = if bit == 1 {
                with_a
            } else {
                dbl
            };
            proof {
                lemma_bit_step(w, k);
                assert(bit == 0 || bit == 1) by (bit_vector)
                    requires
                        bit == (w >> ((31 - k) as u32)) & 1u32,
                ;
                let x = q * scale_of(k) + top_bits(w, k);
                lemma_ladder_step(av, x, mm, acc@ as int, dbl@ as int, bit as int, next@ as int);
                assert(2 * x + bit == q * scale_of((k + 1) as u32) + top_bits(w, (k + 1) as u32))
                    by (nonlinear_arith)
                    requires
                        x == q * scale_of(k) + top_bits(w, k),
                        scale_of((k + 1) as u32) == 2 * scale_of(k),
                        top_bits(w, (k + 1) as u32) == 2 * top_bits(w, k) + bit,
                ;
            }
            acc = next;
            k = k + 1;
        }
        proof {
            let s = bl@.skip(i - 1);
            lemma_limbs_val_front(s);
            assert(s.drop_first() =~= bl@.skip(i as int));
            assert(q * limb_radix() == limb_radix() * q) by (nonlinear_arith);
        }
        i = i - 1;
    }
    proof {
        assert(bl@.skip(0) =~= bl@);
    }
    acc
}

/// `x mod m` for any operand `x`.
pub fn reduce(x: &BoundedUint, m: &BoundedUint) -> (r: BoundedUint)
    requires
        x.wf(),
        m.wf(),
        m@ > 0,
    ensures
        r.wf(),
        r@ == x@ % m@,
        r@ < m@,
{
    let one = BoundedUint::one();
    mul_mod(&one, x, m)
}

} // verus!
