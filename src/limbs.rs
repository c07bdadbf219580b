//! Little-endian sequences of 32-bit limbs and their carry/borrow loops.
use vstd::prelude::*;

verus! {

/// One limb holds 32 bits.
pub open spec fn limb_radix() -> nat {
    0x1_0000_0000
}

/// `limb_radix()` raised to the power `n`.
pub open spec fn radix_pow(n: nat) -> nat
    decreases n,
{
    if n == 0 {
        1
    } else {
        limb_radix() * radix_pow((n - 1) as nat)
    }
}

/// The number that a little-endian limb sequence denotes.
pub open spec fn limbs_val(s: Seq<u32>) -> nat
    decreases s.len(),
{
    if s.len() == 0 {
        0
    } else {
        (limbs_val(s.drop_last()) + s.last() * radix_pow((s.len() - 1) as nat)) as nat
    }
}

pub proof fn lemma_radix_pow_pos(n: nat)
    ensures
        radix_pow(n) > 0,
    decreases n,
{
    if n > 0 {
        lemma_radix_pow_pos((n - 1) as nat);
        assert(limb_radix() * radix_pow((n - 1) as nat) > 0) by (nonlinear_arith)
            requires
                radix_pow((n - 1) as nat) > 0,
        ;
    }
}

/// A prefix one limb longer adds that limb at its place value.
pub proof fn lemma_take_succ(s: Seq<u32>, i: int)
    requires
        0 <= i < s.len(),
    ensures
        limbs_val(s.take(i + 1)) == limbs_val(s.take(i)) + s[i] * radix_pow(i as nat),
{
    assert(s.take(i + 1).drop_last() =~= s.take(i));
}

/// Every limb sequence of length `n` denotes a number below `radix_pow(n)`.
pub proof fn lemma_limbs_val_bound(s: Seq<u32>)
    ensures
        limbs_val(s) < radix_pow(s.len()),
    decreases s.len(),
{
    if s.len() > 0 {
        let n = (s.len() - 1) as nat;
        lemma_limbs_val_bound(s.drop_last());
        let p = radix_pow(n);
        let v = limbs_val(s.drop_last());
        let d = s.last() as int;
        assert(v + d * p < limb_radix() * p) by (nonlinear_arith)
            requires
                v < p,
                0 <= d < limb_radix(),
        ;
    }
}

/// The value of a sequence splits at its first limb.
pub proof fn lemma_limbs_val_front(s: Seq<u32>)
    requires
        s.len() > 0,
    ensures
        limbs_val(s) == s[0] + limb_radix() * limbs_val(s.drop_first()),
    decreases s.len(),
{
    if s.len() == 1 {
        assert(s.drop_last().len() == 0);
        assert(s.drop_first().len() == 0);
        assert(radix_pow(0) == 1);
        assert(limbs_val(s) == limbs_val(s.drop_last()) + s[0] * radix_pow(0));
    } else {
        let n = s.len();
        let init = s.drop_last();
        lemma_limbs_val_front(init);
        assert(init.drop_first() =~= s.drop_first().drop_last());
        let t = s.drop_first();
        assert(t.last() == s.last());
        let p = radix_pow((n - 2) as nat);
        assert(radix_pow((n - 1) as nat) == limb_radix() * p);
        let w = limbs_val(init.drop_first());
        let d = s.last() as int;
        assert(limb_radix() * (w + d * p) == limb_radix() * w + d * (limb_radix() * p))
            by (nonlinear_arith);
        assert(init[0] == s[0]);
        assert(t.drop_last() =~= init.drop_first());
        assert(limbs_val(t) == w + d * p);
        assert(limbs_val(s) == limbs_val(init) + d * radix_pow((n - 1) as nat));
    }
}

proof fn lemma_digit_step(lo: int, hi: int, x: int, p: int)
    requires
        lo + hi * limb_radix() == x,
    ensures
        lo * p + hi * (limb_radix() * p) == x * p,
{
    assert(lo * p + hi * (limb_radix() * p) == (lo + hi * limb_radix()) * p) by (nonlinear_arith);
}

/// Limb-wise addition with carry: `out + carry * radix_pow(n) == a + b`.
pub fn add_limbs(a: &Vec<u32>, b: &Vec<u32>) -> (r: (Vec<u32>, bool))
    requires
        a@.len() == b@.len(),
    ensures
        r.0@.len() == a@.len(),
        limbs_val(r.0@) + (if r.1 { radix_pow(a@.len()) } else { 0 }) == limbs_val(a@) + limbs_val(
            b@,
        ),
{
    let n = a.len();
    let mut out: Vec<u32> = Vec::with_capacity(n);
    let mut carry: u64 = 0;
    let mut i: usize = 0;
    while i < n
        invariant
            n == a@.len(),
            n == b@.len(),
            i <= n,
            out@.len() == i,
            carry <= 1,
            limbs_val(out@) + carry * radix_pow(i as nat) == limbs_val(a@.take(i as int))
                + limbs_val(b@.take(i as int)),
        decreases n - i,
    {
        let s: u64 = a[i] as u64 + b[i] as u64 + carry;
        let lo: u32 = (s % 0x1_0000_0000) as u32;
        let hi: u64 = s / 0x1_0000_0000;
        let ghost old_out = out@;
        out.push(lo);
        proof {
            lemma_take_succ(a@, i as int);
            lemma_take_succ(b@, i as int);
            assert(out@.drop_last() =~= old_out);
            let p = radix_pow(i as nat) as int;
            lemma_digit_step(lo as int, hi as int, a[i as int] + b[i as int] + carry, p);
            assert((a[i as int] + b[i as int] + carry) * p == a[i as int] * p + b[i as int] * p
                + carry * p) by (nonlinear_arith);
        }
        carry = hi;
        i = i + 1;
    }
    proof {
        assert(a@.take(n as int) =~= a@);
        assert(b@.take(n as int) =~= b@);
    }
    (out, carry == 1)
}

/// Limb-wise subtraction with borrow: `out == a - b + borrow * radix_pow(n)`,
/// and the borrow is set exactly when `a < b`.
pub fn sub_limbs(a: &Vec<u32>, b: &Vec<u32>) -> (r: (Vec<u32>, bool))
    requires
        a@.len() == b@.len(),
    ensures
        r.0@.len() == a@.len(),
        r.1 == (limbs_val(a@) < limbs_val(b@)),
        limbs_val(r.0@) == limbs_val(a@) - limbs_val(b@) + (if r.1 {
            radix_pow(a@.len())
        } else {
            0
        }),
{
    let n = a.len();
    let mut out: Vec<u32> = Vec::with_capacity(n);
    let mut borrow: u64 = 0;
    let mut i: usize = 0;
    while i < n
        invariant
            n == a@.len(),
            n == b@.len(),
            i <= n,
            out@.len() == i,
            borrow <= 1,
            limbs_val(out@) == limbs_val(a@.take(i as int)) - limbs_val(b@.take(i as int))
                + borrow * radix_pow(i as nat),
        decreases n - i,
    {
        let d: u64 = a[i] as u64 + 0x1_0000_0000 - b[i] as u64 - borrow;
        let lo: u32 = (d % 0x1_0000_0000) as u32;
        let hi: u64 = d / 0x1_0000_0000;
        let ghost old_out = out@;
        out.push(lo);
        proof {
            lemma_take_succ(a@, i as int);
            lemma_take_succ(b@, i as int);
            assert(out@.drop_last() =~= old_out);
            let p = radix_pow(i as nat) as int;
            let x = a[i as int] - b[i as int] - borrow;
            assert(radix_pow((i + 1) as nat) == limb_radix() * radix_pow(i as nat));
            lemma_digit_step(lo as int, hi - 1, x, p);
            assert((a[i as int] - b[i as int] - borrow) * p == a[i as int] * p - b[i as int] * p
                - borrow * p) by (nonlinear_arith);
            assert(hi == 0 || hi == 1);
            assert((1 - hi) * (limb_radix() * p) == -((hi - 1) * (limb_radix() * p)))
                by (nonlinear_arith);
        }
        borrow = 1 - hi;
        i = i + 1;
    }
    proof {
        assert(a@.take(n as int) =~= a@);
        assert(b@.take(n as int) =~= b@);
        lemma_limbs_val_bound(out@);
        lemma_limbs_val_bound(a@);
        lemma_limbs_val_bound(b@);
    }
    (out, borrow == 1)
}

} // verus!
