//! Big-endian byte strings: the validating decoder that admits operands of
//! at most `MAX_BITS` bits, and the canonical minimal encoder.
use crate::bounded::{capacity, BoundedUint, LIMBS};
use crate::limbs::{lemma_limbs_val_front, limb_radix, limbs_val, radix_pow};
use vstd::prelude::*;

verus! {

/// Number of bytes in a full-width operand.
pub const OPERAND_BYTES: usize = 384;

/// The number that a big-endian byte string denotes.
pub open spec fn be_val(s: Seq<u8>) -> nat
    decreases s.len(),
{
    if s.len() == 0 {
        0
    } else {
        (be_val(s.drop_last()) * 256 + s.last()) as nat
    }
}

/// 256 raised to the power `n`.
pub open spec fn byte_pow(n: nat) -> nat
    decreases n,
{
    if n == 0 {
        1
    } else {
        256 * byte_pow((n - 1) as nat)
    }
}

/// A byte string is canonical when it has no leading zero byte; zero is
/// the empty string.
pub open spec fn is_canonical(s: Seq<u8>) -> bool {
    s.len() == 0 || s[0] != 0
}

/// The canonical encoding of `n`: big-endian, shortest, empty for zero.
pub open spec fn canonical_bytes(n: nat) -> Seq<u8>
    decreases n,
{
    if n == 0 {
        Seq::empty()
    } else {
        canonical_bytes(n / 256).push((n % 256) as u8)
    }
}

/// A canonical string is the canonical encoding of its own value.
pub proof fn lemma_canonical_unique(s: Seq<u8>)
    requires
        is_canonical(s),
    ensures
        s == canonical_bytes(be_val(s)),
    decreases s.len(),
{
    if s.len() > 0 {
        let init = s.drop_last();
        let n = be_val(s);
        assert(n / 256 == be_val(init));
        assert(n % 256 == s.last());
        if init.len() > 0 {
            assert(init[0] == s[0]);
            lemma_be_lower(init);
            lemma_canonical_unique(init);
        } else {
            assert(be_val(init) == 0);
            assert(init =~= Seq::<u8>::empty());
        }
        assert(n > 0);
        assert(canonical_bytes(n) == canonical_bytes(n / 256).push((n % 256) as u8));
        assert(s =~= init.push(s.last()));
    } else {
        assert(s =~= Seq::<u8>::empty());
    }
}

/// The canonical encoding is canonical and denotes its number.
pub proof fn lemma_canonical_round_trip(n: nat)
    ensures
        be_val(canonical_bytes(n)) == n,
        is_canonical(canonical_bytes(n)),
    decreases n,
{
    if n > 0 {
        let c = canonical_bytes(n);
        lemma_canonical_round_trip(n / 256);
        assert(c.drop_last() == canonical_bytes(n / 256));
        if n / 256 > 0 {
            assert(canonical_bytes(n / 256).len() > 0);
            assert(c[0] == canonical_bytes(n / 256)[0]);
        } else {
            assert(c.len() == 1);
            assert(c[0] == n % 256);
        }
    }
}

proof fn lemma_drop_zero(s: Seq<u8>)
    requires
        s.len() > 0,
        s[0] == 0,
    ensures
        be_val(s) == be_val(s.drop_first()),
    decreases s.len(),
{
    if s.len() > 1 {
        lemma_drop_zero(s.drop_last());
        assert(s.drop_first().drop_last() =~= s.drop_last().drop_first());
        assert(s.drop_first().last() == s.last());
        assert(be_val(s.drop_first()) == be_val(s.drop_first().drop_last()) * 256 + s.last());
    } else {
        assert(s.drop_last().len() == 0);
        assert(s.drop_first().len() == 0);
        assert(be_val(s) == be_val(s.drop_last()) * 256 + s[0]);
    }
}

/// Leading zero bytes do not change the value.
pub proof fn lemma_strip_zeros(s: Seq<u8>, k: int)
    requires
        0 <= k <= s.len(),
        forall|j: int| 0 <= j < k ==> s[j] == 0,
    ensures
        be_val(s) == be_val(s.skip(k)),
    decreases k,
{
    if k > 0 {
        lemma_drop_zero(s);
        lemma_strip_zeros(s.drop_first(), k - 1);
        assert(s.drop_first().skip(k - 1) =~= s.skip(k));
    } else {
        assert(s.skip(0) =~= s);
    }
}

/// Four more bytes shift the value by one limb.
proof fn lemma_append_word(p: Seq<u8>, s: Seq<u8>)
    requires
        s.len() == p.len() + 4,
        s.take(p.len() as int) == p,
    ensures
        be_val(s) == be_val(p) * limb_radix() + s[p.len() as int] * 0x100_0000 + s[p.len() + 1int]
            * 0x1_0000 + s[p.len() + 2int] * 0x100 + s[p.len() + 3int],
{
    let n = p.len() as int;
    let s3 = s.drop_last();
    let s2 = s3.drop_last();
    let s1 = s2.drop_last();
    assert(s1.drop_last() =~= p);
    assert(be_val(s1) == be_val(p) * 256 + s[n]);
    assert(be_val(s2) == be_val(s1) * 256 + s[n + 1]);
    assert(be_val(s3) == be_val(s2) * 256 + s[n + 2]);
    assert(be_val(s) == be_val(s3) * 256 + s[n + 3]);
}

/// A string whose first byte is not zero denotes at least `256^(len-1)`.
proof fn lemma_be_lower(s: Seq<u8>)
    requires
        s.len() > 0,
        s[0] != 0,
    ensures
        be_val(s) >= byte_pow((s.len() - 1) as nat),
    decreases s.len(),
{
    if s.len() > 1 {
        lemma_be_lower(s.drop_last());
    } else {
        assert(s.drop_last().len() == 0);
    }
}

proof fn lemma_byte_pow_mono(a: nat, b: nat)
    requires
        a <= b,
    ensures
        byte_pow(a) <= byte_pow(b),
    decreases b,
{
    if a < b {
        lemma_byte_pow_mono(a, (b - 1) as nat);
    }
}

proof fn lemma_radix_is_byte_pow(n: nat)
    ensures
        radix_pow(n) == byte_pow(4 * n),
    decreases n,
{
    if n > 0 {
        lemma_radix_is_byte_pow((n - 1) as nat);
        assert(byte_pow(4 * n) == 256 * byte_pow((4 * n - 1) as nat));
        assert(byte_pow((4 * n - 1) as nat) == 256 * byte_pow((4 * n - 2) as nat));
        assert(byte_pow((4 * n - 2) as nat) == 256 * byte_pow((4 * n - 3) as nat));
        assert(byte_pow((4 * n - 3) as nat) == 256 * byte_pow((4 * (n - 1)) as nat));
    }
}

/// The bytes of a 32-bit word, most significant first.
proof fn lemma_word_bytes(w: u32)
    ensures
        w == ((w >> 24u32) as u8) * 0x100_0000 + (((w >> 16u32) & 0xffu32) as u8) * 0x1_0000 + ((
        (w >> 8u32) & 0xffu32) as u8) * 0x100 + ((w & 0xffu32) as u8),
{
    assert(w == ((w >> 24u32) as u8) * 0x100_0000 + (((w >> 16u32) & 0xffu32) as u8) * 0x1_0000 + ((
    (w >> 8u32) & 0xffu32) as u8) * 0x100 + ((w & 0xffu32) as u8)) by (bit_vector);
}

/// Index of the first non-zero byte, or the length when there is none.
fn leading_zeros(bytes: &[u8]) -> (k: usize)
    ensures
        k <= bytes@.len(),
        forall|j: int| 0 <= j < k ==> bytes@[j] == 0,
        k < bytes@.len() ==> bytes@[k as int] != 0,
{
    let n = bytes.len();
    let mut k: usize = 0;
    while k < n && bytes[k] == 0
        invariant
            n == bytes@.len(),
            k <= n,
            forall|j: int| 0 <= j < k ==> bytes@[j] == 0,
        decreases n - k,
    {
        k = k + 1;
    }
    k
}

impl BoundedUint {
    /// Reads a big-endian byte string of any length.  The result is `None`
    /// exactly when the value needs more than `MAX_BITS` bits; leading
    /// zero bytes are allowed.
    pub fn from_be_bytes(bytes: &[u8]) -> (r: Option<BoundedUint>)
        ensures
            r.is_some() <==> be_val(bytes@) < capacity(),
            r matches Some(x) ==> x.wf() && x@ == be_val(bytes@),
    {
        let n = bytes.len();
        let k = leading_zeros(bytes);
        proof {
            lemma_strip_zeros(bytes@, k as int);
            lemma_radix_is_byte_pow(LIMBS as nat);
        }
        if n - k > OPERAND_BYTES {
            proof {
                lemma_be_lower(bytes@.skip(k as int));
                lemma_byte_pow_mono(OPERAND_BYTES as nat, (n - k - 1) as nat);
            }
            return None;
        }
        let pad = OPERAND_BYTES - (n - k);
        let mut padded: Vec<u8> = Vec::with_capacity(OPERAND_BYTES);
        let mut j: usize = 0;
        while j < pad
            invariant
                j <= pad,
                padded@.len() == j,
                forall|t: int| 0 <= t < j ==> padded@[t] == 0,
            decreases pad - j,
        {
            padded.push(0u8);
            j = j + 1;
        }
        let mut j: usize = k;
        while j < n
            invariant
                n == bytes@.len(),
                k <= j <= n,
                pad + (n - k) == OPERAND_BYTES,
                padded@.len() == pad + (j - k),
                forall|t: int| 0 <= t < pad ==> padded@[t] == 0,
                padded@.skip(pad as int) =~= bytes@.subrange(k as int, j as int),
            decreases n - j,
        {
            padded.push(bytes[j]);
            j = j + 1;
            assert(padded@.skip(pad as int) =~= bytes@.subrange(k as int, j as int));
        }
        proof {
            lemma_strip_zeros(padded@, pad as int);
            assert(bytes@.subrange(k as int, n as int) =~= bytes@.skip(k as int));
        }
        let mut limbs: Vec<u32> = vec![0u32; LIMBS];
        let mut i: usize = LIMBS;
        proof {
            assert(limbs@.skip(LIMBS as int).len() == 0);
            assert(padded@.take(0).len() == 0);
        }
        while i > 0
            invariant
                padded@.len() == OPERAND_BYTES,
                limbs@.len() == LIMBS,
                i <= LIMBS,
                be_val(padded@.take(4 * (LIMBS - i))) == limbs_val(limbs@.skip(i as int)),
            decreases i,
        {
            let at: usize = 4 * (LIMBS - i);
            let w: u32 = (padded[at] as u32) * 0x100_0000 + (padded[at + 1] as u32) * 0x1_0000
                + (padded[at + 2] as u32) * 0x100 + (padded[at + 3] as u32);
            let ghost old_limbs = limbs@;
            limbs.set(i - 1, w);
            proof {
                let s = padded@.take(at + 4);
                assert(s.take(at as int) =~= padded@.take(at as int));
                lemma_append_word(padded@.take(at as int), s);
                let t = limbs@.skip(i - 1);
                lemma_limbs_val_front(t);
                assert(t.drop_first() =~= old_limbs.skip(i as int));
                assert(4 * (LIMBS - (i - 1)) == at + 4);
            }
            i = i - 1;
        }
        proof {
            assert(padded@.take(OPERAND_BYTES as int) =~= padded@);
            assert(limbs@.skip(0) =~= limbs@);
        }
        let x = BoundedUint::from_limbs(limbs);
        proof {
            x.lemma_below_capacity();
        }
        Some(x)
    }

    /// The canonical big-endian encoding: no leading zero byte, and zero
    /// is the empty string.
    pub fn to_be_bytes(&self) -> (r: Vec<u8>)
        requires
            self.wf(),
        ensures
            be_val(r@) == self@,
            is_canonical(r@),
            r@ == canonical_bytes(self@),
    {
        let l = self.limbs();
        let mut full: Vec<u8> = Vec::with_capacity(OPERAND_BYTES);
        let mut i: usize = LIMBS;
        proof {
            assert(l@.skip(LIMBS as int).len() == 0);
        }
        while i > 0
            invariant
                l@.len() == LIMBS,
                limbs_val(l@) == self@,
                i <= LIMBS,
                full@.len() == 4 * (LIMBS - i),
                be_val(full@) == limbs_val(l@.skip(i as int)),
            decreases i,
        {
            let w: u32 = l[i - 1];
            let ghost before = full@;
            full.push((w >> 24u32) as u8);
            full.push(((w >> 16u32) & 0xffu32) as u8);
            full.push(((w >> 8u32) & 0xffu32) as u8);
            full.push((w & 0xffu32) as u8);
            proof {
                assert(full@.take(before.len() as int) =~= before);
                lemma_append_word(before, full@);
                lemma_word_bytes(w);
                let t = l@.skip(i - 1);
                lemma_limbs_val_front(t);
                assert(t.drop_first() =~= l@.skip(i as int));
            }
            i = i - 1;
        }
        proof {
            assert(l@.skip(0) =~= l@);
        }
        let k = leading_zeros(full.as_slice());
        let n = full.len();
        let mut out: Vec<u8> = Vec::with_capacity(n - k);
        let mut j: usize = k;
        while j < n
            invariant
                n == full@.len(),
                k <= j <= n,
                out@ =~= full@.subrange(k as int, j as int),
            decreases n - j,
        {
            out.push(full[j]);
            j = j + 1;
        }
        proof {
            lemma_strip_zeros(full@, k as int);
            assert(full@.subrange(k as int, n as int) =~= full@.skip(k as int));
            lemma_canonical_unique(out@);
        }
        out
    }
}

} // verus!
