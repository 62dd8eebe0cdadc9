//! Arbitrary-precision unsigned integers, held as little-endian base-2^32
//! digit vectors. The digit arithmetic itself is delegated to num-bigint
//! through trusted wrappers that state the exact value of each result; all
//! reasoning above them is over the mathematical value of the digits.
use crate::modmath::{lemma_pow_mod_bound, pow_mod};
use vstd::prelude::*;
use vstd::arithmetic::div_mod::lemma_fundamental_div_mod_converse;

verus! {

/// The value of a little-endian sequence of base-2^32 digits.
pub open spec fn limbs_val(s: Seq<u32>) -> nat
    decreases s.len(),
{
    if s.len() == 0 {
        0
    } else {
        s[0] as nat + 0x1_0000_0000 * limbs_val(s.skip(1))
    }
}

/// A digit sequence is canonical when its most significant digit, if any, is
/// not zero.
pub open spec fn limbs_wf(s: Seq<u32>) -> bool {
    s.len() == 0 || s.last() != 0
}

/// A canonical non-empty digit sequence denotes a positive value.
pub proof fn lemma_limbs_val_pos(s: Seq<u32>)
    requires
        limbs_wf(s),
        s.len() > 0,
    ensures
        limbs_val(s) > 0,
    decreases s.len(),
{
    if s.len() == 1 {
        assert(s[0] == s.last());
    } else {
        assert(s.skip(1).last() == s.last());
        assert(s.skip(1).len() == s.len() - 1);
        lemma_limbs_val_pos(s.skip(1));
    }
}

/// The lowest digit is the value reduced modulo the base, and the remaining
/// digits are the value divided by the base.
pub proof fn lemma_limbs_val_head(s: Seq<u32>)
    requires
        s.len() > 0,
    ensures
        limbs_val(s) % 0x1_0000_0000 == s[0] as nat,
        limbs_val(s) / 0x1_0000_0000 == limbs_val(s.skip(1)),
{
    lemma_fundamental_div_mod_converse(
        limbs_val(s) as int,
        0x1_0000_0000,
        limbs_val(s.skip(1)) as int,
        s[0] as int,
    );
}

/// Two canonical digit sequences with the same value are the same sequence.
pub proof fn lemma_limbs_val_injective(a: Seq<u32>, b: Seq<u32>)
    requires
        limbs_wf(a),
        limbs_wf(b),
        limbs_val(a) == limbs_val(b),
    ensures
        a == b,
    decreases a.len(),
{
    if a.len() == 0 {
        if b.len() > 0 {
            lemma_limbs_val_pos(b);
        }
        assert(a =~= b);
    } else if b.len() == 0 {
        lemma_limbs_val_pos(a);
    } else {
        lemma_limbs_val_head(a);
        lemma_limbs_val_head(b);
        assert(a[0] == b[0]);
        if a.len() > 1 {
            assert(a.skip(1).last() == a.last());
        }
        if b.len() > 1 {
            assert(b.skip(1).last() == b.last());
        }
        lemma_limbs_val_injective(a.skip(1), b.skip(1));
        assert(a =~= b) by {
            assert(a.skip(1).len() == b.skip(1).len());
            assert forall|q: int| 0 <= q < a.len() implies a[q] == b[q] by {
                if q > 0 {
                    assert(a[q] == a.skip(1)[q - 1]);
                    assert(b[q] == b.skip(1)[q - 1]);
                }
            }
        }
    }
}

/// Dropping a zero top digit does not change the value.
pub proof fn lemma_limbs_val_drop_zero(s: Seq<u32>)
    requires
        s.len() > 0,
        s.last() == 0,
    ensures
        limbs_val(s.drop_last()) == limbs_val(s),
    decreases s.len(),
{
    assert(limbs_val(Seq::<u32>::empty()) == 0);
    if s.len() == 1 {
        assert(s.drop_last() =~= Seq::<u32>::empty());
        assert(s.skip(1) =~= Seq::<u32>::empty());
        assert(s[0] == s.last());
    } else {
        assert(s.skip(1).last() == s.last());
        assert(s.skip(1).len() == s.len() - 1);
        lemma_limbs_val_drop_zero(s.skip(1));
        assert(s.skip(1).drop_last() =~= s.drop_last().skip(1));
        assert(s.drop_last()[0] == s[0]);
        assert(s.drop_last().len() > 0);
    }
}

/// An unsigned integer of arbitrary precision, stored as canonical
/// little-endian base-2^32 digits.
#[derive(Debug)]
pub struct Uint {
    limbs: Vec<u32>,
}

impl View for Uint {
    type V = nat;

    closed spec fn view(&self) -> nat {
        limbs_val(self.limbs@)
    }
}

/// Relies on num_bigint::BigUint::from_slice and to_u32_digits, which read
/// and write a number as base-2^32 digits ordered least significant first,
/// and on the `*` operator of BigUint, which returns the exact product.
#[verifier::external_body]
fn raw_mul(a: &Vec<u32>, b: &Vec<u32>) -> (r: Vec<u32>)
    ensures
        limbs_val(r@) == limbs_val(a@) * limbs_val(b@),
{
    let x = num_bigint::BigUint::from_slice(a);
    let y = num_bigint::BigUint::from_slice(b);
    (x * y).to_u32_digits()
}

/// Relies on the `+` operator of num_bigint::BigUint, which returns the
/// exact sum; digits cross the boundary via from_slice / to_u32_digits.
#[verifier::external_body]
fn raw_add(a: &Vec<u32>, b: &Vec<u32>) -> (r: Vec<u32>)
    ensures
        limbs_val(r@) == limbs_val(a@) + limbs_val(b@),
{
    let x = num_bigint::BigUint::from_slice(a);
    let y = num_bigint::BigUint::from_slice(b);
    (x + y).to_u32_digits()
}

/// Relies on the `-` operator of num_bigint::BigUint, which returns the
/// exact difference and panics when the subtrahend is larger; the
/// precondition rules that out.
#[verifier::external_body]
fn raw_sub(a: &Vec<u32>, b: &Vec<u32>) -> (r: Vec<u32>)
    requires
        limbs_val(b@) <= limbs_val(a@),
    ensures
        limbs_val(r@) == limbs_val(a@) - limbs_val(b@),
{
    let x = num_bigint::BigUint::from_slice(a);
    let y = num_bigint::BigUint::from_slice(b);
    (x - y).to_u32_digits()
}

/// Relies on the `%` operator of num_bigint::BigUint, which returns the
/// exact remainder and panics on a zero divisor; the precondition rules
/// that out.
#[verifier::external_body]
fn raw_rem(a: &Vec<u32>, m: &Vec<u32>) -> (r: Vec<u32>)
    requires
        limbs_val(m@) > 0,
    ensures
        limbs_val(r@) == limbs_val(a@) % limbs_val(m@),
{
    let x = num_bigint::BigUint::from_slice(a);
    let y = num_bigint::BigUint::from_slice(m);
    (x % y).to_u32_digits()
}

/// Relies on num_bigint::BigUint::modpow, documented to return
/// `(self ^ exponent) % modulus` and to panic only on a zero modulus; the
/// precondition rules that out.
#[verifier::external_body]
fn raw_modpow(b: &Vec<u32>, e: &Vec<u32>, m: &Vec<u32>) -> (r: Vec<u32>)
    requires
        limbs_val(m@) > 0,
    ensures
        limbs_val(r@) == pow_mod(limbs_val(b@), limbs_val(e@), limbs_val(m@)),
{
    let bb = num_bigint::BigUint::from_slice(b);
    let eb = num_bigint::BigUint::from_slice(e);
    let mb = num_bigint::BigUint::from_slice(m);
    bb.modpow(&eb, &mb).to_u32_digits()
}

/// Relies on num_bigint::BigUint::sqrt, documented to return the truncated
/// principal square root.
#[verifier::external_body]
fn raw_sqrt(a: &Vec<u32>) -> (r: Vec<u32>)
    ensures
        limbs_val(r@) * limbs_val(r@) <= limbs_val(a@),
        limbs_val(a@) < (limbs_val(r@) + 1) * (limbs_val(r@) + 1),
{
    num_bigint::BigUint::from_slice(a).sqrt().to_u32_digits()
}

/// Relies on num_traits::ToPrimitive::to_u64 for BigUint, which returns the
/// value when it fits in a u64 and None otherwise.
#[verifier::external_body]
fn raw_to_u64(a: &Vec<u32>) -> (r: Option<u64>)
    ensures
        match r {
            Some(v) => v as nat == limbs_val(a@),
            None => limbs_val(a@) > u64::MAX,
        },
{
    num_traits::ToPrimitive::to_u64(&num_bigint::BigUint::from_slice(a))
}

impl Uint {
    /// Canonical form: no zero top digit.
    pub closed spec fn wf(&self) -> bool {
        limbs_wf(self.limbs@)
    }

    /// Digit-wise equality, the meaning of `==` on this type.
    pub closed spec fn digits_eq(&self, other: &Uint) -> bool {
        self.limbs@ == other.limbs@
    }

    /// Builds the number with the given little-endian base-2^32 digits,
    /// canonicalising them.
    pub fn from_limbs(limbs: Vec<u32>) -> (r: Uint)
        ensures
            r.wf(),
            r@ == limbs_val(limbs@),
    {
        let ghost orig = limbs@;
        let mut v = limbs;
        while v.len() > 0 && v[v.len() - 1] == 0
            invariant
                limbs_val(v@) == limbs_val(orig),
            decreases v.len(),
        {
            proof {
                lemma_limbs_val_drop_zero(v@);
            }
            v.pop();
        }
        Uint { limbs: v }
    }

    /// Builds the number for a machine integer.
    pub fn from_u64(x: u64) -> (r: Uint)
        ensures
            r.wf(),
            r@ == x as nat,
    {
        let lo = #[verifier::truncate] ((x & 0xFFFF_FFFF) as u32);
        let hi = #[verifier::truncate] ((x >> 32) as u32);
        proof {
            assert((x & 0xFFFF_FFFF) <= 0xFFFF_FFFF && (x >> 32) <= 0xFFFF_FFFF && x == (x
                & 0xFFFF_FFFF) + 0x1_0000_0000 * (x >> 32)) by (bit_vector);
        }
        let digits = vec![lo, hi];
        let ghost d = digits@;
        let r = Uint::from_limbs(digits);
        proof {
            assert(limbs_val(Seq::<u32>::empty()) == 0);
            assert(d.skip(1).skip(1) =~= Seq::<u32>::empty());
            assert(d.skip(1).len() == 1 && d.skip(1)[0] == hi);
            assert(limbs_val(d.skip(1)) == hi as nat + 0x1_0000_0000 * limbs_val(
                d.skip(1).skip(1),
            ));
            assert(limbs_val(d) == lo as nat + 0x1_0000_0000 * (hi as nat));
        }
        r
    }

    /// The little-endian base-2^32 digits of the value.
    pub fn digits(&self) -> (r: Vec<u32>)
        ensures
            limbs_val(r@) == self@,
    {
        let mut v: Vec<u32> = Vec::new();
        let mut idx: usize = 0;
        while idx < self.limbs.len()
            invariant
                idx <= self.limbs.len(),
                v@ == self.limbs@.take(idx as int),
            decreases self.limbs.len() - idx,
        {
            v.push(self.limbs[idx]);
            proof {
                assert(v@ =~= self.limbs@.take(idx as int + 1));
            }
            idx = idx + 1;
        }
        proof {
            assert(v@ =~= self.limbs@);
        }
        v
    }

    /// A copy with the same value.
    pub fn duplicate(&self) -> (r: Uint)
        ensures
            r@ == self@,
            r.wf() == self.wf(),
    {
        let mut v: Vec<u32> = Vec::new();
        let mut idx: usize = 0;
        while idx < self.limbs.len()
            invariant
                idx <= self.limbs.len(),
                v@ == self.limbs@.take(idx as int),
            decreases self.limbs.len() - idx,
        {
            v.push(self.limbs[idx]);
            proof {
                assert(v@ =~= self.limbs@.take(idx as int + 1));
            }
            idx = idx + 1;
        }
        proof {
            assert(v@ =~= self.limbs@);
        }
        Uint { limbs: v }
    }

    /// The value reduced modulo 2^32: the lowest digit.
    pub fn low_digit(&self) -> (r: u32)
        ensures
            r as nat == self@ % 0x1_0000_0000,
    {
        if self.limbs.len() > 0 {
            proof {
                lemma_limbs_val_head(self.limbs@);
            }
            self.limbs[0]
        } else {
            0
        }
    }

    /// Value equality; canonical digits make it digit-wise.
    pub fn same_value(&self, other: &Uint) -> (r: bool)
        requires
            self.wf(),
            other.wf(),
        ensures
            r == (self@ == other@),
    {
        proof {
            if self@ == other@ {
                lemma_limbs_val_injective(self.limbs@, other.limbs@);
            }
        }
        if self.limbs.len() != other.limbs.len() {
            return false;
        }
        let mut idx: usize = 0;
        while idx < self.limbs.len()
            invariant
                idx <= self.limbs.len(),
                self.limbs.len() == other.limbs.len(),
                self.wf(),
                other.wf(),
                forall|q: int| 0 <= q < idx ==> self.limbs@[q] == other.limbs@[q],
            decreases self.limbs.len() - idx,
        {
            if self.limbs[idx] != other.limbs[idx] {
                proof {
                    assert(self.limbs@ != other.limbs@);
                    if self@ == other@ {
                        lemma_limbs_val_injective(self.limbs@, other.limbs@);
                    }
                }
                return false;
            }
            idx = idx + 1;
        }
        proof {
            assert(self.limbs@ =~= other.limbs@);
        }
        true
    }

    /// Exact product.
    pub fn times(&self, other: &Uint) -> (r: Uint)
        ensures
            r.wf(),
            r@ == self@ * other@,
    {
        Uint::from_limbs(raw_mul(&self.limbs, &other.limbs))
    }

    /// Exact sum.
    pub fn plus(&self, other: &Uint) -> (r: Uint)
        ensures
            r.wf(),
            r@ == self@ + other@,
    {
        Uint::from_limbs(raw_add(&self.limbs, &other.limbs))
    }

    /// Exact difference; the subtrahend must not exceed the value.
    pub fn minus(&self, other: &Uint) -> (r: Uint)
        requires
            other@ <= self@,
        ensures
            r.wf(),
            r@ == self@ - other@,
    {
        Uint::from_limbs(raw_sub(&self.limbs, &other.limbs))
    }

    /// Remainder of division by a positive modulus.
    pub fn modulo(&self, m: &Uint) -> (r: Uint)
        requires
            m@ > 0,
        ensures
            r.wf(),
            r@ == self@ % m@,
    {
        Uint::from_limbs(raw_rem(&self.limbs, &m.limbs))
    }

    /// Modular exponentiation: `self ^ e` reduced modulo `m`.
    pub fn modpow(&self, e: &Uint, m: &Uint) -> (r: Uint)
        requires
            m@ > 0,
        ensures
            r.wf(),
            r@ == pow_mod(self@, e@, m@),
            r@ < m@,
    {
        let r = Uint::from_limbs(raw_modpow(&self.limbs, &e.limbs, &m.limbs));
        proof {
            lemma_pow_mod_bound(self@, e@, m@);
        }
        r
    }

    /// Integer square root, rounded down.
    pub fn sqrt_floor(&self) -> (r: Uint)
        ensures
            r.wf(),
            r@ * r@ <= self@,
            self@ < (r@ + 1) * (r@ + 1),
    {
        Uint::from_limbs(raw_sqrt(&self.limbs))
    }

    /// The value as a machine integer, when it fits.
    pub fn to_u64(&self) -> (r: Option<u64>)
        ensures
            match r {
                Some(v) => v as nat == self@,
                None => self@ > u64::MAX,
            },
    {
        raw_to_u64(&self.limbs)
    }
}

impl PartialEq for Uint {
    /// Digit-wise comparison; on canonical digits this is value equality.
    fn eq(&self, other: &Uint) -> (r: bool) {
        if self.limbs.len() != other.limbs.len() {
            return false;
        }
        let mut idx: usize = 0;
        while idx < self.limbs.len()
            invariant
                idx <= self.limbs.len(),
                self.limbs.len() == other.limbs.len(),
                forall|q: int| 0 <= q < idx ==> self.limbs@[q] == other.limbs@[q],
            decreases self.limbs.len() - idx,
        {
            if self.limbs[idx] != other.limbs[idx] {
                proof {
                    assert(self.limbs@ != other.limbs@);
                }
                return false;
            }
            idx = idx + 1;
        }
        proof {
            assert(self.limbs@ =~= other.limbs@);
        }
        true
    }
}

impl vstd::std_specs::cmp::PartialEqSpecImpl for Uint {
    open spec fn obeys_eq_spec() -> bool {
        true
    }

    open spec fn eq_spec(&self, other: &Uint) -> bool {
        self.digits_eq(other)
    }
}

} // verus!
