//! Arbitrary-precision natural numbers stored as little-endian base-2^32 limbs.
use vstd::prelude::*;

verus! {

/// The radix of one limb.
pub open spec fn limb_base() -> int {
    0x1_0000_0000
}

/// `limb_base()` raised to the power `e`.
pub open spec fn limb_pow(e: nat) -> int
    decreases e,
{
    if e == 0 {
        1
    } else {
        limb_base() * limb_pow((e - 1) as nat)
    }
}

/// The number that a little-endian limb sequence denotes.
pub open spec fn limbs_value(s: Seq<u32>) -> int
    decreases s.len(),
{
    if s.len() == 0 {
        0
    } else {
        s[0] + limb_base() * limbs_value(s.drop_first())
    }
}

/// Appending a limb on the most significant side adds it at its weight.
proof fn lemma_value_push(s: Seq<u32>, d: u32)
    ensures
        limbs_value(s.push(d)) == limbs_value(s) + d * limb_pow(s.len()),
    decreases s.len(),
{
    if s.len() == 0 {
        assert(s.push(d).drop_first() =~= Seq::<u32>::empty());
        assert(limbs_value(Seq::<u32>::empty()) == 0);
    } else {
        let t = s.drop_first();
        assert(s.push(d).drop_first() =~= t.push(d));
        lemma_value_push(t, d);
        let v = limbs_value(t);
        let p = limb_pow(t.len());
        assert(limb_base() * (v + d * p) == limb_base() * v + d * (limb_base() * p))
            by (nonlinear_arith);
    }
}

/// Value bounds: non-negative and below the weight of the next limb.
proof fn lemma_value_bounds(s: Seq<u32>)
    ensures
        0 <= limbs_value(s) < limb_pow(s.len()),
    decreases s.len(),
{
    if s.len() > 0 {
        let t = s.drop_first();
        lemma_value_bounds(t);
        let v = limbs_value(t);
        let p = limb_pow(t.len());
        let d = s[0] as int;
        assert(0 <= d + limb_base() * v < limb_base() * p) by (nonlinear_arith)
            requires
                0 <= v < p,
                0 <= d < limb_base(),
                limb_base() > 0,
        ;
    }
}

/// The value of the first `i` limbs of `s`, counting limbs past the end as zero.
pub open spec fn prefix_value(s: Seq<u32>, i: int) -> int {
    if i <= s.len() {
        limbs_value(s.subrange(0, i))
    } else {
        limbs_value(s)
    }
}

/// The `i`-th limb of `s`, zero past the end.
pub open spec fn limb_at(s: Seq<u32>, i: int) -> u32 {
    if 0 <= i < s.len() {
        s[i]
    } else {
        0
    }
}

proof fn lemma_prefix_step(s: Seq<u32>, i: nat)
    ensures
        prefix_value(s, i + 1int) == prefix_value(s, i as int) + limb_at(s, i as int) * limb_pow(i),
{
    if i < s.len() {
        assert(s.subrange(0, i + 1int) =~= s.subrange(0, i as int).push(s[i as int]));
        lemma_value_push(s.subrange(0, i as int), s[i as int]);
        assert(limb_at(s, i as int) == s[i as int]);
    } else {
        lemma_prefix_full(s);
        assert(limb_at(s, i as int) == 0);
        assert(prefix_value(s, i + 1int) == limbs_value(s));
        assert(prefix_value(s, i as int) == limbs_value(s));
    }
}

proof fn lemma_prefix_full(s: Seq<u32>)
    ensures
        prefix_value(s, s.len() as int) == limbs_value(s),
{
    assert(s.subrange(0, s.len() as int) =~= s);
}

proof fn lemma_prefix_zero(s: Seq<u32>)
    ensures
        prefix_value(s, 0) == 0,
{
    assert(s.subrange(0, 0) =~= Seq::<u32>::empty());
}

/// A natural number of any size.
pub struct BigNat {
    limbs: Vec<u32>,
}

impl BigNat {
    /// The number this value denotes.
    pub closed spec fn value(&self) -> nat {
        limbs_value(self.limbs@) as nat
    }

    proof fn lemma_value(&self)
        ensures
            self.value() == limbs_value(self.limbs@),
    {
        lemma_value_bounds(self.limbs@);
    }

    fn from_limbs(limbs: Vec<u32>) -> (r: BigNat)
        ensures
            r.value() == limbs_value(limbs@),
    {
        let r = BigNat { limbs };
        proof {
            r.lemma_value();
        }
        r
    }

    /// The number `v`.
    pub fn from_u32(v: u32) -> (r: BigNat)
        ensures
            r.value() == v,
    {
        let limbs = vec![v];
        proof {
            assert(limbs@.drop_first() =~= Seq::<u32>::empty());
            assert(limbs_value(Seq::<u32>::empty()) == 0);
        }
        BigNat::from_limbs(limbs)
    }

    /// The product of this number and `f`.
    pub fn mul_u32(&self, f: u32) -> (r: BigNat)
        ensures
            r.value() == self.value() * f,
    {
        let a = &self.limbs;
        let mut res: Vec<u32> = Vec::new();
        let mut carry: u64 = 0;
        let mut i: usize = 0;
        proof {
            lemma_prefix_zero(a@);
        }
        while i < a.len()
            invariant
                i <= a@.len(),
                res@.len() == i,
                carry < limb_base(),
                limbs_value(res@) + carry * limb_pow(i as nat) == prefix_value(a@, i as int) * f,
            decreases a@.len() - i,
        {
            let d = a[i];
            assert((d as u64) * (f as u64) + carry <= 0xffff_ffff_ffff_ffff) by (nonlinear_arith)
                requires
                    d < 0x1_0000_0000,
                    f < 0x1_0000_0000,
                    carry < 0x1_0000_0000,
            ;
            let t: u64 = (d as u64) * (f as u64) + carry;
            let lo: u64 = t % 0x1_0000_0000;
            let hi: u64 = t / 0x1_0000_0000;
            proof {
                let p = limb_pow(i as nat);
                lemma_value_push(res@, lo as u32);
                lemma_prefix_step(a@, i as nat);
                lemma_mul_step(limbs_value(res@), carry as int, p, d as int, f as int, lo as int, hi as int, prefix_value(a@, i as int));
            }
            res.push(lo as u32);
            carry = hi;
            i = i + 1;
        }
        proof {
            lemma_value_push(res@, carry as u32);
            lemma_prefix_full(a@);
        }
        res.push(carry as u32);
        proof {
            self.lemma_value();
        }
        BigNat::from_limbs(res)
    }

    /// The number zero.
    pub fn zero() -> (r: BigNat)
        ensures
            r.value() == 0,
    {
        BigNat::from_limbs(Vec::new())
    }

    /// The limbs of this number, least significant first, each of weight a power of 2^32.
    pub fn limbs(&self) -> (r: Vec<u32>)
        ensures
            limbs_value(r@) == self.value(),
    {
        let mut r: Vec<u32> = Vec::new();
        let mut i: usize = 0;
        while i < self.limbs.len()
            invariant
                i <= self.limbs@.len(),
                r@ =~= self.limbs@.subrange(0, i as int),
            decreases self.limbs@.len() - i,
        {
            r.push(self.limbs[i]);
            i = i + 1;
        }
        proof {
            assert(r@ =~= self.limbs@);
            self.lemma_value();
        }
        r
    }

    /// This number times 2^32.
    fn shifted(&self) -> (r: BigNat)
        ensures
            r.value() == limb_base() * self.value(),
    {
        let mut res: Vec<u32> = vec![0u32];
        let mut i: usize = 0;
        while i < self.limbs.len()
            invariant
                i <= self.limbs@.len(),
                res@ =~= seq![0u32] + self.limbs@.subrange(0, i as int),
            decreases self.limbs@.len() - i,
        {
            res.push(self.limbs[i]);
            i = i + 1;
        }
        proof {
            assert(res@.drop_first() =~= self.limbs@);
            self.lemma_value();
        }
        BigNat::from_limbs(res)
    }

    /// The sum of this number and `other`.
    pub fn add(&self, other: &BigNat) -> (r: BigNat)
        ensures
            r.value() == self.value() + other.value(),
    {
        let a = &self.limbs;
        let b = &other.limbs;
        let n: usize = if a.len() >= b.len() { a.len() } else { b.len() };
        let mut res: Vec<u32> = Vec::new();
        let mut carry: u64 = 0;
        let mut i: usize = 0;
        proof {
            lemma_prefix_zero(a@);
            lemma_prefix_zero(b@);
        }
        while i < n
            invariant
                n == a@.len() || n == b@.len(),
                a@.len() <= n,
                b@.len() <= n,
                i <= n,
                res@.len() == i,
                carry <= 1,
                limbs_value(res@) + carry * limb_pow(i as nat) == prefix_value(a@, i as int)
                    + prefix_value(b@, i as int),
            decreases n - i,
        {
            let da: u32 = if i < a.len() { a[i] } else { 0 };
            let db: u32 = if i < b.len() { b[i] } else { 0 };
            let t: u64 = (da as u64) + (db as u64) + carry;
            let lo: u64 = t % 0x1_0000_0000;
            let hi: u64 = t / 0x1_0000_0000;
            proof {
                lemma_value_push(res@, lo as u32);
                lemma_prefix_step(a@, i as nat);
                lemma_prefix_step(b@, i as nat);
                lemma_add_step(
                    limbs_value(res@),
                    carry as int,
                    limb_pow(i as nat),
                    da as int,
                    db as int,
                    lo as int,
                    hi as int,
                    prefix_value(a@, i as int),
                    prefix_value(b@, i as int),
                );
            }
            res.push(lo as u32);
            carry = hi;
            i = i + 1;
        }
        proof {
            lemma_value_push(res@, carry as u32);
            lemma_prefix_full(a@);
            lemma_prefix_full(b@);
            self.lemma_value();
            other.lemma_value();
        }
        res.push(carry as u32);
        BigNat::from_limbs(res)
    }

    /// The difference of this number and a number not above it.
    pub fn sub(&self, other: &BigNat) -> (r: BigNat)
        requires
            other.value() <= self.value(),
        ensures
            r.value() == self.value() - other.value(),
    {
        let a = &self.limbs;
        let b = &other.limbs;
        let n: usize = if a.len() >= b.len() { a.len() } else { b.len() };
        let mut res: Vec<u32> = Vec::new();
        let mut borrow: u64 = 0;
        let mut i: usize = 0;
        proof {
            lemma_prefix_zero(a@);
            lemma_prefix_zero(b@);
        }
        while i < n
            invariant
                n == a@.len() || n == b@.len(),
                a@.len() <= n,
                b@.len() <= n,
                i <= n,
                res@.len() == i,
                borrow <= 1,
                limbs_value(res@) - borrow * limb_pow(i as nat) == prefix_value(a@, i as int)
                    - prefix_value(b@, i as int),
            decreases n - i,
        {
            let da: u32 = if i < a.len() { a[i] } else { 0 };
            let db: u32 = if i < b.len() { b[i] } else { 0 };
            let need: u64 = (db as u64) + borrow;
            let lo: u64;
            let hi: u64;
            if (da as u64) >= need {
                lo = (da as u64) - need;
                hi = 0;
            } else {
                lo = (da as u64) + 0x1_0000_0000 - need;
                hi = 1;
            }
            proof {
                lemma_value_push(res@, lo as u32);
                lemma_prefix_step(a@, i as nat);
                lemma_prefix_step(b@, i as nat);
                lemma_sub_step(
                    limbs_value(res@),
                    borrow as int,
                    limb_pow(i as nat),
                    da as int,
                    db as int,
                    lo as int,
                    hi as int,
                    prefix_value(a@, i as int),
                    prefix_value(b@, i as int),
                );
            }
            res.push(lo as u32);
            borrow = hi;
            i = i + 1;
        }
        proof {
            lemma_prefix_full(a@);
            lemma_prefix_full(b@);
            self.lemma_value();
            other.lemma_value();
            lemma_value_bounds(res@);
            if borrow == 1 {
                assert(limbs_value(res@) - limb_pow(n as nat) < 0);
            }
        }
        BigNat::from_limbs(res)
    }

    /// The product of this number and `other`.
    pub fn mul(&self, other: &BigNat) -> (r: BigNat)
        ensures
            r.value() == self.value() * other.value(),
    {
        let b = &other.limbs;
        let mut res = BigNat::zero();
        let mut j: usize = b.len();
        proof {
            assert(b@.subrange(b@.len() as int, b@.len() as int) =~= Seq::<u32>::empty());
        }
        while j > 0
            invariant
                j <= b@.len(),
                res.value() == self.value() * limbs_value(b@.subrange(j as int, b@.len() as int)),
            decreases j,
        {
            j = j - 1;
            let part = self.mul_u32(b[j]);
            let next = res.shifted().add(&part);
            proof {
                let rest = b@.subrange(j + 1int, b@.len() as int);
                assert(b@.subrange(j as int, b@.len() as int).drop_first() =~= rest);
                let sv = self.value() as int;
                let rv = limbs_value(rest);
                let d = b@[j as int] as int;
                assert(limb_base() * (sv * rv) + sv * d == sv * (d + limb_base() * rv))
                    by (nonlinear_arith);
            }
            res = next;
        }
        proof {
            assert(b@.subrange(0, b@.len() as int) =~= b@);
            other.lemma_value();
        }
        res
    }
}

proof fn lemma_add_step(
    v: int,
    c: int,
    p: int,
    da: int,
    db: int,
    lo: int,
    hi: int,
    pa: int,
    pb: int,
)
    by (nonlinear_arith)
    requires
        v + c * p == pa + pb,
        da + db + c == lo + hi * 0x1_0000_0000,
    ensures
        v + lo * p + hi * (0x1_0000_0000 * p) == (pa + da * p) + (pb + db * p),
{
}

proof fn lemma_sub_step(
    v: int,
    c: int,
    p: int,
    da: int,
    db: int,
    lo: int,
    hi: int,
    pa: int,
    pb: int,
)
    by (nonlinear_arith)
    requires
        v - c * p == pa - pb,
        da - db - c == lo - hi * 0x1_0000_0000,
    ensures
        v + lo * p - hi * (0x1_0000_0000 * p) == (pa + da * p) - (pb + db * p),
{
}

proof fn lemma_mul_step(v: int, c: int, p: int, d: int, f: int, lo: int, hi: int, pv: int)
    by (nonlinear_arith)
    requires
        v + c * p == pv * f,
        d * f + c == lo + hi * 0x1_0000_0000,
    ensures
        v + lo * p + hi * (0x1_0000_0000 * p) == (pv + d * p) * f,
{
}

} // verus!
