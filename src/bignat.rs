use vstd::prelude::*;

verus! {

/// The base of a limb: 2^32.
pub open spec fn limb_base() -> nat {
    0x1_0000_0000
}

/// `limb_base()` to the power `i`.
pub open spec fn base_pow(i: nat) -> nat
    decreases i,
{
    if i == 0 {
        1
    } else {
        limb_base() * base_pow((i - 1) as nat)
    }
}

/// The number whose base-2^32 digits, least significant first, are `s`.
pub open spec fn limbs_val(s: Seq<u32>) -> nat
    decreases s.len(),
{
    if s.len() == 0 {
        0
    } else {
        limbs_val(s.drop_last()) + (s.last() as nat) * base_pow((s.len() - 1) as nat)
    }
}

proof fn lemma_val_bound(s: Seq<u32>)
    ensures
        limbs_val(s) < base_pow(s.len()),
        base_pow(s.len()) > 0,
    decreases s.len(),
{
    if s.len() > 0 {
        let p = base_pow((s.len() - 1) as nat);
        lemma_val_bound(s.drop_last());
        let v = limbs_val(s.drop_last());
        let l = s.last() as nat;
        assert(v + l * p < limb_base() * p) by (nonlinear_arith)
            requires v < p, l < limb_base(), p > 0;
    }
}

proof fn lemma_val_push(s: Seq<u32>, x: u32)
    ensures
        limbs_val(s.push(x)) == limbs_val(s) + (x as nat) * base_pow(s.len()),
{
    assert(s.push(x).drop_last() =~= s);
}

/// A natural number of any size.
pub struct BigNat {
    limbs: Vec<u32>,
}

impl View for BigNat {
    type V = nat;

    closed spec fn view(&self) -> nat {
        limbs_val(self.limbs@)
    }
}

fn pad(a: &Vec<u32>, n: usize) -> (r: Vec<u32>)
    ensures
        limbs_val(r@) == limbs_val(a@),
        r@.len() == if a@.len() >= n { a@.len() } else { n as nat },
        forall|i: int| 0 <= i < a@.len() ==> r@[i] == a@[i],
{
    let mut r = a.clone();
    assert(r@ =~= a@);
    while r.len() < n
        invariant
            limbs_val(r@) == limbs_val(a@),
            r@.len() >= a@.len(),
            r@.len() <= if a@.len() >= n { a@.len() } else { n as nat },
            forall|i: int| 0 <= i < a@.len() ==> r@[i] == a@[i],
        decreases n - r@.len(),
    {
        proof {
            lemma_val_push(r@, 0);
        }
        r.push(0);
    }
    r
}

impl BigNat {
    /// The number `x`.
    pub fn from_u32(x: u32) -> (r: BigNat)
        ensures
            r@ == x as nat,
    {
        let mut limbs: Vec<u32> = Vec::new();
        proof {
            lemma_val_push(Seq::empty(), x);
        }
        limbs.push(x);
        assert(limbs@ =~= Seq::<u32>::empty().push(x));
        assert(base_pow(0) == 1);
        assert(limbs_val(Seq::<u32>::empty()) == 0);
        assert((x as nat) * base_pow(0) == x as nat);
        assert(limbs_val(limbs@) == x as nat);
        BigNat { limbs }
    }

    /// This number times `m`.
    pub fn scale(&self, m: u64) -> (r: BigNat)
        ensures
            r@ == self@ * (m as nat),
    {
        let a = &self.limbs;
        let mut out: Vec<u32> = Vec::new();
        let mut carry: u128 = 0;
        let mut i: usize = 0;
        assert(a@.take(0) =~= Seq::<u32>::empty());
        assert(limbs_val(out@) == 0);
        while i < a.len()
            invariant
                i <= a@.len(),
                out@.len() == i,
                carry < 0x1_0000_0000_0000_0000,
                limbs_val(out@) + (carry as nat) * base_pow(i as nat) == limbs_val(a@.take(i as int))
                    * (m as nat),
            decreases a@.len() - i,
        {
            let ai = a[i];
            assert(a@.take(i as int + 1).drop_last() =~= a@.take(i as int));
            assert((ai as u128) * (m as u128) <= 0xffff_ffffu128 * 0xffff_ffff_ffff_ffffu128)
                by (nonlinear_arith)
                requires ai <= 0xffff_ffffu32, m <= 0xffff_ffff_ffff_ffffu64;
            let t: u128 = (ai as u128) * (m as u128) + carry;
            let lo = (t % 0x1_0000_0000) as u32;
            let hi = t / 0x1_0000_0000;
            proof {
                lemma_val_push(out@, lo);
                let p = base_pow(i as nat);
                let v = limbs_val(out@);
                let va = limbs_val(a@.take(i as int));
                assert(base_pow(i as nat + 1) == limb_base() * p);
                assert(v + (lo as nat) * p + (hi as nat) * (limb_base() * p) == (va + (ai as nat) * p)
                    * (m as nat)) by (nonlinear_arith)
                    requires
                        v + (carry as nat) * p == va * (m as nat),
                        t == (ai as nat) * (m as nat) + carry,
                        t == (lo as nat) + limb_base() * (hi as nat),
                        limb_base() == 0x1_0000_0000;
            }
            out.push(lo);
            carry = hi;
            i = i + 1;
        }
        assert(a@.take(i as int) =~= a@);
        let lo = (carry % 0x1_0000_0000) as u32;
        let hi = (carry / 0x1_0000_0000) as u32;
        proof {
            lemma_val_push(out@, lo);
            lemma_val_push(out@.push(lo), hi);
            let p = base_pow(i as nat);
            assert(base_pow(i as nat + 1) == limb_base() * p);
            assert((lo as nat) * p + (hi as nat) * (limb_base() * p) == (carry as nat) * p)
                by (nonlinear_arith)
                requires carry == (lo as nat) + limb_base() * (hi as nat);
        }
        out.push(lo);
        out.push(hi);
        BigNat { limbs: out }
    }

    /// The sum of this number and `other`.
    pub fn add(&self, other: &BigNat) -> (r: BigNat)
        ensures
            r@ == self@ + other@,
    {
        let n = if self.limbs.len() >= other.limbs.len() { self.limbs.len() } else { other.limbs.len() };
        let a = pad(&self.limbs, n);
        let b = pad(&other.limbs, n);
        let mut out: Vec<u32> = Vec::new();
        let mut carry: u64 = 0;
        let mut i: usize = 0;
        assert(a@.take(0) =~= Seq::<u32>::empty());
        assert(b@.take(0) =~= Seq::<u32>::empty());
        assert(limbs_val(out@) == 0);
        while i < n
            invariant
                a@.len() == n,
                b@.len() == n,
                i <= n,
                out@.len() == i,
                carry <= 1,
                limbs_val(out@) + (carry as nat) * base_pow(i as nat) == limbs_val(a@.take(i as int))
                    + limbs_val(b@.take(i as int)),
            decreases n - i,
        {
            assert(a@.take(i as int + 1).drop_last() =~= a@.take(i as int));
            assert(b@.take(i as int + 1).drop_last() =~= b@.take(i as int));
            let t: u64 = a[i] as u64 + b[i] as u64 + carry;
            let lo = (t % 0x1_0000_0000) as u32;
            let hi = t / 0x1_0000_0000;
            proof {
                lemma_val_push(out@, lo);
                let p = base_pow(i as nat);
                assert(base_pow(i as nat + 1) == limb_base() * p);
                assert((lo as nat) * p + (hi as nat) * (limb_base() * p) == (t as nat) * p)
                    by (nonlinear_arith)
                    requires t == (lo as nat) + limb_base() * (hi as nat);
                assert((t as nat) * p == (a@[i as int] as nat) * p + (b@[i as int] as nat) * p + (carry as nat) * p)
                    by (nonlinear_arith)
                    requires t == a@[i as int] as nat + b@[i as int] as nat + carry as nat;
            }
            out.push(lo);
            carry = hi;
            i = i + 1;
        }
        assert(a@.take(n as int) =~= a@);
        assert(b@.take(n as int) =~= b@);
        proof {
            lemma_val_push(out@, carry as u32);
        }
        out.push(carry as u32);
        BigNat { limbs: out }
    }

    /// Whether this number is less than `other`.
    pub fn lt(&self, other: &BigNat) -> (r: bool)
        ensures
            r == (self@ < other@),
    {
        let n = if self.limbs.len() >= other.limbs.len() { self.limbs.len() } else { other.limbs.len() };
        let a = pad(&self.limbs, n);
        let b = pad(&other.limbs, n);
        let mut less = false;
        let mut i: usize = 0;
        assert(a@.take(0) =~= Seq::<u32>::empty());
        assert(b@.take(0) =~= Seq::<u32>::empty());
        while i < n
            invariant
                a@.len() == n,
                b@.len() == n,
                i <= n,
                less == (limbs_val(a@.take(i as int)) < limbs_val(b@.take(i as int))),
            decreases n - i,
        {
            assert(a@.take(i as int + 1).drop_last() =~= a@.take(i as int));
            assert(b@.take(i as int + 1).drop_last() =~= b@.take(i as int));
            proof {
                lemma_val_bound(a@.take(i as int));
                lemma_val_bound(b@.take(i as int));
                let p = base_pow(i as nat);
                let va = limbs_val(a@.take(i as int));
                let vb = limbs_val(b@.take(i as int));
                let x = a@[i as int] as nat;
                let y = b@[i as int] as nat;
                assert((va + x * p < vb + y * p) == (x < y || (x == y && va < vb)))
                    by (nonlinear_arith)
                    requires va < p, vb < p, p > 0;
            }
            less = a[i] < b[i] || (a[i] == b[i] && less);
            i = i + 1;
        }
        assert(a@.take(n as int) =~= a@);
        assert(b@.take(n as int) =~= b@);
        less
    }
}

} // verus!
