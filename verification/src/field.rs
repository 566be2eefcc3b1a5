//! The field element type `Fp` and its executable arithmetic, proved
//! against the residue arithmetic of `modarith`.

use vstd::prelude::*;
use crate::modarith::{
    P, fadd, fneg, fsub, fmul, fpow, finv, is_inv, lemma_fmul_comm, lemma_fmul_assoc,
    lemma_fmul_mod, lemma_fpow_bound, lemma_fpow_even, lemma_inv_exists, lemma_inv_unique,
    lemma_finv_zero,
};
use vstd::arithmetic::mul::lemma_mul_upper_bound;

verus! {

/// An element of the prime field of size `P`, held as its least residue.
#[derive(Clone, Copy, PartialEq, Eq, Structural, Debug, Hash)]
pub struct Fp {
    pub v: u64,
}

impl Fp {
    /// The residue is reduced.
    pub open spec fn wf(self) -> bool {
        self.v < P
    }

    /// The mathematical value of the element.
    pub open spec fn val(self) -> nat {
        self.v as nat
    }

    pub fn zero() -> (r: Fp)
        ensures
            r.wf(),
            r.val() == 0,
    {
        Fp { v: 0 }
    }

    pub fn one() -> (r: Fp)
        ensures
            r.wf(),
            r.val() == 1,
    {
        Fp { v: 1 }
    }

    /// The field element standing for an arbitrary integer.
    pub fn new(x: u64) -> (r: Fp)
        ensures
            r.wf(),
            r.val() == x as nat % (P as nat),
    {
        Fp { v: x % P }
    }

    pub fn is_zero(self) -> (r: bool)
        requires
            self.wf(),
        ensures
            r <==> self.val() == 0,
    {
        self.v == 0
    }

    pub fn is_one(self) -> (r: bool)
        requires
            self.wf(),
        ensures
            r <==> self.val() == 1,
    {
        self.v == 1
    }

    pub fn add(self, other: Fp) -> (r: Fp)
        requires
            self.wf(),
            other.wf(),
        ensures
            r.wf(),
            r.val() == fadd(self.val(), other.val()),
    {
        Fp { v: (self.v + other.v) % P }
    }

    pub fn neg(self) -> (r: Fp)
        requires
            self.wf(),
        ensures
            r.wf(),
            r.val() == fneg(self.val()),
    {
        Fp { v: (P - self.v) % P }
    }

    pub fn sub(self, other: Fp) -> (r: Fp)
        requires
            self.wf(),
            other.wf(),
        ensures
            r.wf(),
            r.val() == fsub(self.val(), other.val()),
    {
        Fp { v: (self.v + (P - other.v)) % P }
    }

    pub fn mul(self, other: Fp) -> (r: Fp)
        requires
            self.wf(),
            other.wf(),
        ensures
            r.wf(),
            r.val() == fmul(self.val(), other.val()),
    {
        proof {
            lemma_mul_upper_bound(self.v as int, 65536, other.v as int, 65536);
        }
        Fp { v: (self.v * other.v) % P }
    }

    /// `self^e`, by square and multiply.
    pub fn pow(self, e: u64) -> (r: Fp)
        requires
            self.wf(),
        ensures
            r.wf(),
            r.val() == fpow(self.val(), e as nat),
    {
        let mut base = self;
        let mut acc = Fp { v: 1 };
        let mut exp = e;
        proof {
            lemma_fpow_bound(self.val(), e as nat);
            lemma_fmul_mod(1, fpow(self.val(), e as nat));
        }
        while exp > 0
            invariant
                base.wf(),
                acc.wf(),
                fmul(acc.val(), fpow(base.val(), exp as nat)) == fpow(self.val(), e as nat),
            decreases exp,
        {
            let ghost b = base.val();
            let ghost a = acc.val();
            let ghost k = (exp / 2) as nat;
            if exp % 2 == 1 {
                proof {
                    assert(exp as nat == 2 * k + 1);
                    assert(fpow(b, 2 * k + 1) == fmul(b, fpow(b, 2 * k)));
                    lemma_fpow_even(b, k);
                    lemma_fmul_assoc(a, b, fpow(fmul(b, b), k));
                }
                acc = acc.mul(base);
            } else {
                proof {
                    assert(exp as nat == 2 * k);
                    lemma_fpow_even(b, k);
                }
            }
            base = base.mul(base);
            exp = exp / 2;
        }
        proof {
            lemma_fmul_mod(acc.val(), 1);
            assert(fmul(acc.val(), 1) == acc.val() * 1 % (P as nat));
        }
        acc
    }

    /// The multiplicative inverse; zero maps to zero.
    ///
    /// The fast path raises to the power `P - 2` and checks the product;
    /// if the check were ever to fail, an exhaustive search finds the
    /// inverse, which is proved to exist.
    pub fn inverse(self) -> (r: Fp)
        requires
            self.wf(),
        ensures
            r.wf(),
            r.val() == finv(self.val()),
            self.val() == 0 ==> r.val() == 0,
            self.val() != 0 ==> fmul(self.val(), r.val()) == 1,
    {
        let a = self.v;
        if a == 0 {
            proof {
                lemma_finv_zero();
            }
            return Fp { v: 0 };
        }
        let c = self.pow(P - 2);
        let check = c.mul(self);
        if check.v == 1 {
            proof {
                lemma_fmul_comm(c.val(), self.val());
                lemma_inv_exists(self.val());
                lemma_inv_unique(self.val(), c.val(), finv(self.val()));
            }
            return c;
        }
        let mut i: u64 = 1;
        while i < P
            invariant
                self.wf(),
                self.v != 0,
                1 <= i <= P,
                forall|j: nat| 1 <= j < i ==> #[trigger] fmul(self.val(), j) != 1,
            decreases P - i,
        {
            proof {
                lemma_mul_upper_bound(self.v as int, 65536, i as int, 65536);
            }
            if (self.v * i) % P == 1 {
                let r = Fp { v: i };
                proof {
                    lemma_inv_exists(self.val());
                    lemma_inv_unique(self.val(), r.val(), finv(self.val()));
                }
                return r;
            }
            i += 1;
        }
        proof {
            lemma_inv_exists(self.val());
            let b = finv(self.val());
            assert(fmul(self.val(), 0) == 0) by {
                vstd::arithmetic::mul::lemma_mul_by_zero_is_zero(self.val() as int);
            }
            assert(b != 0);
            assert(fmul(self.val(), b) != 1);
            assert(false);
        }
        Fp { v: 0 }
    }
}

/// The product of the values of the nonzero entries among the first
/// `upto` elements.
pub open spec fn prod_nonzero(s: Seq<Fp>, upto: int) -> nat
    decreases upto,
{
    if upto <= 0 {
        1
    } else {
        let p = prod_nonzero(s, upto - 1);
        if s[upto - 1].val() == 0 {
            p
        } else {
            fmul(p, s[upto - 1].val())
        }
    }
}

/// A product of nonzero residues is a nonzero residue.
proof fn lemma_prod_nonzero_unit(s: Seq<Fp>, upto: int)
    requires
        forall|i: int| 0 <= i < s.len() ==> (#[trigger] s[i]).wf(),
        0 <= upto <= s.len(),
    ensures
        0 < prod_nonzero(s, upto) < P,
    decreases upto,
{
    if upto > 0 {
        lemma_prod_nonzero_unit(s, upto - 1);
        if s[upto - 1].val() != 0 {
            crate::modarith::lemma_finv_mul(prod_nonzero(s, upto - 1), s[upto - 1].val());
        }
    }
}

/// Replaces every entry of the vector by its field inverse; zero entries
/// pass through unchanged.  One inversion of the running product is
/// amortized over all the nonzero entries.
pub fn batch_inversion(v: &mut Vec<Fp>)
    requires
        forall|i: int| 0 <= i < old(v)@.len() ==> #[trigger] old(v)@[i].wf(),
    ensures
        final(v)@.len() == old(v)@.len(),
        forall|i: int| 0 <= i < old(v)@.len() ==> (#[trigger] final(v)@[i]).wf(),
        forall|i: int|
            0 <= i < old(v)@.len() ==> (#[trigger] final(v)@[i]).val() == finv(old(v)@[i].val()),
{
    let n = v.len();
    let ghost v0 = v@;
    // the running products of the nonzero entries seen so far
    let mut prefix: Vec<Fp> = Vec::new();
    let mut acc = Fp::one();
    let mut i: usize = 0;
    while i < n
        invariant
            n == v@.len(),
            v@ == v0,
            forall|j: int| 0 <= j < n ==> (#[trigger] v0[j]).wf(),
            0 <= i <= n,
            prefix@.len() == i,
            forall|j: int|
                0 <= j < i ==> (#[trigger] prefix@[j]).wf() && prefix@[j].val() == prod_nonzero(
                    v0,
                    j,
                ),
            acc.wf(),
            acc.val() == prod_nonzero(v0, i as int),
        decreases n - i,
    {
        prefix.push(acc);
        let x = v[i];
        if x.v != 0 {
            acc = acc.mul(x);
        }
        i += 1;
    }
    // the one inversion
    let mut inv = acc.inverse();
    let mut t: usize = n;
    while t > 0
        invariant
            n == v@.len(),
            v0.len() == n,
            forall|j: int| 0 <= j < n ==> (#[trigger] v0[j]).wf(),
            0 <= t <= n,
            prefix@.len() == n,
            forall|j: int|
                0 <= j < n ==> (#[trigger] prefix@[j]).wf() && prefix@[j].val() == prod_nonzero(
                    v0,
                    j,
                ),
            forall|j: int| 0 <= j < t ==> #[trigger] v@[j] == v0[j],
            forall|j: int|
                t <= j < n ==> (#[trigger] v@[j]).wf() && v@[j].val() == finv(v0[j].val()),
            inv.wf(),
            inv.val() == finv(prod_nonzero(v0, t as int)),
        decreases t,
    {
        t -= 1;
        let x = v[t];
        if x.v != 0 {
            let ghost p = prod_nonzero(v0, t as int);
            let ghost xv = v0[t as int].val();
            let ghost ip = finv(p);
            let ghost ix = finv(xv);
            proof {
                lemma_prod_nonzero_unit(v0, t as int);
                crate::modarith::lemma_finv_mul(p, xv);
                lemma_inv_exists(p);
                lemma_inv_exists(xv);
                assert(prod_nonzero(v0, t + 1) == fmul(p, xv));
                // inv * prefix[t] is the inverse of this entry
                assert(fmul(fmul(ip, ix), p) == ix) by {
                    lemma_fmul_comm(ip, ix);
                    lemma_fmul_assoc(ix, ip, p);
                    assert(fmul(ip, p) == 1) by {
                        lemma_fmul_comm(p, ip);
                    }
                    assert(fmul(ix, 1) == ix) by {
                        vstd::arithmetic::mul::lemma_mul_basics(ix as int);
                        vstd::arithmetic::div_mod::lemma_small_mod(ix, P as nat);
                    }
                }
                // and the running inverse loses this entry's factor
                assert(fmul(fmul(ip, ix), xv) == ip) by {
                    lemma_fmul_assoc(ip, ix, xv);
                    assert(fmul(ix, xv) == 1) by {
                        lemma_fmul_comm(xv, ix);
                    }
                    assert(fmul(ip, 1) == ip) by {
                        vstd::arithmetic::mul::lemma_mul_basics(ip as int);
                        vstd::arithmetic::div_mod::lemma_small_mod(ip, P as nat);
                    }
                }
            }
            let r = inv.mul(prefix[t]);
            inv = inv.mul(x);
            v.set(t, r);
        } else {
            proof {
                lemma_finv_zero();
                assert(prod_nonzero(v0, t + 1) == prod_nonzero(v0, t as int));
            }
        }
    }
}

/// Batch inversion is an involution over whole vectors: since each
/// entry of the result is the field inverse of the entry it replaces, a
/// second pass restores every entry — nonzero entries through their
/// inverses, zeros through zero both times.
pub proof fn lemma_batch_inversion_involution(s: Seq<Fp>)
    requires
        forall|i: int| 0 <= i < s.len() ==> (#[trigger] s[i]).wf(),
    ensures
        forall|i: int| 0 <= i < s.len() ==> finv(finv((#[trigger] s[i]).val())) == s[i].val(),
        forall|i: int|
            0 <= i < s.len() ==> ((#[trigger] s[i]).val() == 0 ==> finv(s[i].val()) == 0),
{
    assert forall|i: int| 0 <= i < s.len() implies finv(finv((#[trigger] s[i]).val()))
        == s[i].val() && (s[i].val() == 0 ==> finv(s[i].val()) == 0) by {
        lemma_finv_involution(s[i].val());
    }
}

/// Inversion is an involution: inverting twice gives the argument back,
/// and zero passes through both times.
pub proof fn lemma_finv_involution(a: nat)
    requires
        a < P,
    ensures
        finv(finv(a)) == a,
        a == 0 ==> finv(a) == 0,
{
    if a == 0 {
        lemma_finv_zero();
    } else {
        lemma_inv_exists(a);
        let b = finv(a);
        assert(fmul(a, 0) == 0) by {
            vstd::arithmetic::mul::lemma_mul_by_zero_is_zero(a as int);
        }
        assert(b != 0);
        lemma_inv_exists(b);
        assert(is_inv(b, a)) by {
            lemma_fmul_comm(a, b);
        }
        lemma_inv_unique(b, a, finv(b));
    }
}

} // verus!
