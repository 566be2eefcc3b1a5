//! Radix-2 evaluation domains: multiplicative subgroups of the field whose
//! order is a power of two, and the bundle of four domains the prover uses.

use vstd::prelude::*;
use crate::modarith::{P, GEN, fpow, fsub, lemma_fpow_multiplies, lemma_generator_order};
use crate::field::Fp;
use vstd::arithmetic::power2::{
    pow2, lemma_pow2_pos, lemma_pow2_adds, lemma_pow2_strictly_increases, lemma2_to64,
};

verus! {

/// The smallest power of two that is at least `n` (and at least 1).
pub open spec fn next_pow2(n: nat) -> nat
    decreases n,
{
    if n <= 1 {
        1
    } else {
        2 * next_pow2((n + 1) / 2)
    }
}

pub proof fn lemma_next_pow2_props(n: nat)
    ensures
        next_pow2(n) >= 1,
        next_pow2(n) >= n,
        n >= 2 ==> next_pow2(n) <= 2 * n - 2,
        exists|k: nat| next_pow2(n) == pow2(k),
    decreases n,
{
    if n <= 1 {
        assert(pow2(0) == 1) by {
            lemma2_to64();
        }
        assert(next_pow2(n) == pow2(0));
    } else {
        let m = (n + 1) / 2;
        lemma_next_pow2_props(m);
        let k = choose|k: nat| next_pow2(m) == pow2(k);
        assert(next_pow2(n) == 2 * pow2(k));
        assert(pow2(k + 1) == 2 * pow2(k)) by {
            lemma_pow2_adds(k, 1);
            lemma2_to64();
        }
        assert(next_pow2(n) == pow2(k + 1));
        assert(next_pow2(n) >= n);
        if n >= 2 {
            if m >= 2 {
                assert(next_pow2(m) <= 2 * m - 2);
            } else {
                assert(m == 1 && n <= 3);
                assert(next_pow2(n) == 2);
            }
        }
    }
}

/// Any power of two that is at least `n` and whose half is below `n`
/// is the smallest one.
pub proof fn lemma_min_pow2_unique(n: nat, k: nat)
    requires
        pow2(k) >= n,
        k == 0 || pow2((k - 1) as nat) < n,
    ensures
        pow2(k) == next_pow2(n),
{
    lemma_next_pow2_props(n);
    let j = choose|j: nat| next_pow2(n) == pow2(j);
    lemma_pow2_pos(k);
    lemma_pow2_pos(j);
    if k < j {
        assert(pow2((j - 1) as nat) >= pow2(k)) by {
            if k < j - 1 {
                lemma_pow2_strictly_increases(k, (j - 1) as nat);
            }
        }
        if n <= 1 {
            assert(next_pow2(n) == 1);
            if j > 0 {
                lemma_pow2_strictly_increases(0, j);
                lemma2_to64();
                assert(false);
            }
            assert(false);
        } else {
            assert(next_pow2(n) <= 2 * n - 2);
            assert(pow2(j) == 2 * pow2((j - 1) as nat)) by {
                lemma_pow2_adds((j - 1) as nat, 1);
                lemma2_to64();
            }
            assert(pow2((j - 1) as nat) < n);
            assert(false);
        }
    } else if j < k {
        assert(pow2((k - 1) as nat) >= pow2(j)) by {
            if j < k - 1 {
                lemma_pow2_strictly_increases(j, (k - 1) as nat);
            }
        }
        assert(pow2(j) >= n);
        assert(false);
    }
}

/// A multiplicative subgroup of the field of size `2^log_size`, generated
/// by `group_gen`.
#[derive(Clone, Copy, PartialEq, Eq, Structural, Debug)]
pub struct Domain {
    pub size: u64,
    pub log_size: u64,
    pub group_gen: Fp,
}

impl Domain {
    /// The size is a power of two no larger than `2^16` and the generator
    /// is the canonical one for that size: `GEN^(2^16 / size)`.
    pub open spec fn wf(self) -> bool {
        &&& self.log_size <= 16
        &&& self.size == pow2(self.log_size as nat)
        &&& self.group_gen.wf()
        &&& self.group_gen.val() == fpow(GEN as nat, pow2((16 - self.log_size) as nat))
    }

    /// The size as it appears in specifications.
    pub open spec fn n(self) -> nat {
        self.size as nat
    }

    /// The generator's value, as it appears in specifications.
    pub open spec fn w(self) -> nat {
        self.group_gen.val()
    }

    /// Constructs the smallest domain of size at least `num`, if the field
    /// has a subgroup that large.
    pub fn new(num: u64) -> (r: Option<Domain>)
        ensures
            r is Some <==> num <= 65536,
            r is Some ==> r->Some_0.wf() && r->Some_0.n() == next_pow2(num as nat),
    {
        if num > 65536 {
            return None;
        }
        let mut size: u64 = 1;
        let mut log: u64 = 0;
        proof {
            assert(pow2(0) == 1 && pow2(16) == 65536) by {
                lemma2_to64();
            }
        }
        while size < num
            invariant
                num <= 65536,
                log <= 16,
                size >= 1,
                size == pow2(log as nat),
                log == 0 || pow2((log - 1) as nat) < num,
                pow2(16) == 65536,
            decreases 16 - log,
        {
            proof {
                if log >= 16 {
                    assert(pow2(log as nat) >= pow2(16)) by {
                        if log > 16 {
                            lemma_pow2_strictly_increases(16, log as nat);
                        }
                    }
                    assert(false);
                }
                assert(pow2((log + 1) as nat) == 2 * pow2(log as nat)) by {
                    lemma_pow2_adds(log as nat, 1);
                    lemma2_to64();
                }
                assert(pow2((log + 1) as nat) <= pow2(16)) by {
                    if log + 1 < 16 {
                        lemma_pow2_strictly_increases((log + 1) as nat, 16);
                    }
                }
            }
            size = size * 2;
            log = log + 1;
        }
        proof {
            lemma_min_pow2_unique(num as nat, log as nat);
            assert(pow2((16 - log) as nat) <= pow2(16)) by {
                if log > 0 {
                    lemma_pow2_strictly_increases((16 - log) as nat, 16);
                }
            }
        }
        let exponent: u64 = 65536 / size;
        proof {
            assert(pow2(16) == pow2(log as nat) * pow2((16 - log) as nat)) by {
                lemma_pow2_adds(log as nat, (16 - log) as nat);
            }
            assert(65536nat / (size as nat) == pow2((16 - log) as nat)) by {
                lemma_pow2_pos(log as nat);
                vstd::arithmetic::div_mod::lemma_div_multiples_vanish(
                    pow2((16 - log) as nat) as int,
                    pow2(log as nat) as int,
                );
                vstd::arithmetic::mul::lemma_mul_is_commutative(
                    pow2(log as nat) as int,
                    pow2((16 - log) as nat) as int,
                );
            }
        }
        let group_gen = Fp { v: GEN }.pow(exponent);
        Some(Domain { size, log_size: log, group_gen })
    }

    /// `Z_D(x) = x^n - 1`, the vanishing polynomial of the domain.
    pub fn evaluate_vanishing_polynomial(self, x: Fp) -> (r: Fp)
        requires
            self.wf(),
            x.wf(),
        ensures
            r.wf(),
            r.val() == fsub(fpow(x.val(), self.n()), 1),
    {
        let xn = x.pow(self.size);
        xn.sub(Fp::one())
    }

    /// The `i`-th point of the domain, `group_gen^i`.
    pub fn element(self, i: u64) -> (r: Fp)
        requires
            self.wf(),
        ensures
            r.wf(),
            r.val() == fpow(self.w(), i as nat),
    {
        self.group_gen.pow(i)
    }
}

/// The generator of a well-formed domain has order exactly the domain size:
/// its `size`-th power is one, and for sizes of at least two its half-order
/// power is not one.
pub proof fn lemma_domain_gen_order(d: Domain)
    requires
        d.wf(),
    ensures
        fpow(d.w(), d.n()) == 1,
        d.log_size >= 1 ==> fpow(d.w(), (d.n() / 2) as nat) == (P - 1) as nat,
{
    let g = GEN as nat;
    let e = pow2((16 - d.log_size) as nat);
    lemma_generator_order();
    assert(fpow(d.w(), d.n()) == fpow(g, e * pow2(d.log_size as nat))) by {
        lemma_fpow_multiplies(g, e, pow2(d.log_size as nat));
    }
    assert(e * pow2(d.log_size as nat) == pow2(16)) by {
        lemma_pow2_adds((16 - d.log_size) as nat, d.log_size as nat);
    }
    assert(pow2(16) == 65536 && pow2(15) == 32768) by {
        lemma2_to64();
    }
    if d.log_size >= 1 {
        let h = pow2((d.log_size - 1) as nat);
        assert(d.n() / 2 == h) by {
            lemma_pow2_adds((d.log_size - 1) as nat, 1);
            lemma2_to64();
        }
        assert(fpow(d.w(), h) == fpow(g, e * h)) by {
            lemma_fpow_multiplies(g, e, h);
        }
        assert(e * h == pow2(15)) by {
            lemma_pow2_adds((16 - d.log_size) as nat, (d.log_size - 1) as nat);
        }
    }
}

/// If one domain is `2^s` times larger than another, raising its generator
/// to the `2^s` gives the smaller domain's generator.
pub proof fn lemma_domain_gen_nested(big: Domain, small: Domain, s: nat)
    requires
        big.wf(),
        small.wf(),
        big.log_size == small.log_size + s,
    ensures
        fpow(big.w(), pow2(s)) == small.w(),
{
    let g = GEN as nat;
    let e = pow2((16 - big.log_size) as nat);
    assert(fpow(big.w(), pow2(s)) == fpow(g, e * pow2(s))) by {
        lemma_fpow_multiplies(g, e, pow2(s));
    }
    assert(e * pow2(s) == pow2((16 - small.log_size) as nat)) by {
        lemma_pow2_adds((16 - big.log_size) as nat, s);
    }
}

/// The four evaluation domains of a proof: `h` for the witness rows,
/// `x` for the public inputs, `k` for the nonzero index entries, and a
/// wider domain `b` for certain products.
#[derive(Clone, Copy, PartialEq, Eq, Structural, Debug)]
pub struct EvaluationDomains {
    pub h: Domain,
    pub k: Domain,
    pub b: Domain,
    pub x: Domain,
}

impl EvaluationDomains {
    /// Picks the smallest radix-2 subgroups satisfying the three size
    /// bounds, and a `b` domain of size at least `3|K| - 3`.  Fails exactly
    /// when the field has no subgroup of a required size.
    pub fn create(variables: usize, public_inputs: usize, nonzero_entries: usize) -> (r: Option<
        EvaluationDomains,
    >)
        ensures
            r is Some <==> variables <= 65536 && public_inputs <= 65536 && nonzero_entries
                <= 65536 && 3 * next_pow2(nonzero_entries as nat) - 3 <= 65536,
            r is Some ==> {
                let ds = r->Some_0;
                &&& ds.h.wf() && ds.k.wf() && ds.b.wf() && ds.x.wf()
                &&& ds.h.n() == next_pow2(variables as nat)
                &&& ds.x.n() == next_pow2(public_inputs as nat)
                &&& ds.k.n() == next_pow2(nonzero_entries as nat)
                &&& ds.b.n() == next_pow2((3 * ds.k.n() - 3) as nat)
                &&& ds.b.n() >= 3 * ds.k.n() - 3
            },
    {
        if variables > 65536 || public_inputs > 65536 || nonzero_entries > 65536 {
            return None;
        }
        let h = match Domain::new(variables as u64) {
            Some(d) => d,
            None => {
                return None;
            },
        };
        let x = match Domain::new(public_inputs as u64) {
            Some(d) => d,
            None => {
                return None;
            },
        };
        let k = match Domain::new(nonzero_entries as u64) {
            Some(d) => d,
            None => {
                return None;
            },
        };
        proof {
            lemma_next_pow2_props(nonzero_entries as nat);
        }
        let b = match Domain::new(3 * k.size - 3) {
            Some(d) => d,
            None => {
                return None;
            },
        };
        proof {
            lemma_next_pow2_props((3 * k.n() - 3) as nat);
        }
        Some(EvaluationDomains { h, k, b, x })
    }
}

/// A well-formed domain has between 1 and `2^16` points.
pub proof fn lemma_domain_size_bound(d: Domain)
    requires
        d.wf(),
    ensures
        1 <= d.size <= 65536,
{
    lemma_pow2_pos(d.log_size as nat);
    lemma2_to64();
    if d.log_size < 16 {
        lemma_pow2_strictly_increases(d.log_size as nat, 16);
    }
}

} // verus!
