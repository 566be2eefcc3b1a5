//! Mixed-domain evaluation arithmetic: values tagged with the extended
//! domain they live on, read through strided views into the environment's
//! precomputed vectors, and combined element-wise on a chosen target
//! domain.

use vstd::prelude::*;
use crate::modarith::{fadd, fsub, fmul, fpow, lemma_fmul_comm};
use crate::field::Fp;
use crate::domains::Domain;

verus! {

/// The number of witness columns.
pub const COLUMNS: usize = 15;

/// The number of gate families an environment can carry selectors for.
pub const GATE_KINDS: usize = 7;

/// The three extended domains, as multiples of the base domain size.
#[derive(Clone, Copy, PartialEq, Eq, Structural, Debug)]
pub enum DomainTag {
    D1,
    D4,
    D8,
}

/// The size multiple a tag stands for.
pub open spec fn tag_factor(t: DomainTag) -> nat {
    match t {
        DomainTag::D1 => 1,
        DomainTag::D4 => 4,
        DomainTag::D8 => 8,
    }
}

impl DomainTag {
    pub fn factor(self) -> (r: u64)
        ensures
            r as nat == tag_factor(self),
    {
        match self {
            DomainTag::D1 => 1,
            DomainTag::D4 => 4,
            DomainTag::D8 => 8,
        }
    }
}

/// The values of a polynomial on the points of a domain.
#[derive(Clone, Debug)]
pub struct Evaluations {
    pub evals: Vec<Fp>,
    pub domain: Domain,
}

impl Evaluations {
    /// One value per domain point, all reduced.
    pub open spec fn wf(self) -> bool {
        &&& self.domain.wf()
        &&& self.evals@.len() == self.domain.size
        &&& forall|i: int| 0 <= i < self.evals@.len() ==> (#[trigger] self.evals@[i]).wf()
    }

    /// The values as residues.
    pub open spec fn vals(self) -> Seq<nat> {
        self.evals@.map_values(|f: Fp| f.val())
    }
}

/// The base domain and its four- and eight-fold extensions.
#[derive(Clone, Copy, PartialEq, Eq, Structural, Debug)]
pub struct EnvDomains {
    pub d1: Domain,
    pub d4: Domain,
    pub d8: Domain,
}

impl EnvDomains {
    pub open spec fn wf(self) -> bool {
        &&& self.d1.wf()
        &&& self.d4.wf()
        &&& self.d8.wf()
        &&& self.d4.log_size == self.d1.log_size + 2
        &&& self.d8.log_size == self.d1.log_size + 3
    }
}

/// The read-only evaluation vectors an expression is evaluated against,
/// all precomputed on the eight-fold domain, together with the challenge
/// values for the oracle leaves.
pub struct Environment {
    pub witness: Vec<Evaluations>,
    pub zk_polynomial: Evaluations,
    pub z: Evaluations,
    pub lookup_sorted: Vec<Evaluations>,
    pub lookup_aggreg: Evaluations,
    pub lookup_table: Evaluations,
    pub lookup_selectors: Vec<Evaluations>,
    pub index: Vec<Option<Evaluations>>,
    pub alpha: Fp,
    pub beta: Fp,
    pub gamma: Fp,
    pub joint_combiner: Fp,
    pub domain: EnvDomains,
    pub l0_1: Fp,
}

/// A handle naming one of the environment's evaluation vectors.
#[derive(Clone, Copy, PartialEq, Eq, Structural, Debug)]
pub enum EvalSource {
    ZkPolynomial,
    Witness(usize),
    Z,
    LookupSorted(usize),
    LookupAggreg,
    LookupTable,
    LookupKindIndex(usize),
    Index(usize),
}

impl Environment {
    pub open spec fn wf(self) -> bool {
        &&& self.domain.wf()
        &&& self.witness@.len() == COLUMNS
        &&& self.index@.len() == GATE_KINDS
        &&& forall|i: int| 0 <= i < self.witness@.len() ==> self.on_d8(#[trigger] self.witness@[i])
        &&& self.on_d8(self.zk_polynomial)
        &&& self.on_d8(self.z)
        &&& forall|i: int|
            0 <= i < self.lookup_sorted@.len() ==> self.on_d8(#[trigger] self.lookup_sorted@[i])
        &&& self.on_d8(self.lookup_aggreg)
        &&& self.on_d8(self.lookup_table)
        &&& forall|i: int|
            0 <= i < self.lookup_selectors@.len() ==> self.on_d8(
                #[trigger] self.lookup_selectors@[i],
            )
        &&& forall|i: int|
            0 <= i < self.index@.len() ==> ((#[trigger] self.index@[i]) matches Some(e)
                ==> self.on_d8(e))
        &&& self.alpha.wf()
        &&& self.beta.wf()
        &&& self.gamma.wf()
        &&& self.joint_combiner.wf()
        &&& self.l0_1.wf()
    }

    /// The vector is well formed and lives on the eight-fold domain.
    pub open spec fn on_d8(self, e: Evaluations) -> bool {
        e.wf() && e.domain == self.domain.d8
    }

    /// The domain a tag stands for in this environment.
    pub open spec fn tag_domain(self, t: DomainTag) -> Domain {
        match t {
            DomainTag::D1 => self.domain.d1,
            DomainTag::D4 => self.domain.d4,
            DomainTag::D8 => self.domain.d8,
        }
    }

    /// The handle points at a vector that exists.
    pub open spec fn source_ok(self, s: EvalSource) -> bool {
        match s {
            EvalSource::ZkPolynomial => true,
            EvalSource::Witness(i) => (i as int) < self.witness@.len(),
            EvalSource::Z => true,
            EvalSource::LookupSorted(i) => (i as int) < self.lookup_sorted@.len(),
            EvalSource::LookupAggreg => true,
            EvalSource::LookupTable => true,
            EvalSource::LookupKindIndex(i) => (i as int) < self.lookup_selectors@.len(),
            EvalSource::Index(i) => (i as int) < self.index@.len() && self.index@[i as int] is Some,
        }
    }

    /// The values of the vector a handle names.
    pub open spec fn source_vals(self, s: EvalSource) -> Seq<nat> {
        match s {
            EvalSource::ZkPolynomial => self.zk_polynomial.vals(),
            EvalSource::Witness(i) => self.witness@[i as int].vals(),
            EvalSource::Z => self.z.vals(),
            EvalSource::LookupSorted(i) => self.lookup_sorted@[i as int].vals(),
            EvalSource::LookupAggreg => self.lookup_aggreg.vals(),
            EvalSource::LookupTable => self.lookup_table.vals(),
            EvalSource::LookupKindIndex(i) => self.lookup_selectors@[i as int].vals(),
            EvalSource::Index(i) => self.index@[i as int]->Some_0.vals(),
        }
    }

    /// A reference to the vector a handle names.
    pub fn source(&self, s: EvalSource) -> (r: &Evaluations)
        requires
            self.wf(),
            self.source_ok(s),
        ensures
            r.vals() == self.source_vals(s),
            self.on_d8(*r),
    {
        match s {
            EvalSource::ZkPolynomial => &self.zk_polynomial,
            EvalSource::Witness(i) => &self.witness[i],
            EvalSource::Z => &self.z,
            EvalSource::LookupSorted(i) => &self.lookup_sorted[i],
            EvalSource::LookupAggreg => &self.lookup_aggreg,
            EvalSource::LookupTable => &self.lookup_table,
            EvalSource::LookupKindIndex(i) => &self.lookup_selectors[i],
            EvalSource::Index(i) => match &self.index[i] {
                Some(e) => e,
                None => unreached(),
            },
        }
    }

    /// Returns the domain a tag stands for.
    pub fn get_domain(&self, t: DomainTag) -> (r: Domain)
        requires
            self.wf(),
        ensures
            r == self.tag_domain(t),
            r.wf(),
    {
        match t {
            DomainTag::D1 => self.domain.d1,
            DomainTag::D4 => self.domain.d4,
            DomainTag::D8 => self.domain.d8,
        }
    }
}

/// Reading a strided, shifted view: the value at target index `i` comes
/// from source index `stride * i + shift`, wrapped at the vector length.
pub open spec fn sub_read(v: Seq<nat>, stride: int, shift: int, i: int) -> nat {
    v[(stride * i + shift) % (v.len() as int)]
}

/// A value produced while evaluating an expression over a domain:
/// a constant, an owned vector on an extended domain, or a strided view
/// into one of the environment's vectors.
pub enum EvalResult {
    Constant(Fp),
    Evals { domain: DomainTag, evals: Evaluations },
    SubEvals { domain: DomainTag, shift: usize, evals: EvalSource },
}

/// The size of the target domain in the environment.
pub open spec fn tag_n(env: Environment, t: DomainTag) -> nat {
    env.tag_domain(t).n()
}

/// The result is usable on target tag `t`: an owned vector carries the
/// target tag and lives on the target domain; a view points at an existing
/// vector on a domain at least as large, with a shift of at most one.
pub open spec fn er_ok(er: EvalResult, env: Environment, t: DomainTag) -> bool {
    match er {
        EvalResult::Constant(x) => x.wf(),
        EvalResult::Evals { domain, evals } => domain == t && evals.wf() && evals.domain
            == env.tag_domain(t),
        EvalResult::SubEvals { domain, shift, evals } => env.source_ok(evals) && tag_factor(domain)
            >= tag_factor(t) && shift <= 1,
    }
}

/// The value an evaluation result takes at index `i` of the target domain.
pub open spec fn er_read(er: EvalResult, env: Environment, t: DomainTag, i: int) -> nat {
    match er {
        EvalResult::Constant(x) => x.val(),
        EvalResult::Evals { domain, evals } => evals.vals()[i],
        EvalResult::SubEvals { domain, shift, evals } => sub_read(
            env.source_vals(evals),
            (tag_factor(domain) / tag_factor(t)) as int,
            shift as int,
            i,
        ),
    }
}

/// Reads one aligned value of an evaluation result.
pub fn er_get(er: &EvalResult, env: &Environment, t: DomainTag, i: usize) -> (r: Fp)
    requires
        env.wf(),
        er_ok(*er, *env, t),
        (i as int) < tag_n(*env, t),
    ensures
        r.wf(),
        r.val() == er_read(*er, *env, t, i as int),
{
    match er {
        EvalResult::Constant(x) => *x,
        EvalResult::Evals { evals, .. } => evals.evals[i],
        EvalResult::SubEvals { domain, shift, evals } => {
            let src = env.source(*evals);
            let stride = domain.factor() / t.factor();
            let len = src.evals.len();
            proof {
                assert(tag_factor(*domain) / tag_factor(t) == (stride as nat));
                assert(stride <= 8);
                crate::domains::lemma_domain_size_bound(env.tag_domain(t));
                assert(i < 65536);
                crate::domains::lemma_domain_size_bound(env.domain.d8);
                assert(len >= 1);
                vstd::arithmetic::mul::lemma_mul_upper_bound(
                    stride as int,
                    8,
                    i as int,
                    65535,
                );
            }
            let idx = (stride * (i as u64) + (*shift as u64)) % (len as u64);
            proof {
                assert(idx as int == (stride as int * i as int + *shift as int) % (len as int));
                vstd::arithmetic::div_mod::lemma_mod_bound(
                    stride as int * i as int + *shift as int,
                    len as int,
                );
            }
            src.evals[idx as usize]
        },
    }
}

impl EvalResult {
    /// Element-wise sum on the target domain.  Two constants stay a
    /// constant; anything else is materialized as a fresh vector.
    pub fn add(self, other: EvalResult, t: DomainTag, env: &Environment) -> (r: EvalResult)
        requires
            env.wf(),
            er_ok(self, *env, t),
            er_ok(other, *env, t),
        ensures
            er_ok(r, *env, t),
            r is Constant <==> (self is Constant && other is Constant),
            forall|i: int|
                0 <= i < tag_n(*env, t) ==> er_read(r, *env, t, i) == fadd(
                    er_read(self, *env, t, i),
                    er_read(other, *env, t, i),
                ),
    {
        match (&self, &other) {
            (EvalResult::Constant(x), EvalResult::Constant(y)) => EvalResult::Constant(x.add(*y)),
            _ => {
                let dom = env.get_domain(t);
                proof {
                    crate::domains::lemma_domain_size_bound(dom);
                }
                let n = dom.size as usize;
                let mut out: Vec<Fp> = Vec::new();
                let mut i: usize = 0;
                while i < n
                    invariant
                        env.wf(),
                        er_ok(self, *env, t),
                        er_ok(other, *env, t),
                        dom == env.tag_domain(t),
                        n == tag_n(*env, t),
                        0 <= i <= n,
                        out@.len() == i,
                        forall|j: int|
                            0 <= j < i ==> (#[trigger] out@[j]).wf() && out@[j].val() == fadd(
                                er_read(self, *env, t, j),
                                er_read(other, *env, t, j),
                            ),
                    decreases n - i,
                {
                    let a = er_get(&self, env, t, i);
                    let b = er_get(&other, env, t, i);
                    out.push(a.add(b));
                    i += 1;
                }
                proof {
                    assert(Evaluations { evals: out, domain: dom }.vals() =~= out@.map_values(
                        |f: Fp| f.val(),
                    ));
                }
                EvalResult::Evals { domain: t, evals: Evaluations { evals: out, domain: dom } }
            },
        }
    }

    /// Element-wise difference on the target domain.
    pub fn sub(self, other: EvalResult, t: DomainTag, env: &Environment) -> (r: EvalResult)
        requires
            env.wf(),
            er_ok(self, *env, t),
            er_ok(other, *env, t),
        ensures
            er_ok(r, *env, t),
            r is Constant <==> (self is Constant && other is Constant),
            forall|i: int|
                0 <= i < tag_n(*env, t) ==> er_read(r, *env, t, i) == fsub(
                    er_read(self, *env, t, i),
                    er_read(other, *env, t, i),
                ),
    {
        match (&self, &other) {
            (EvalResult::Constant(x), EvalResult::Constant(y)) => EvalResult::Constant(x.sub(*y)),
            _ => {
                let dom = env.get_domain(t);
                proof {
                    crate::domains::lemma_domain_size_bound(dom);
                }
                let n = dom.size as usize;
                let mut out: Vec<Fp> = Vec::new();
                let mut i: usize = 0;
                while i < n
                    invariant
                        env.wf(),
                        er_ok(self, *env, t),
                        er_ok(other, *env, t),
                        dom == env.tag_domain(t),
                        n == tag_n(*env, t),
                        0 <= i <= n,
                        out@.len() == i,
                        forall|j: int|
                            0 <= j < i ==> (#[trigger] out@[j]).wf() && out@[j].val() == fsub(
                                er_read(self, *env, t, j),
                                er_read(other, *env, t, j),
                            ),
                    decreases n - i,
                {
                    let a = er_get(&self, env, t, i);
                    let b = er_get(&other, env, t, i);
                    out.push(a.sub(b));
                    i += 1;
                }
                EvalResult::Evals { domain: t, evals: Evaluations { evals: out, domain: dom } }
            },
        }
    }

    /// Element-wise product on the target domain.
    pub fn mul(self, other: EvalResult, t: DomainTag, env: &Environment) -> (r: EvalResult)
        requires
            env.wf(),
            er_ok(self, *env, t),
            er_ok(other, *env, t),
        ensures
            er_ok(r, *env, t),
            r is Constant <==> (self is Constant && other is Constant),
            forall|i: int|
                0 <= i < tag_n(*env, t) ==> er_read(r, *env, t, i) == fmul(
                    er_read(self, *env, t, i),
                    er_read(other, *env, t, i),
                ),
    {
        match (&self, &other) {
            (EvalResult::Constant(x), EvalResult::Constant(y)) => EvalResult::Constant(x.mul(*y)),
            _ => {
                let dom = env.get_domain(t);
                proof {
                    crate::domains::lemma_domain_size_bound(dom);
                }
                let n = dom.size as usize;
                let mut out: Vec<Fp> = Vec::new();
                let mut i: usize = 0;
                while i < n
                    invariant
                        env.wf(),
                        er_ok(self, *env, t),
                        er_ok(other, *env, t),
                        dom == env.tag_domain(t),
                        n == tag_n(*env, t),
                        0 <= i <= n,
                        out@.len() == i,
                        forall|j: int|
                            0 <= j < i ==> (#[trigger] out@[j]).wf() && out@[j].val() == fmul(
                                er_read(self, *env, t, j),
                                er_read(other, *env, t, j),
                            ),
                    decreases n - i,
                {
                    let a = er_get(&self, env, t, i);
                    let b = er_get(&other, env, t, i);
                    out.push(a.mul(b));
                    i += 1;
                }
                EvalResult::Evals { domain: t, evals: Evaluations { evals: out, domain: dom } }
            },
        }
    }
}

/// `x^0, ..., x^(n-1)` (always at least `[1, x]` for a positive count).
pub fn pows(x: Fp, n: usize) -> (r: Vec<Fp>)
    requires
        x.wf(),
    ensures
        r@.len() == if n == 0 { 1int } else if n == 1 { 2int } else { n as int },
        forall|i: int|
            0 <= i < r@.len() ==> (#[trigger] r@[i]).wf() && r@[i].val() == fpow(x.val(), i as nat),
{
    let mut v: Vec<Fp> = Vec::new();
    v.push(Fp::one());
    if n == 0 {
        return v;
    }
    proof {
        reveal_with_fuel(fpow, 2);
        assert(x.val() * 1 == x.val()) by {
            vstd::arithmetic::mul::lemma_mul_basics(x.val() as int);
        }
    }
    v.push(x);
    let mut i: usize = 2;
    while i < n
        invariant
            x.wf(),
            2 <= i,
            n >= 2 ==> i <= n,
            n < 2 ==> i == 2,
            v@.len() == i,
            forall|t: int|
                0 <= t < i ==> (#[trigger] v@[t]).wf() && v@[t].val() == fpow(x.val(), t as nat),
        decreases n - i,
    {
        let prev = v[i - 1];
        proof {
            lemma_fmul_comm(prev.val(), x.val());
        }
        v.push(prev.mul(x));
        i += 1;
    }
    v
}

/// The running product `(1 - w)(1 - w^2) ... (1 - w^(m-1))`.
pub open spec fn l01_partial(w: nat, m: nat) -> nat
    decreases m,
{
    if m <= 1 {
        1
    } else {
        fmul(l01_partial(w, (m - 1) as nat), fsub(1, fpow(w, (m - 1) as nat)))
    }
}

/// `prod_(j != 0) (1 - w^j)` over the domain: the value of the
/// unnormalized Lagrange polynomial `l_0` at the point `1`.
pub fn l0_1(d: Domain) -> (r: Fp)
    requires
        d.wf(),
    ensures
        r.wf(),
        r.val() == l01_partial(d.w(), d.n()),
{
    let mut omega_j = d.group_gen;
    let mut res = Fp::one();
    let mut j: u64 = 1;
    proof {
        crate::domains::lemma_domain_size_bound(d);
        reveal_with_fuel(fpow, 2);
        assert(d.w() * 1 == d.w()) by {
            vstd::arithmetic::mul::lemma_mul_basics(d.w() as int);
        }
    }
    while j < d.size
        invariant
            d.wf(),
            1 <= j <= d.size,
            omega_j.wf(),
            res.wf(),
            omega_j.val() == fpow(d.w(), j as nat),
            res.val() == l01_partial(d.w(), j as nat),
        decreases d.size - j,
    {
        let one = Fp::one();
        res = res.mul(one.sub(omega_j));
        proof {
            lemma_fmul_comm(omega_j.val(), d.w());
        }
        omega_j = omega_j.mul(d.group_gen);
        j += 1;
    }
    res
}

/// The extended domain of a tag has `factor` times the base size.
pub proof fn lemma_tag_domain_size(env: Environment, t: DomainTag)
    requires
        env.wf(),
    ensures
        env.tag_domain(t).n() == tag_factor(t) * env.domain.d1.n(),
{
    let d1 = env.domain.d1;
    vstd::arithmetic::power2::lemma2_to64();
    match t {
        DomainTag::D1 => {
            assert(1 * d1.n() == d1.n()) by {
                vstd::arithmetic::mul::lemma_mul_basics(d1.n() as int);
            }
        },
        DomainTag::D4 => {
            vstd::arithmetic::power2::lemma_pow2_adds(2, d1.log_size as nat);
        },
        DomainTag::D8 => {
            vstd::arithmetic::power2::lemma_pow2_adds(3, d1.log_size as nat);
        },
    }
}

/// The denominator of the coset formula: `w^q g^r - w^j`.
pub open spec fn ulag_den(w: nat, g: nat, j: int, q: int, r: int) -> nat {
    fsub(fmul(fpow(w, q as nat), fpow(g, r as nat)), fpow(w, j as nat))
}

/// The value of the unnormalized Lagrange polynomial `l_j` at the point
/// `g^(q k + r)` of the extended domain of stride `k`: zero on the base
/// domain except at `w^j` itself, where it is `w^(-j) l0_1`; at a proper
/// coset point it is `((g^n)^r - 1) / (w^q g^r - w^j)`.
pub open spec fn ulag_sem(l01: nat, n: nat, w: nat, g: nat, j: int, q: int, r: int) -> nat {
    if r == 0 {
        if q == j {
            fmul(fpow(w, (n - j) as nat), l01)
        } else {
            0
        }
    } else {
        fmul(fsub(fpow(fpow(g, n), r as nat), 1), crate::modarith::finv(ulag_den(w, g, j, q, r)))
    }
}

/// Computes the evaluations of the unnormalized Lagrange polynomial
/// `l_j(x) = (x^n - 1) / (x - w^j)` over the chosen extended domain: the
/// coset denominators are collected in one vector with placeholder ones in
/// the base-domain slots, inverted by a single batch inversion, and scaled
/// by the numerators; the base-domain slots take their known values.
pub fn unnormalized_lagrange_evals(
    l0_1: Fp,
    j: usize,
    res_domain: DomainTag,
    env: &Environment,
) -> (res: Evaluations)
    requires
        env.wf(),
        l0_1.wf(),
        (j as nat) < env.domain.d1.n(),
    ensures
        res.wf(),
        res.domain == env.tag_domain(res_domain),
        forall|q: int, r: int|
            0 <= q < env.domain.d1.n() && 0 <= r < tag_factor(res_domain)
                ==> res.vals()[#[trigger] (q * tag_factor(res_domain) + r)] == ulag_sem(
                l0_1.val(),
                env.domain.d1.n(),
                env.domain.d1.w(),
                env.tag_domain(res_domain).w(),
                j as int,
                q,
                r,
            ),
{
    let k = res_domain.factor();
    let rd = env.get_domain(res_domain);
    let d1 = env.domain.d1;
    let n = d1.size;
    proof {
        crate::domains::lemma_domain_size_bound(d1);
        crate::domains::lemma_domain_size_bound(rd);
        lemma_tag_domain_size(*env, res_domain);
    }
    let ghost nn = d1.n();
    let ghost w = d1.w();
    let ghost g = rd.w();
    let ghost kk = tag_factor(res_domain) as int;
    let ghost l01 = l0_1.val();
    let omega = d1.group_gen;
    let omega_j = omega.pow(j as u64);
    let omega_minus_j = omega.pow(n - j as u64);
    let gn = rd.group_gen.pow(n);
    let omega_k_n_pows = pows(gn, k as usize);
    let omega_k_pows = pows(rd.group_gen, k as usize);
    let total = rd.size as usize;

    // denominators, with placeholder ones in the base-domain slots
    let mut v: Vec<Fp> = Vec::new();
    let mut idx: usize = 0;
    while idx < total
        invariant
            env.wf(),
            d1 == env.domain.d1,
            rd == env.tag_domain(res_domain),
            rd.wf(),
            nn == d1.n(),
            w == d1.w(),
            g == rd.w(),
            kk == tag_factor(res_domain) as int,
            1 <= kk <= 8,
            k as int == kk,
            (j as nat) < nn,
            total == rd.size,
            total as int == kk * nn,
            nn <= 65536,
            omega == d1.group_gen,
            omega_j.wf() && omega_j.val() == fpow(w, j as nat),
            omega_k_pows@.len() >= k,
            forall|t: int|
                0 <= t < omega_k_pows@.len() ==> (#[trigger] omega_k_pows@[t]).wf()
                    && omega_k_pows@[t].val() == fpow(g, t as nat),
            0 <= idx <= total,
            v@.len() == idx,
            forall|t: int|
                0 <= t < idx ==> (#[trigger] v@[t]).wf() && v@[t].val() == (if t % kk == 0 {
                    1nat
                } else {
                    ulag_den(w, g, j as int, t / kk, t % kk)
                }),
        decreases total - idx,
    {
        let r = (idx as u64) % k;
        let q = (idx as u64) / k;
        if r == 0 {
            v.push(Fp::one());
        } else {
            let wq = omega.pow(q);
            let term = wq.mul(omega_k_pows[r as usize]).sub(omega_j);
            v.push(term);
        }
        idx += 1;
    }

    // one batch inversion over the whole vector
    let ghost v_den = v@;
    crate::field::batch_inversion(&mut v);
    proof {
        assert forall|t: int| 0 <= t < total implies (#[trigger] v@[t]).wf() && v@[t].val() == (
        if t % kk == 0 {
            crate::modarith::finv(1nat)
        } else {
            crate::modarith::finv(ulag_den(w, g, j as int, t / kk, t % kk))
        }) by {
            assert(v@.len() == v_den.len());
            assert(0 <= t < v_den.len());
            assert(v_den[t].wf());
            assert(v@[t].wf() && v@[t].val() == crate::modarith::finv(v_den[t].val()));
        }
    }

    // fix up the base-domain slots and scale the coset slots
    let mut idx2: usize = 0;
    while idx2 < total
        invariant
            env.wf(),
            d1 == env.domain.d1,
            rd == env.tag_domain(res_domain),
            rd.wf(),
            nn == d1.n(),
            w == d1.w(),
            g == rd.w(),
            kk == tag_factor(res_domain) as int,
            1 <= kk <= 8,
            k as int == kk,
            (j as nat) < nn,
            total == rd.size,
            total as int == kk * nn,
            nn <= 65536,
            l01 == l0_1.val(),
            l0_1.wf(),
            omega_minus_j.wf() && omega_minus_j.val() == fpow(w, (nn - j as nat) as nat),
            gn.wf() && gn.val() == fpow(g, nn),
            omega_k_n_pows@.len() >= k,
            forall|t: int|
                0 <= t < omega_k_n_pows@.len() ==> (#[trigger] omega_k_n_pows@[t]).wf()
                    && omega_k_n_pows@[t].val() == fpow(fpow(g, nn), t as nat),
            0 <= idx2 <= total,
            v@.len() == total,
            forall|t: int|
                idx2 <= t < total ==> (#[trigger] v@[t]).wf() && v@[t].val() == (if t % kk == 0 {
                    crate::modarith::finv(1nat)
                } else {
                    crate::modarith::finv(ulag_den(w, g, j as int, t / kk, t % kk))
                }),
            forall|t: int|
                0 <= t < idx2 ==> (#[trigger] v@[t]).wf() && v@[t].val() == ulag_sem(
                    l01,
                    nn,
                    w,
                    g,
                    j as int,
                    t / kk,
                    t % kk,
                ),
        decreases total - idx2,
    {
        let r = (idx2 as u64) % k;
        let q = (idx2 as u64) / k;
        if r == 0 {
            if q == j as u64 {
                v.set(idx2, omega_minus_j.mul(l0_1));
            } else {
                v.set(idx2, Fp::zero());
            }
        } else {
            let one = Fp::one();
            let cur = v[idx2];
            let num = omega_k_n_pows[r as usize].sub(one);
            proof {
                lemma_fmul_comm(cur.val(), num.val());
            }
            v.set(idx2, cur.mul(num));
        }
        idx2 += 1;
    }
    let res = Evaluations { evals: v, domain: rd };
    proof {
        assert forall|q: int, r: int|
            0 <= q < nn && 0 <= r < kk implies res.vals()[#[trigger] (q * kk + r)] == ulag_sem(
            l01,
            nn,
            w,
            g,
            j as int,
            q,
            r,
        ) by {
            let t = q * kk + r;
            vstd::arithmetic::div_mod::lemma_fundamental_div_mod_converse(t, kk, q, r);
            assert(0 <= t < total) by {
                assert(q * kk + r < kk * nn) by {
                    vstd::arithmetic::mul::lemma_mul_inequality(q + 1, nn as int, kk);
                    vstd::arithmetic::mul::lemma_mul_is_distributive_add_other_way(kk, q, 1);
                    vstd::arithmetic::mul::lemma_mul_is_commutative(q + 1, kk);
                }
                vstd::arithmetic::mul::lemma_mul_nonnegative(q, kk);
            }
            assert(v@[t].val() == ulag_sem(l01, nn, w, g, j as int, t / kk, t % kk));
        }
    }
    res
}

/// The value a cell takes at index `i` of the target domain: the named
/// environment vector, read through the stride-and-shift alignment rule;
/// a selector of a gate family the environment does not carry is zero.
pub open spec fn cell_evals_sem(v: crate::expr::Variable, env: Environment, t: DomainTag, i: int) -> nat {
    let shift = if v.row is Next {
        1int
    } else {
        0int
    };
    let stride = (8nat / tag_factor(t)) as int;
    match v.col {
        crate::expr::Column::Witness(j) => sub_read(env.witness@[j as int].vals(), stride, shift, i),
        crate::expr::Column::Z => sub_read(env.z.vals(), stride, shift, i),
        crate::expr::Column::LookupSorted(j) => sub_read(
            env.lookup_sorted@[j as int].vals(),
            stride,
            shift,
            i,
        ),
        crate::expr::Column::LookupAggreg => sub_read(env.lookup_aggreg.vals(), stride, shift, i),
        crate::expr::Column::LookupTable => sub_read(env.lookup_table.vals(), stride, shift, i),
        crate::expr::Column::LookupKindIndex(j) => sub_read(
            env.lookup_selectors@[j as int].vals(),
            stride,
            shift,
            i,
        ),
        crate::expr::Column::Index(g) => {
            if env.index@[crate::expr::gate_rank(g) as int] is Some {
                sub_read(
                    env.index@[crate::expr::gate_rank(g) as int]->Some_0.vals(),
                    stride,
                    shift,
                    i,
                )
            } else {
                0
            }
        },
    }
}

/// The value the expression takes at index `i` of the target domain,
/// reading cells from the environment's precomputed vectors.
pub open spec fn evals_sem(e: crate::expr::Expr, env: Environment, t: DomainTag, i: int) -> nat
    decreases e,
{
    match e {
        crate::expr::Expr::Constant(x) => x.val(),
        crate::expr::Expr::Alpha { power } => fpow(env.alpha.val(), power as nat),
        crate::expr::Expr::Beta => env.beta.val(),
        crate::expr::Expr::Gamma => env.gamma.val(),
        crate::expr::Expr::JointCombiner { power } => fpow(env.joint_combiner.val(), power as nat),
        crate::expr::Expr::ZkPolynomial => sub_read(
            env.zk_polynomial.vals(),
            (8nat / tag_factor(t)) as int,
            0,
            i,
        ),
        crate::expr::Expr::UnnormalizedLagrangeBasis(j) => ulag_sem(
            env.l0_1.val(),
            env.domain.d1.n(),
            env.domain.d1.w(),
            env.tag_domain(t).w(),
            j as int,
            i / (tag_factor(t) as int),
            i % (tag_factor(t) as int),
        ),
        crate::expr::Expr::Cell(v) => cell_evals_sem(v, env, t, i),
        crate::expr::Expr::Mul(x, y) => fmul(evals_sem(*x, env, t, i), evals_sem(*y, env, t, i)),
        crate::expr::Expr::Add(x, y) => fadd(evals_sem(*x, env, t, i), evals_sem(*y, env, t, i)),
        crate::expr::Expr::Sub(x, y) => fsub(evals_sem(*x, env, t, i), evals_sem(*y, env, t, i)),
    }
}

/// The expression's cells and constants fit the environment: constants
/// are reduced, column indices stay inside the environment's vectors, and
/// Lagrange indices stay inside the base domain.
pub open spec fn expr_env_ok(e: crate::expr::Expr, env: Environment) -> bool
    decreases e,
{
    match e {
        crate::expr::Expr::Constant(x) => x.wf(),
        crate::expr::Expr::Cell(v) => match v.col {
            crate::expr::Column::Witness(j) => (j as int) < env.witness@.len(),
            crate::expr::Column::LookupSorted(j) => (j as int) < env.lookup_sorted@.len(),
            crate::expr::Column::LookupKindIndex(j) => (j as int) < env.lookup_selectors@.len(),
            _ => true,
        },
        crate::expr::Expr::UnnormalizedLagrangeBasis(j) => (j as nat) < env.domain.d1.n(),
        crate::expr::Expr::Mul(x, y) => expr_env_ok(*x, env) && expr_env_ok(*y, env),
        crate::expr::Expr::Add(x, y) => expr_env_ok(*x, env) && expr_env_ok(*y, env),
        crate::expr::Expr::Sub(x, y) => expr_env_ok(*x, env) && expr_env_ok(*y, env),
        _ => true,
    }
}

/// The row shift of a cell: the current row reads in place, the next row
/// reads one source step ahead.
pub fn curr_or_next(row: crate::expr::CurrOrNext) -> (r: usize)
    ensures
        r == if row is Next {
            1int
        } else {
            0int
        },
{
    match row {
        crate::expr::CurrOrNext::Curr => 0,
        crate::expr::CurrOrNext::Next => 1,
    }
}

impl crate::expr::Expr {
    /// Evaluates the expression over the chosen extended domain, keeping
    /// views and constants symbolic for as long as possible.
    fn evaluations_(&self, d: DomainTag, env: &Environment) -> (r: EvalResult)
        requires
            env.wf(),
            expr_env_ok(*self, *env),
        ensures
            er_ok(r, *env, d),
            forall|i: int|
                0 <= i < tag_n(*env, d) ==> er_read(r, *env, d, i) == evals_sem(*self, *env, d, i),
        decreases self,
    {
        match self {
            crate::expr::Expr::ZkPolynomial => EvalResult::SubEvals {
                domain: DomainTag::D8,
                shift: 0,
                evals: EvalSource::ZkPolynomial,
            },
            crate::expr::Expr::Constant(x) => EvalResult::Constant(*x),
            crate::expr::Expr::Alpha { power } => EvalResult::Constant(
                env.alpha.pow(*power as u64),
            ),
            crate::expr::Expr::Beta => EvalResult::Constant(env.beta),
            crate::expr::Expr::Gamma => EvalResult::Constant(env.gamma),
            crate::expr::Expr::JointCombiner { power } => EvalResult::Constant(
                env.joint_combiner.pow(*power as u64),
            ),
            crate::expr::Expr::UnnormalizedLagrangeBasis(j) => {
                let ev = unnormalized_lagrange_evals(env.l0_1, *j, d, env);
                proof {
                    lemma_tag_domain_size(*env, d);
                    crate::domains::lemma_domain_size_bound(env.tag_domain(d));
                    let kk = tag_factor(d) as int;
                    let nn = env.domain.d1.n() as int;
                    assert forall|i: int| 0 <= i < tag_n(*env, d) implies ev.vals()[i] == ulag_sem(
                        env.l0_1.val(),
                        env.domain.d1.n(),
                        env.domain.d1.w(),
                        env.tag_domain(d).w(),
                        *j as int,
                        i / kk,
                        i % kk,
                    ) by {
                        let q = i / kk;
                        let r2 = i % kk;
                        vstd::arithmetic::div_mod::lemma_fundamental_div_mod(i, kk);
                        vstd::arithmetic::div_mod::lemma_mod_bound(i, kk);
                        assert(0 <= q < nn) by {
                            vstd::arithmetic::div_mod::lemma_div_pos_is_pos(i, kk);
                            vstd::arithmetic::div_mod::lemma_multiply_divide_lt(i, nn, kk);
                            vstd::arithmetic::mul::lemma_mul_is_commutative(nn, kk);
                        }
                        assert(ev.vals()[q * kk + r2] == ulag_sem(
                            env.l0_1.val(),
                            env.domain.d1.n(),
                            env.domain.d1.w(),
                            env.tag_domain(d).w(),
                            *j as int,
                            q,
                            r2,
                        ));
                    }
                }
                EvalResult::Evals { domain: d, evals: ev }
            },
            crate::expr::Expr::Cell(var) => {
                let shift = curr_or_next(var.row);
                let src = match &var.col {
                    crate::expr::Column::Witness(j) => EvalSource::Witness(*j),
                    crate::expr::Column::Z => EvalSource::Z,
                    crate::expr::Column::LookupSorted(j) => EvalSource::LookupSorted(*j),
                    crate::expr::Column::LookupAggreg => EvalSource::LookupAggreg,
                    crate::expr::Column::LookupTable => EvalSource::LookupTable,
                    crate::expr::Column::LookupKindIndex(j) => EvalSource::LookupKindIndex(*j),
                    crate::expr::Column::Index(g) => {
                        let rank = crate::expr::exec_gate_rank(*g) as usize;
                        match &env.index[rank] {
                            None => {
                                return EvalResult::Constant(Fp::zero());
                            },
                            Some(_) => EvalSource::Index(rank),
                        }
                    },
                };
                EvalResult::SubEvals { domain: DomainTag::D8, shift, evals: src }
            },
            crate::expr::Expr::Mul(x, y) => {
                let a = (**x).evaluations_(d, env);
                let b = (**y).evaluations_(d, env);
                a.mul(b, d, env)
            },
            crate::expr::Expr::Add(x, y) => {
                let a = (**x).evaluations_(d, env);
                let b = (**y).evaluations_(d, env);
                a.add(b, d, env)
            },
            crate::expr::Expr::Sub(x, y) => {
                let a = (**x).evaluations_(d, env);
                let b = (**y).evaluations_(d, env);
                a.sub(b, d, env)
            },
        }
    }
}

/// The smallest extended domain whose size accommodates the degree bound.
pub open spec fn pick_tag(deg: nat, n: nat) -> DomainTag {
    if deg <= n {
        DomainTag::D1
    } else if deg <= 4 * n {
        DomainTag::D4
    } else {
        DomainTag::D8
    }
}

impl crate::expr::Expr {
    /// Evaluates the expression over the smallest extended domain its
    /// degree bound allows, and materializes the result there.
    pub fn evaluations(&self, env: &Environment) -> (r: Evaluations)
        requires
            env.wf(),
            expr_env_ok(*self, *env),
            crate::expr::degree_ok(*self, env.domain.d1.n()),
            crate::expr::degree_sem(*self, env.domain.d1.n()) <= 8 * env.domain.d1.n(),
        ensures
            r.wf(),
            r.domain == env.tag_domain(
                pick_tag(crate::expr::degree_sem(*self, env.domain.d1.n()), env.domain.d1.n()),
            ),
            forall|i: int|
                0 <= i < r.vals().len() ==> r.vals()[i] == evals_sem(
                    *self,
                    *env,
                    pick_tag(
                        crate::expr::degree_sem(*self, env.domain.d1.n()),
                        env.domain.d1.n(),
                    ),
                    i,
                ),
    {
        proof {
            crate::domains::lemma_domain_size_bound(env.domain.d1);
        }
        let d1_size = env.domain.d1.size;
        let deg = self.degree(d1_size);
        let d = if deg <= d1_size {
            DomainTag::D1
        } else if deg <= 4 * d1_size {
            DomainTag::D4
        } else {
            DomainTag::D8
        };
        let er = self.evaluations_(d, env);
        match er {
            EvalResult::Evals { evals, .. } => evals,
            er2 => {
                let dom = env.get_domain(d);
                proof {
                    crate::domains::lemma_domain_size_bound(dom);
                }
                let n = dom.size as usize;
                let mut out: Vec<Fp> = Vec::new();
                let mut i: usize = 0;
                while i < n
                    invariant
                        env.wf(),
                        er_ok(er2, *env, d),
                        forall|t: int|
                            0 <= t < tag_n(*env, d) ==> er_read(er2, *env, d, t) == evals_sem(
                                *self,
                                *env,
                                d,
                                t,
                            ),
                        dom == env.tag_domain(d),
                        n == tag_n(*env, d),
                        0 <= i <= n,
                        out@.len() == i,
                        forall|t: int|
                            0 <= t < i ==> (#[trigger] out@[t]).wf() && out@[t].val() == evals_sem(
                                *self,
                                *env,
                                d,
                                t,
                            ),
                    decreases n - i,
                {
                    let x = er_get(&er2, env, d, i);
                    out.push(x);
                    i += 1;
                }
                Evaluations { evals: out, domain: dom }
            },
        }
    }
}

} // verus!
