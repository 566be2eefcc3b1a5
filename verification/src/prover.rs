//! The field-level computations of the prover pipeline: the proof record,
//! the permutation grand product with its closure check, and the random
//! hiding blinders.  The elliptic-curve commitments, the Fiat-Shamir
//! sponge and the FFT layer are outside collaborators; the proof record
//! carries their outputs as plain data.

use vstd::prelude::*;
use crate::modarith::{
    fadd, fsub, fmul, finv, lemma_finv_one, P,
};
use crate::field::Fp;
use crate::domains::Domain;
use crate::dense_polynomial::{DensePolynomial, coef_at};

verus! {

/// Why proof creation failed.
#[derive(Clone, Copy, PartialEq, Eq, Structural, Debug)]
pub enum ProofError {
    WitnessCsInconsistent,
    PolyDivision,
    ProofCreation,
}

/// The per-polynomial evaluations a proof carries for one point: the
/// wires, the grand product, the quotient, the linearization, and two
/// permutation polynomials.  `Fs` is a scalar or a chunk vector.
#[derive(Clone, Debug)]
pub struct ProofEvaluations<Fs> {
    pub l: Fs,
    pub r: Fs,
    pub o: Fs,
    pub z: Fs,
    pub t: Fs,
    pub f: Fs,
    pub sigma1: Fs,
    pub sigma2: Fs,
}

/// A polynomial commitment: one curve point per chunk, plus an optional
/// shifted point.  The curve is an outside collaborator, so the point
/// type is a parameter.
#[derive(Clone, Debug)]
pub struct PolyComm<G> {
    pub unshifted: Vec<G>,
    pub shifted: Option<G>,
}

/// A batched opening proof, as the commitment scheme hands it back.
#[derive(Clone, Debug)]
pub struct OpeningProof<G> {
    pub lr: Vec<(G, G)>,
    pub delta: G,
    pub z1: Fp,
    pub z2: Fp,
    pub sg: G,
}

/// The commitments a proof carries: one per wire column, the grand
/// product, and the quotient.
#[derive(Clone, Debug)]
pub struct ProverCommitments<G> {
    pub w_comm: Vec<PolyComm<G>>,
    pub z_comm: PolyComm<G>,
    pub t_comm: PolyComm<G>,
}

/// A complete proof: commitments, the batched opening proof, the chunked
/// evaluations at the challenge and its shift, the linearization's shifted
/// evaluation, the public input slice, and the folded challenges of
/// earlier proofs.
#[derive(Clone, Debug)]
pub struct ProverProof<G> {
    pub commitments: ProverCommitments<G>,
    pub proof: OpeningProof<G>,
    pub evals: Vec<ProofEvaluations<Vec<Fp>>>,
    pub ft_eval1: Fp,
    pub public: Vec<Fp>,
    pub prev_challenges: Vec<(Vec<Fp>, PolyComm<G>)>,
}

/// The denominator of row `j` of the permutation product:
/// `prod_col (w_col[j] + sigma_col[j] beta + gamma)` over the three wires.
pub open spec fn perm_den(
    w: Seq<nat>,
    s0: Seq<nat>,
    s1: Seq<nat>,
    s2: Seq<nat>,
    beta: nat,
    gamma: nat,
    n: int,
    j: int,
) -> nat {
    fmul(
        fmul(
            fadd(fadd(w[j], fmul(s0[j], beta)), gamma),
            fadd(fadd(w[j + n], fmul(s1[j], beta)), gamma),
        ),
        fadd(fadd(w[j + 2 * n], fmul(s2[j], beta)), gamma),
    )
}

/// The grand product after `j` rows: `z[0] = 1` and each row multiplies
/// by its identity-permutation factors and the inverse of its sigma
/// factors.
pub open spec fn perm_z(
    w: Seq<nat>,
    s0: Seq<nat>,
    s1: Seq<nat>,
    s2: Seq<nat>,
    sid: Seq<nat>,
    beta: nat,
    gamma: nat,
    rr: nat,
    oo: nat,
    n: int,
    j: int,
) -> nat
    decreases j,
{
    if j <= 0 {
        1
    } else {
        let t = j - 1;
        fmul(
            finv(perm_den(w, s0, s1, s2, beta, gamma, n, t)),
            fmul(
                fmul(
                    fmul(
                        perm_z(w, s0, s1, s2, sid, beta, gamma, rr, oo, n, t),
                        fadd(fadd(w[t], fmul(sid[t], beta)), gamma),
                    ),
                    fadd(fadd(w[t + n], fmul(fmul(sid[t], beta), rr)), gamma),
                ),
                fadd(fadd(w[t + 2 * n], fmul(fmul(sid[t], beta), oo)), gamma),
            ),
        )
    }
}

/// All entries of a vector are reduced residues.
pub open spec fn all_wf(v: Seq<Fp>) -> bool {
    forall|i: int| 0 <= i < v.len() ==> (#[trigger] v[i]).wf()
}

/// The values of a vector of field elements.
pub open spec fn vals_of(v: Seq<Fp>) -> Seq<nat> {
    v.map_values(|f: Fp| f.val())
}

/// Computes the permutation grand product over the domain rows: the
/// returned vector holds `z[0] = 1` and each successive partial product;
/// creation fails exactly when the product does not close back to one
/// after the last row.  The denominators are inverted by one batch
/// inversion.
pub fn perm_aggreg(
    witness: &Vec<Fp>,
    sigma0: &Vec<Fp>,
    sigma1: &Vec<Fp>,
    sigma2: &Vec<Fp>,
    sid: &Vec<Fp>,
    beta: Fp,
    gamma: Fp,
    shift_r: Fp,
    shift_o: Fp,
) -> (res: Result<Vec<Fp>, ProofError>)
    requires
        witness@.len() == 3 * sigma0@.len(),
        sigma1@.len() == sigma0@.len(),
        sigma2@.len() == sigma0@.len(),
        sid@.len() == sigma0@.len(),
        all_wf(witness@),
        all_wf(sigma0@),
        all_wf(sigma1@),
        all_wf(sigma2@),
        all_wf(sid@),
        beta.wf(),
        gamma.wf(),
        shift_r.wf(),
        shift_o.wf(),
    ensures
        res is Ok <==> perm_z(
            vals_of(witness@),
            vals_of(sigma0@),
            vals_of(sigma1@),
            vals_of(sigma2@),
            vals_of(sid@),
            beta.val(),
            gamma.val(),
            shift_r.val(),
            shift_o.val(),
            sigma0@.len() as int,
            sigma0@.len() as int,
        ) == 1,
        res is Err ==> res->Err_0 == ProofError::ProofCreation,
        res is Ok ==> {
            let out = res->Ok_0;
            &&& out@.len() == sigma0@.len()
            &&& all_wf(out@)
            &&& forall|j: int|
                0 <= j < out@.len() ==> vals_of(out@)[j] == perm_z(
                    vals_of(witness@),
                    vals_of(sigma0@),
                    vals_of(sigma1@),
                    vals_of(sigma2@),
                    vals_of(sid@),
                    beta.val(),
                    gamma.val(),
                    shift_r.val(),
                    shift_o.val(),
                    sigma0@.len() as int,
                    j,
                )
        },
{
    let n = sigma0.len();
    let wlen = witness.len();
    let ghost wv = vals_of(witness@);
    let ghost s0v = vals_of(sigma0@);
    let ghost s1v = vals_of(sigma1@);
    let ghost s2v = vals_of(sigma2@);
    let ghost sidv = vals_of(sid@);
    let ghost bb = beta.val();
    let ghost gg = gamma.val();
    let ghost rrv = shift_r.val();
    let ghost oov = shift_o.val();
    let ghost nn = n as int;

    // the denominators of each row, with a leading one
    let mut z: Vec<Fp> = Vec::new();
    z.push(Fp::one());
    let mut j: usize = 0;
    while j < n
        invariant
            n == sigma0@.len(),
            wlen == witness@.len(),
            witness@.len() == 3 * n,
            sigma1@.len() == n,
            sigma2@.len() == n,
            all_wf(witness@),
            all_wf(sigma0@),
            all_wf(sigma1@),
            all_wf(sigma2@),
            beta.wf(),
            gamma.wf(),
            wv == vals_of(witness@),
            s0v == vals_of(sigma0@),
            s1v == vals_of(sigma1@),
            s2v == vals_of(sigma2@),
            bb == beta.val(),
            gg == gamma.val(),
            nn == n as int,
            0 <= j <= n,
            z@.len() == j + 1,
            z@[0].wf() && z@[0].val() == 1,
            forall|t: int|
                1 <= t <= j ==> (#[trigger] z@[t]).wf() && z@[t].val() == perm_den(
                    wv,
                    s0v,
                    s1v,
                    s2v,
                    bb,
                    gg,
                    nn,
                    t - 1,
                ),
        decreases n - j,
    {
        let f1 = witness[j].add(sigma0[j].mul(beta)).add(gamma);
        let f2 = witness[j + n].add(sigma1[j].mul(beta)).add(gamma);
        let f3 = witness[j + 2 * n].add(sigma2[j].mul(beta)).add(gamma);
        z.push(f1.mul(f2).mul(f3));
        j += 1;
    }

    // one batch inversion over all denominators
    let ghost dens = z@;
    crate::field::batch_inversion(&mut z);
    proof {
        lemma_finv_one();
        assert forall|t: int| 0 <= t <= n implies (#[trigger] z@[t]).wf() && z@[t].val() == (
        if t == 0 {
            1nat
        } else {
            finv(perm_den(wv, s0v, s1v, s2v, bb, gg, nn, t - 1))
        }) by {
            assert(z@[t].wf() && z@[t].val() == finv(dens[t].val()));
        }
    }

    // walk forward, multiplying in the identity factors
    let mut j2: usize = 0;
    while j2 < n
        invariant
            n == sigma0@.len(),
            wlen == witness@.len(),
            witness@.len() == 3 * n,
            sid@.len() == n,
            all_wf(witness@),
            all_wf(sid@),
            beta.wf(),
            gamma.wf(),
            shift_r.wf(),
            shift_o.wf(),
            wv == vals_of(witness@),
            s0v == vals_of(sigma0@),
            s1v == vals_of(sigma1@),
            s2v == vals_of(sigma2@),
            sidv == vals_of(sid@),
            bb == beta.val(),
            gg == gamma.val(),
            rrv == shift_r.val(),
            oov == shift_o.val(),
            nn == n as int,
            0 <= j2 <= n,
            z@.len() == n + 1,
            forall|t: int|
                0 <= t <= j2 ==> (#[trigger] z@[t]).wf() && z@[t].val() == perm_z(
                    wv,
                    s0v,
                    s1v,
                    s2v,
                    sidv,
                    bb,
                    gg,
                    rrv,
                    oov,
                    nn,
                    t,
                ),
            forall|t: int|
                j2 < t <= n ==> (#[trigger] z@[t]).wf() && z@[t].val() == finv(
                    perm_den(wv, s0v, s1v, s2v, bb, gg, nn, t - 1),
                ),
        decreases n - j2,
    {
        let x = z[j2];
        let g1 = witness[j2].add(sid[j2].mul(beta)).add(gamma);
        let g2 = witness[j2 + n].add(sid[j2].mul(beta).mul(shift_r)).add(gamma);
        let g3 = witness[j2 + 2 * n].add(sid[j2].mul(beta).mul(shift_o)).add(gamma);
        let cur = z[j2 + 1];
        z.set(j2 + 1, cur.mul(x.mul(g1).mul(g2).mul(g3)));
        j2 += 1;
    }

    // the product must close back to one
    let last = z[n];
    if last.v != 1 {
        return Err(ProofError::ProofCreation);
    }
    let _ = z.pop();
    Ok(z)
}

/// Relies on `rand::random`: a value drawn from the thread-local
/// generator.  Nothing can be promised of a random value.
pub assume_specification<T>[ rand::random::<T> ]() -> (r: T)
    where
        rand::distributions::Standard: rand::distributions::Distribution<T>,
;

/// An arbitrary field element drawn from the process's random generator.
pub fn random_field_element() -> (r: Fp)
    ensures
        r.wf(),
{
    Fp::new(rand::random::<u64>())
}

/// An arbitrary polynomial of the given degree, for hiding.
pub fn rand_poly(degree: usize) -> (r: DensePolynomial)
    requires
        degree < usize::MAX,
    ensures
        r.wf(),
        r.vals().len() == degree + 1,
{
    let mut coeffs: Vec<Fp> = Vec::new();
    let mut i: usize = 0;
    while i < degree + 1
        invariant
            degree < usize::MAX,
            0 <= i <= degree + 1,
            coeffs@.len() == i,
            forall|j: int| 0 <= j < i ==> (#[trigger] coeffs@[j]).wf(),
        decreases degree + 1 - i,
    {
        coeffs.push(random_field_element());
        i += 1;
    }
    DensePolynomial { coeffs }
}

/// The coefficients `r` are those of `p` plus `b(x) (x^n - 1)` for the
/// blinder coefficients `b`.
pub open spec fn blinded(r: Seq<nat>, p: Seq<nat>, b: Seq<nat>, n: nat) -> bool {
    &&& r.len() == if p.len() >= b.len() + n {
        p.len() as int
    } else {
        (b.len() + n) as int
    }
    &&& forall|i: int|
        0 <= i < r.len() ==> r[i] == fadd(
            coef_at(p, i),
            fsub(coef_at(b, i - n), coef_at(b, i)),
        )
}

/// Blinds a polynomial: adds a random multiple of the domain's vanishing
/// polynomial, which leaves its values on the domain unchanged.  Some
/// blinder of the stated degree accounts for every coefficient.
pub fn blind(p: &DensePolynomial, d: Domain, degree: usize) -> (r: DensePolynomial)
    requires
        p.wf(),
        d.wf(),
        degree + 1 + d.size <= usize::MAX,
        p.vals().len() <= usize::MAX - d.size - degree - 1,
    ensures
        r.wf(),
        exists|b: Seq<nat>|
            b.len() == degree + 1 && #[trigger] blinded(r.vals(), p.vals(), b, d.n()),
{
    let blinder = rand_poly(degree);
    let zb = blinder.mul_by_vanishing_poly(d);
    let r = p.add(&zb);
    proof {
        let bv = blinder.vals();
        let nn = d.n();
        assert forall|i: int| 0 <= i < r.vals().len() implies r.vals()[i] == fadd(
            coef_at(p.vals(), i),
            fsub(coef_at(bv, i - nn), coef_at(bv, i)),
        ) by {
            if i < zb.vals().len() {
                assert(coef_at(zb.vals(), i) == zb.vals()[i]);
            } else {
                assert(coef_at(bv, i - nn) == 0);
                assert(coef_at(bv, i) == 0);
                assert(fsub(0nat, 0nat) == 0) by {
                    crate::modarith::lemma_fneg_cancels(0);
                    vstd::arithmetic::div_mod::lemma_small_mod(0nat, P as nat);
                }
            }
        }
        assert(blinded(r.vals(), p.vals(), bv, nn));
    }
    r
}

/// Every witness column must hold one value per row of the domain.
pub fn check_witness_cols(witness: &Vec<Vec<Fp>>, d: Domain) -> (res: Result<(), ProofError>)
    requires
        d.wf(),
    ensures
        res is Ok <==> (forall|i: int|
            0 <= i < witness@.len() ==> (#[trigger] witness@[i])@.len() == d.n()),
        res is Err ==> res->Err_0 == ProofError::WitnessCsInconsistent,
{
    let m = witness.len();
    let mut i: usize = 0;
    while i < m
        invariant
            m == witness@.len(),
            d.wf(),
            0 <= i <= m,
            forall|j: int| 0 <= j < i ==> (#[trigger] witness@[j])@.len() == d.n(),
        decreases m - i,
    {
        if witness[i].len() as u64 != d.size {
            proof {
                assert(witness@[i as int]@.len() != d.n());
            }
            return Err(ProofError::WitnessCsInconsistent);
        }
        i += 1;
    }
    Ok(())
}

/// Divides by the domain's vanishing polynomial and demands an exact
/// division: a nonzero remainder signals a circuit or witness bug, and
/// comes exactly when some low coefficient fails to cancel against the
/// canonical quotient.
#[verifier::rlimit(60)]
pub fn quotient_by_vanishing(p: &DensePolynomial, d: Domain) -> (res: Result<
    DensePolynomial,
    ProofError,
>)
    requires
        p.wf(),
        d.wf(),
    ensures
        res is Err ==> res->Err_0 == ProofError::PolyDivision,
        res is Ok <==> (forall|i: int|
            0 <= i < p.vals().len() && i < d.n() ==> fadd(
                p.vals()[i],
                crate::dense_polynomial::qc_at(p.vals(), d.n(), i),
            ) == 0),
        res is Ok ==> {
            let q = res->Ok_0;
            &&& q.wf()
            &&& q.vals().len() == if p.vals().len() >= d.n() {
                (p.vals().len() - d.n()) as int
            } else {
                0int
            }
            &&& forall|i: int|
                0 <= i < p.vals().len() ==> p.vals()[i] == fsub(
                    coef_at(q.vals(), i - d.n()),
                    coef_at(q.vals(), i),
                )
        },
{
    let (q, rem) = p.divide_by_vanishing_poly(d);
    if rem.is_zero() {
        proof {
            assert forall|i: int| 0 <= i < p.vals().len() implies p.vals()[i] == fsub(
                coef_at(q.vals(), i - d.n()),
                coef_at(q.vals(), i),
            ) by {
                let x = fsub(coef_at(q.vals(), i - d.n()), coef_at(q.vals(), i));
                assert(p.vals()[i] == fadd(x, coef_at(rem.vals(), i)));
                if i < rem.vals().len() {
                    assert(rem.vals()[i] == 0);
                }
                assert(coef_at(rem.vals(), i) == 0);
                assert(fadd(x, 0) == x) by {
                    vstd::arithmetic::div_mod::lemma_mod_bound(x as int, P as int);
                    vstd::arithmetic::div_mod::lemma_small_mod(x, P as nat);
                }
            }
            assert forall|i: int| 0 <= i < p.vals().len() && i < d.n() implies fadd(
                p.vals()[i],
                crate::dense_polynomial::qc_at(p.vals(), d.n(), i),
            ) == 0 by {
                assert(rem.vals()[i] == fadd(
                    p.vals()[i],
                    crate::dense_polynomial::qc_at(p.vals(), d.n(), i),
                ));
            }
        }
        Ok(q)
    } else {
        proof {
            let i = choose|i: int| 0 <= i < rem.vals().len() && rem.vals()[i] != 0;
            assert(0 <= i < p.vals().len() && i < d.n());
            assert(fadd(p.vals()[i], crate::dense_polynomial::qc_at(p.vals(), d.n(), i)) != 0);
        }
        Err(ProofError::PolyDivision)
    }
}

/// The combined opening polynomial of Maller's optimization:
/// `ft = f - (zeta_n - 1) * t`, built from the chunk-recombined
/// linearization and quotient polynomials.
pub fn ft_polynomial(f: &DensePolynomial, t: &DensePolynomial, zeta_n: Fp) -> (r: DensePolynomial)
    requires
        f.wf(),
        t.wf(),
        zeta_n.wf(),
    ensures
        r.wf(),
        r.vals().len() == if f.vals().len() >= t.vals().len() {
            f.vals().len() as int
        } else {
            t.vals().len() as int
        },
        forall|i: int|
            0 <= i < r.vals().len() ==> r.vals()[i] == fsub(
                coef_at(f.vals(), i),
                fmul(coef_at(t.vals(), i), fsub(zeta_n.val(), 1)),
            ),
{
    let scaled = t.scale(zeta_n.sub(Fp::one()));
    let r = f.sub(&scaled);
    proof {
        assert forall|i: int| 0 <= i < r.vals().len() implies r.vals()[i] == fsub(
            coef_at(f.vals(), i),
            fmul(coef_at(t.vals(), i), fsub(zeta_n.val(), 1)),
        ) by {
            if i >= t.vals().len() {
                assert(coef_at(scaled.vals(), i) == 0);
                assert(coef_at(t.vals(), i) == 0);
                assert(fmul(0, fsub(zeta_n.val(), 1)) == 0) by {
                    vstd::arithmetic::mul::lemma_mul_basics(fsub(zeta_n.val(), 1) as int);
                    vstd::arithmetic::div_mod::lemma_small_mod(0nat, P as nat);
                }
            } else {
                assert(coef_at(scaled.vals(), i) == scaled.vals()[i]);
            }
        }
    }
    r
}

/// Packages the pipeline's outputs as the proof record, every field
/// pinned to its argument: the assembly adds nothing and loses nothing.
pub fn assemble_proof<G>(
    w_comm: Vec<PolyComm<G>>,
    z_comm: PolyComm<G>,
    t_comm: PolyComm<G>,
    proof: OpeningProof<G>,
    evals: Vec<ProofEvaluations<Vec<Fp>>>,
    ft_eval1: Fp,
    public: Vec<Fp>,
    prev_challenges: Vec<(Vec<Fp>, PolyComm<G>)>,
) -> (r: ProverProof<G>)
    ensures
        r.commitments.w_comm == w_comm,
        r.commitments.z_comm == z_comm,
        r.commitments.t_comm == t_comm,
        r.proof == proof,
        r.evals == evals,
        r.ft_eval1 == ft_eval1,
        r.public == public,
        r.prev_challenges == prev_challenges,
{
    ProverProof {
        commitments: ProverCommitments { w_comm, z_comm, t_comm },
        proof,
        evals,
        ft_eval1,
        public,
        prev_challenges,
    }
}

} // verus!
