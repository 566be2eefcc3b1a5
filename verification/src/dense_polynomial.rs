//! Dense polynomials in coefficient form, with the utility operations the
//! prover needs: coefficient scaling, right shift, Horner evaluation, and
//! splitting into fixed-size chunks.

use vstd::prelude::*;
use crate::modarith::{fadd, fmul};
use crate::field::Fp;

verus! {

/// `c[0] + c[1] x + c[2] x^2 + ...` in the field.
pub open spec fn poly_eval(c: Seq<nat>, x: nat) -> nat
    decreases c.len(),
{
    if c.len() == 0 {
        0
    } else {
        fadd(c[0], fmul(x, poly_eval(c.drop_first(), x)))
    }
}

/// A polynomial held as its coefficients, lowest degree first.
#[derive(Clone, Debug)]
pub struct DensePolynomial {
    pub coeffs: Vec<Fp>,
}

/// A polynomial split into consecutive sub-polynomials of `size`
/// coefficients each (the last one possibly shorter).
#[derive(Clone, Debug)]
pub struct ChunkedPolynomial {
    pub polys: Vec<DensePolynomial>,
    pub size: usize,
}

impl ChunkedPolynomial {
    /// All chunks have reduced coefficients.
    pub open spec fn wf(&self) -> bool {
        forall|i: int| 0 <= i < self.polys@.len() ==> (#[trigger] self.polys@[i]).wf()
    }

    /// The chunks' coefficient sequences.
    pub open spec fn vals(&self) -> Seq<Seq<nat>> {
        self.polys@.map_values(|q: DensePolynomial| q.vals())
    }

    /// Evaluates every chunk at `x`.
    pub fn evaluate_chunks(&self, x: Fp) -> (r: Vec<Fp>)
        requires
            self.wf(),
            x.wf(),
        ensures
            r@.len() == self.polys@.len(),
            forall|i: int|
                0 <= i < r@.len() ==> (#[trigger] r@[i]).wf() && r@[i].val() == poly_eval(
                    self.vals()[i],
                    x.val(),
                ),
    {
        let mut out: Vec<Fp> = Vec::new();
        let n = self.polys.len();
        let mut i: usize = 0;
        while i < n
            invariant
                n == self.polys@.len(),
                self.wf(),
                x.wf(),
                0 <= i <= n,
                out@.len() == i,
                forall|j: int|
                    0 <= j < i ==> (#[trigger] out@[j]).wf() && out@[j].val() == poly_eval(
                        self.vals()[j],
                        x.val(),
                    ),
            decreases n - i,
        {
            let v = DensePolynomial::eval_polynomial(self.polys[i].coeffs.as_slice(), x);
            out.push(v);
            i += 1;
        }
        out
    }
}

impl DensePolynomial {
    /// All coefficients are reduced residues.
    pub open spec fn wf(&self) -> bool {
        forall|i: int| 0 <= i < self.coeffs@.len() ==> (#[trigger] self.coeffs@[i]).wf()
    }

    /// The coefficients as field values.
    pub open spec fn vals(&self) -> Seq<nat> {
        self.coeffs@.map_values(|f: Fp| f.val())
    }

    /// Multiplies every coefficient by `elm`.
    pub fn scale(&self, elm: Fp) -> (r: Self)
        requires
            self.wf(),
            elm.wf(),
        ensures
            r.wf(),
            r.vals().len() == self.vals().len(),
            forall|i: int|
                0 <= i < self.vals().len() ==> r.vals()[i] == fmul(
                    self.vals()[i],
                    elm.val(),
                ),
    {
        let mut out: Vec<Fp> = Vec::new();
        let n = self.coeffs.len();
        let mut i: usize = 0;
        while i < n
            invariant
                n == self.coeffs@.len(),
                self.wf(),
                elm.wf(),
                0 <= i <= n,
                out@.len() == i,
                forall|j: int|
                    0 <= j < i ==> (#[trigger] out@[j]).wf() && out@[j].val() == fmul(
                        self.vals()[j],
                        elm.val(),
                    ),
            decreases n - i,
        {
            let c = self.coeffs[i];
            out.push(c.mul(elm));
            i += 1;
        }
        DensePolynomial { coeffs: out }
    }

    /// Shifts all coefficients right by `size` places, prepending zeros.
    pub fn shiftr(&self, size: usize) -> (r: Self)
        requires
            self.wf(),
            size + self.vals().len() <= usize::MAX,
        ensures
            r.wf(),
            r.vals().len() == size + self.vals().len(),
            forall|i: int| 0 <= i < size ==> r.vals()[i] == 0,
            forall|i: int|
                0 <= i < self.vals().len() ==> r.vals()[size + i] == self.vals()[i],
    {
        let mut out: Vec<Fp> = Vec::new();
        let mut i: usize = 0;
        while i < size
            invariant
                0 <= i <= size,
                out@.len() == i,
                forall|j: int| 0 <= j < i ==> (#[trigger] out@[j]).wf() && out@[j].val() == 0,
            decreases size - i,
        {
            out.push(Fp::zero());
            i += 1;
        }
        let n = self.coeffs.len();
        let mut j: usize = 0;
        while j < n
            invariant
                n == self.coeffs@.len(),
                self.wf(),
                size + n <= usize::MAX,
                0 <= j <= n,
                out@.len() == size + j,
                forall|t: int| 0 <= t < size ==> (#[trigger] out@[t]).wf() && out@[t].val() == 0,
                forall|t: int|
                    0 <= t < j ==> (#[trigger] out@[size + t]).wf() && out@[size + t].val()
                        == self.vals()[t],
            decreases n - j,
        {
            let c = self.coeffs[j];
            out.push(c);
            j += 1;
        }
        proof {
            assert forall|t: int| 0 <= t < out@.len() implies (#[trigger] out@[t]).wf() by {
                if t >= size {
                    assert(out@[size + (t - size)].wf());
                }
            }
        }
        DensePolynomial { coeffs: out }
    }

    /// Evaluates the polynomial with the given coefficients at `x`.
    pub fn eval_polynomial(coeffs: &[Fp], x: Fp) -> (r: Fp)
        requires
            forall|i: int| 0 <= i < coeffs@.len() ==> #[trigger] coeffs@[i].wf(),
            x.wf(),
        ensures
            r.wf(),
            r.val() == poly_eval(coeffs@.map_values(|f: Fp| f.val()), x.val()),
    {
        let ghost vs = coeffs@.map_values(|f: Fp| f.val());
        let mut res = Fp::zero();
        let n = coeffs.len();
        let mut i: usize = n;
        proof {
            assert(vs.skip(n as int) =~= Seq::<nat>::empty());
        }
        while i > 0
            invariant
                n == coeffs@.len(),
                forall|t: int| 0 <= t < coeffs@.len() ==> #[trigger] coeffs@[t].wf(),
                x.wf(),
                vs == coeffs@.map_values(|f: Fp| f.val()),
                0 <= i <= n,
                res.wf(),
                res.val() == poly_eval(vs.skip(i as int), x.val()),
            decreases i,
        {
            i = i - 1;
            let c = coeffs[i];
            res = c.add(x.mul(res));
            proof {
                let tail = vs.skip(i as int);
                assert(tail[0] == vs[i as int]);
                assert(tail.drop_first() =~= vs.skip(i + 1));
            }
        }
        proof {
            assert(vs.skip(0) =~= vs);
        }
        res
    }

    /// Splits the polynomial into chunks of `chunk_size` coefficients.
    pub fn to_chunked_polynomial(&self, chunk_size: usize) -> (r: ChunkedPolynomial)
        requires
            self.wf(),
            chunk_size >= 1,
        ensures
            r.size == chunk_size,
            r.wf(),
            r.vals().len() == (self.vals().len() + chunk_size - 1) / (chunk_size as int),
            forall|i: int|
                0 <= i < r.vals().len() ==> r.vals()[i] == self.vals().subrange(
                    i * chunk_size,
                    if (i + 1) * chunk_size <= self.vals().len() {
                        (i + 1) * chunk_size
                    } else {
                        self.vals().len() as int
                    },
                ),
    {
        let mut polys: Vec<DensePolynomial> = Vec::new();
        let n = self.coeffs.len();
        let mut start: usize = 0;
        proof {
            vstd::arithmetic::mul::lemma_mul_basics(chunk_size as int);
        }
        while start < n
            invariant
                n == self.coeffs@.len(),
                self.wf(),
                chunk_size >= 1,
                start <= n,
                (start == polys@.len() * chunk_size) || (start == n && polys@.len() >= 1 && (
                polys@.len() - 1) * chunk_size < n && n <= polys@.len() * chunk_size),
                forall|i: int| 0 <= i < polys@.len() ==> (#[trigger] polys@[i]).wf(),
                forall|i: int|
                    0 <= i < polys@.len() ==> (#[trigger] polys@[i]).vals() == self.vals().subrange(
                        i * chunk_size,
                        if (i + 1) * chunk_size <= n {
                            (i + 1) * chunk_size
                        } else {
                            n as int
                        },
                    ),
            decreases n - start,
        {
            let ghost m = polys@.len() as int;
            proof {
                assert(start == m * chunk_size);
                assert((m + 1) * chunk_size == start + chunk_size) by {
                    vstd::arithmetic::mul::lemma_mul_is_distributive_add_other_way(
                        chunk_size as int,
                        m,
                        1,
                    );
                }
            }
            let end = if n - start < chunk_size {
                n
            } else {
                start + chunk_size
            };
            let mut chunk: Vec<Fp> = Vec::new();
            let mut t: usize = start;
            while t < end
                invariant
                    n == self.coeffs@.len(),
                    self.wf(),
                    start <= t <= end <= n,
                    chunk@.len() == t - start,
                    forall|u: int|
                        0 <= u < chunk@.len() ==> (#[trigger] chunk@[u]) == self.coeffs@[start + u],
                decreases end - t,
            {
                let c = self.coeffs[t];
                chunk.push(c);
                t += 1;
            }
            let q = DensePolynomial { coeffs: chunk };
            proof {
                assert(q.vals() =~= self.vals().subrange(
                    m * chunk_size,
                    if (m + 1) * chunk_size <= n {
                        (m + 1) * chunk_size
                    } else {
                        n as int
                    },
                ));
            }
            polys.push(q);
            start = end;
        }
        proof {
            let m = polys@.len() as int;
            if n > 0 {
                assert(start == n);
                if start == m * chunk_size {
                    assert(m >= 1) by {
                        if m == 0 {
                            assert(start == 0);
                        }
                    }
                    assert((m - 1) * chunk_size < n) by {
                        vstd::arithmetic::mul::lemma_mul_is_distributive_sub_other_way(
                            chunk_size as int,
                            m,
                            1,
                        );
                    }
                }
                lemma_chunk_count(n as nat, chunk_size as nat, polys@.len() as nat);
            } else {
                assert(polys@.len() == 0) by {
                    if m >= 1 {
                        if start == m * chunk_size {
                            vstd::arithmetic::mul::lemma_mul_inequality(1, m, chunk_size as int);
                        } else {
                            vstd::arithmetic::mul::lemma_mul_nonnegative(
                                m - 1,
                                chunk_size as int,
                            );
                        }
                    }
                }
                lemma_chunk_count(0, chunk_size as nat, 0);
            }
        }
        ChunkedPolynomial { polys, size: chunk_size }
    }
}

/// Counting chunks: if `start` reached `n` in steps of `cs` with a shorter
/// final step, the number of chunks is the rounded-up quotient.
proof fn lemma_chunk_count(n: nat, cs: nat, m: nat)
    requires
        cs >= 1,
        n == 0 ==> m == 0,
        n > 0 ==> (m >= 1 && (m - 1) * cs < n <= m * cs),
    ensures
        m == (n + cs - 1) / (cs as int),
{
    if n == 0 {
        assert((0 + cs - 1) / (cs as int) == 0) by {
            vstd::arithmetic::div_mod::lemma_basic_div((cs - 1) as int, cs as int);
        }
    } else {
        let q = (n + cs - 1) / (cs as int);
        assert((m - 1) * cs < n);
        assert(n <= m * cs);
        assert(m * cs <= n + cs - 1) by {
            vstd::arithmetic::mul::lemma_mul_is_distributive_sub_other_way(
                cs as int,
                m as int,
                1,
            );
        }
        assert(n + cs - 1 < (m + 1) * cs) by {
            vstd::arithmetic::mul::lemma_mul_is_distributive_add_other_way(
                cs as int,
                m as int,
                1,
            );
        }
        assert(q == m) by {
            vstd::arithmetic::div_mod::lemma_fundamental_div_mod((n + cs - 1) as int, cs as int);
            vstd::arithmetic::div_mod::lemma_mod_bound((n + cs - 1) as int, cs as int);
            let r = (n + cs - 1) % (cs as int);
            assert(n + cs - 1 == q * (cs as int) + r);
            if q < m {
                assert(q <= m - 1);
                assert(q * cs <= (m - 1) * cs) by {
                    vstd::arithmetic::mul::lemma_mul_inequality(q as int, (m - 1) as int, cs as int);
                }
                assert(false);
            }
            if q > m {
                assert(q >= m + 1);
                assert((m + 1) * cs <= q * cs) by {
                    vstd::arithmetic::mul::lemma_mul_inequality((m + 1) as int, q as int, cs as int);
                }
                assert(false);
            }
        }
    }
}

/// The coefficient at `i`, zero beyond the stored length.
pub open spec fn coef_at(c: Seq<nat>, i: int) -> nat {
    if 0 <= i < c.len() {
        c[i]
    } else {
        0
    }
}

/// The quotient coefficients of division by `x^n - 1`, from the top down:
/// `q[i] = c[i+n] + q[i+n]`.
pub open spec fn quot_coef(c: Seq<nat>, n: nat, i: int) -> nat
    decreases c.len() - i when n >= 1
{
    if i < 0 || i + n >= c.len() || c.len() < n {
        coef_at(c, i + n)
    } else {
        crate::modarith::fadd(c[i + n], quot_coef(c, n, i + n))
    }
}

/// The quotient coefficient at `i`, zero outside the quotient's length.
pub open spec fn qc_at(c: Seq<nat>, n: nat, i: int) -> nat {
    if 0 <= i && i + n < c.len() {
        quot_coef(c, n, i)
    } else {
        0
    }
}

impl DensePolynomial {
    /// Coefficient-wise sum, the shorter polynomial padded with zeros.
    pub fn add(&self, other: &DensePolynomial) -> (r: DensePolynomial)
        requires
            self.wf(),
            other.wf(),
        ensures
            r.wf(),
            r.vals().len() == if self.vals().len() >= other.vals().len() {
                self.vals().len()
            } else {
                other.vals().len()
            },
            forall|i: int|
                0 <= i < r.vals().len() ==> r.vals()[i] == crate::modarith::fadd(
                    coef_at(self.vals(), i),
                    coef_at(other.vals(), i),
                ),
    {
        let na = self.coeffs.len();
        let nb = other.coeffs.len();
        let n = if na >= nb {
            na
        } else {
            nb
        };
        let mut out: Vec<Fp> = Vec::new();
        let mut i: usize = 0;
        while i < n
            invariant
                self.wf(),
                other.wf(),
                na == self.coeffs@.len(),
                nb == other.coeffs@.len(),
                n == if na >= nb {
                    na
                } else {
                    nb
                },
                0 <= i <= n,
                out@.len() == i,
                forall|j: int|
                    0 <= j < i ==> (#[trigger] out@[j]).wf() && out@[j].val()
                        == crate::modarith::fadd(coef_at(self.vals(), j), coef_at(other.vals(), j)),
            decreases n - i,
        {
            let a = if i < na {
                self.coeffs[i]
            } else {
                Fp::zero()
            };
            let b = if i < nb {
                other.coeffs[i]
            } else {
                Fp::zero()
            };
            out.push(a.add(b));
            i += 1;
        }
        DensePolynomial { coeffs: out }
    }

    /// Coefficient-wise difference, the shorter polynomial padded with
    /// zeros.
    pub fn sub(&self, other: &DensePolynomial) -> (r: DensePolynomial)
        requires
            self.wf(),
            other.wf(),
        ensures
            r.wf(),
            r.vals().len() == if self.vals().len() >= other.vals().len() {
                self.vals().len()
            } else {
                other.vals().len()
            },
            forall|i: int|
                0 <= i < r.vals().len() ==> r.vals()[i] == crate::modarith::fsub(
                    coef_at(self.vals(), i),
                    coef_at(other.vals(), i),
                ),
    {
        let na = self.coeffs.len();
        let nb = other.coeffs.len();
        let n = if na >= nb {
            na
        } else {
            nb
        };
        let mut out: Vec<Fp> = Vec::new();
        let mut i: usize = 0;
        while i < n
            invariant
                self.wf(),
                other.wf(),
                na == self.coeffs@.len(),
                nb == other.coeffs@.len(),
                n == if na >= nb {
                    na
                } else {
                    nb
                },
                0 <= i <= n,
                out@.len() == i,
                forall|j: int|
                    0 <= j < i ==> (#[trigger] out@[j]).wf() && out@[j].val()
                        == crate::modarith::fsub(coef_at(self.vals(), j), coef_at(other.vals(), j)),
            decreases n - i,
        {
            let a = if i < na {
                self.coeffs[i]
            } else {
                Fp::zero()
            };
            let b = if i < nb {
                other.coeffs[i]
            } else {
                Fp::zero()
            };
            out.push(a.sub(b));
            i += 1;
        }
        DensePolynomial { coeffs: out }
    }

    /// Every stored coefficient is zero.
    pub fn is_zero(&self) -> (r: bool)
        requires
            self.wf(),
        ensures
            r <==> (forall|i: int| 0 <= i < self.vals().len() ==> self.vals()[i] == 0),
    {
        let n = self.coeffs.len();
        let mut i: usize = 0;
        while i < n
            invariant
                self.wf(),
                n == self.coeffs@.len(),
                0 <= i <= n,
                forall|j: int| 0 <= j < i ==> self.vals()[j] == 0,
            decreases n - i,
        {
            if self.coeffs[i].v != 0 {
                proof {
                    assert(self.vals()[i as int] != 0);
                }
                return false;
            }
            i += 1;
        }
        true
    }

    /// Evaluates the polynomial at `x`.
    pub fn evaluate(&self, x: Fp) -> (r: Fp)
        requires
            self.wf(),
            x.wf(),
        ensures
            r.wf(),
            r.val() == poly_eval(self.vals(), x.val()),
    {
        DensePolynomial::eval_polynomial(self.coeffs.as_slice(), x)
    }

    /// Multiplies by the vanishing polynomial `x^n - 1` of the domain:
    /// the product's coefficient at `i` is `c[i-n] - c[i]`.
    pub fn mul_by_vanishing_poly(&self, d: crate::domains::Domain) -> (r: DensePolynomial)
        requires
            self.wf(),
            d.wf(),
            self.vals().len() + d.size <= usize::MAX,
        ensures
            r.wf(),
            self.vals().len() == 0 ==> r.vals().len() == 0,
            self.vals().len() > 0 ==> r.vals().len() == self.vals().len() + d.n(),
            forall|i: int|
                0 <= i < r.vals().len() ==> r.vals()[i] == crate::modarith::fsub(
                    coef_at(self.vals(), i - d.n()),
                    coef_at(self.vals(), i),
                ),
    {
        let m = self.coeffs.len();
        if m == 0 {
            return DensePolynomial { coeffs: Vec::new() };
        }
        let n = d.size as usize;
        proof {
            crate::domains::lemma_domain_size_bound(d);
        }
        let total = m + n;
        let mut out: Vec<Fp> = Vec::new();
        let mut i: usize = 0;
        while i < total
            invariant
                self.wf(),
                m == self.coeffs@.len(),
                n == d.n(),
                total == m + n,
                0 <= i <= total,
                out@.len() == i,
                forall|j: int|
                    0 <= j < i ==> (#[trigger] out@[j]).wf() && out@[j].val()
                        == crate::modarith::fsub(
                        coef_at(self.vals(), j - n),
                        coef_at(self.vals(), j),
                    ),
            decreases total - i,
        {
            let hi = if i >= n && i - n < m {
                self.coeffs[i - n]
            } else {
                Fp::zero()
            };
            let lo = if i < m {
                self.coeffs[i]
            } else {
                Fp::zero()
            };
            out.push(hi.sub(lo));
            i += 1;
        }
        DensePolynomial { coeffs: out }
    }

    /// Divides by the vanishing polynomial `x^n - 1`, returning quotient
    /// and remainder: coefficient-wise, `c[i] = (q[i-n] - q[i]) + r[i]`,
    /// the remainder keeping fewer than `n` coefficients.
    pub fn divide_by_vanishing_poly(&self, d: crate::domains::Domain) -> (res: (
        DensePolynomial,
        DensePolynomial,
    ))
        requires
            self.wf(),
            d.wf(),
        ensures
            res.0.wf(),
            res.1.wf(),
            res.0.vals().len() == if self.vals().len() >= d.n() {
                (self.vals().len() - d.n()) as int
            } else {
                0int
            },
            res.1.vals().len() == if self.vals().len() >= d.n() {
                d.n() as int
            } else {
                self.vals().len() as int
            },
            forall|i: int|
                0 <= i < self.vals().len() ==> self.vals()[i] == crate::modarith::fadd(
                    crate::modarith::fsub(
                        coef_at(res.0.vals(), i - d.n()),
                        coef_at(res.0.vals(), i),
                    ),
                    coef_at(res.1.vals(), i),
                ),
            forall|i: int| 0 <= i < res.0.vals().len() ==> res.0.vals()[i] == qc_at(
                self.vals(),
                d.n(),
                i,
            ),
            forall|i: int|
                0 <= i < res.1.vals().len() ==> res.1.vals()[i] == crate::modarith::fadd(
                    self.vals()[i],
                    qc_at(self.vals(), d.n(), i),
                ),
    {
        let m = self.coeffs.len();
        let n = d.size as usize;
        proof {
            crate::domains::lemma_domain_size_bound(d);
        }
        if m < n {
            let mut rem: Vec<Fp> = Vec::new();
            let mut i: usize = 0;
            while i < m
                invariant
                    self.wf(),
                    m == self.coeffs@.len(),
                    0 <= i <= m,
                    rem@.len() == i,
                    forall|j: int| 0 <= j < i ==> (#[trigger] rem@[j]) == self.coeffs@[j],
                decreases m - i,
            {
                rem.push(self.coeffs[i]);
                i += 1;
            }
            let q = DensePolynomial { coeffs: Vec::new() };
            let r = DensePolynomial { coeffs: rem };
            proof {
                assert forall|i: int| 0 <= i < self.vals().len() implies self.vals()[i]
                    == crate::modarith::fadd(
                    crate::modarith::fsub(
                        coef_at(q.vals(), i - d.n()),
                        coef_at(q.vals(), i),
                    ),
                    coef_at(r.vals(), i),
                ) by {
                    crate::modarith::lemma_sub_then_add(self.vals()[i], 0);
                    assert(coef_at(r.vals(), i) == self.vals()[i]);
                    assert(crate::modarith::fadd(self.vals()[i], 0) == self.vals()[i]) by {
                        vstd::arithmetic::div_mod::lemma_small_mod(
                            self.vals()[i],
                            crate::modarith::P as nat,
                        );
                    }
                }
            }
            return (q, r);
        }
        // quotient, filled from the top down
        let qlen = m - n;
        let mut q: Vec<Fp> = Vec::new();
        let mut t: usize = 0;
        while t < qlen
            invariant
                0 <= t <= qlen,
                q@.len() == t,
                forall|j: int| 0 <= j < t ==> (#[trigger] q@[j]).wf() && q@[j].val() == 0,
            decreases qlen - t,
        {
            q.push(Fp::zero());
            t += 1;
        }
        let mut i: usize = qlen;
        while i > 0
            invariant
                self.wf(),
                d.wf(),
                m == self.coeffs@.len(),
                n == d.n(),
                n >= 1,
                m >= n,
                qlen == m - n,
                q@.len() == qlen,
                0 <= i <= qlen,
                forall|j: int| 0 <= j < i ==> (#[trigger] q@[j]).wf(),
                forall|j: int|
                    i <= j < qlen ==> (#[trigger] q@[j]).wf() && q@[j].val() == quot_coef(
                        self.vals(),
                        n as nat,
                        j,
                    ),
            decreases i,
        {
            i = i - 1;
            let upper = if i + n < qlen {
                q[i + n]
            } else {
                Fp::zero()
            };
            let next = self.coeffs[i + n].add(upper);
            q.set(i, next);
            proof {
                if i + n < qlen {
                    assert(q@[i as int].val() == crate::modarith::fadd(
                        self.vals()[i + n],
                        quot_coef(self.vals(), n as nat, i + n),
                    ));
                } else {
                    assert(quot_coef(self.vals(), n as nat, i + n) == coef_at(
                        self.vals(),
                        i + 2 * n,
                    ));
                    assert(i + 2 * n >= m);
                    assert(coef_at(self.vals(), i + 2 * n) == 0);
                    assert(crate::modarith::fadd(self.vals()[i + n], 0) == self.vals()[i + n]) by {
                        vstd::arithmetic::div_mod::lemma_small_mod(
                            self.vals()[i + n],
                            crate::modarith::P as nat,
                        );
                    }
                }
            }
        }
        // remainder: r[i] = c[i] + q[i] for i < n
        let mut rem: Vec<Fp> = Vec::new();
        let mut s: usize = 0;
        while s < n
            invariant
                self.wf(),
                m == self.coeffs@.len(),
                n == d.n(),
                m >= n,
                qlen == m - n,
                q@.len() == qlen,
                forall|j: int|
                    0 <= j < qlen ==> (#[trigger] q@[j]).wf() && q@[j].val() == quot_coef(
                        self.vals(),
                        n as nat,
                        j,
                    ),
                0 <= s <= n,
                rem@.len() == s,
                forall|j: int|
                    0 <= j < s ==> (#[trigger] rem@[j]).wf() && rem@[j].val()
                        == crate::modarith::fadd(
                        self.vals()[j],
                        coef_at(
                            q@.map_values(|f: Fp| f.val()),
                            j,
                        ),
                    ),
            decreases n - s,
        {
            let qc = if s < qlen {
                q[s]
            } else {
                Fp::zero()
            };
            let next = self.coeffs[s].add(qc);
            rem.push(next);
            proof {
                if s >= qlen {
                    assert(coef_at(q@.map_values(|f: Fp| f.val()), s as int) == 0);
                }
            }
            s += 1;
        }
        let qq = DensePolynomial { coeffs: q };
        let rr = DensePolynomial { coeffs: rem };
        proof {
            lemma_divide_vanishing_identity(self.vals(), qq.vals(), rr.vals(), n as nat);
        }
        (qq, rr)
    }
}

impl DensePolynomial {
    /// Chunked evaluation: the `i`-th entry is the `i`-th coefficient
    /// chunk of the polynomial, evaluated at the point.
    pub fn eval(&self, pt: Fp, size: usize) -> (r: Vec<Fp>)
        requires
            self.wf(),
            pt.wf(),
            size >= 1,
        ensures
            r@.len() == (self.vals().len() + size - 1) / (size as int),
            forall|i: int|
                0 <= i < r@.len() ==> (#[trigger] r@[i]).wf() && r@[i].val() == poly_eval(
                    self.vals().subrange(
                        i * size,
                        if (i + 1) * size <= self.vals().len() {
                            (i + 1) * size
                        } else {
                            self.vals().len() as int
                        },
                    ),
                    pt.val(),
                ),
    {
        let ch = self.to_chunked_polynomial(size);
        ch.evaluate_chunks(pt)
    }

}

/// The division identity: with the quotient built by `q[i] = c[i+n] +
/// q[i+n]` and the remainder by `r[i] = c[i] + q[i]`, every coefficient
/// satisfies `c[i] = (q[i-n] - q[i]) + r[i]`.
proof fn lemma_divide_vanishing_identity(c: Seq<nat>, q: Seq<nat>, r: Seq<nat>, n: nat)
    requires
        n >= 1,
        c.len() >= n,
        q.len() == c.len() - n,
        r.len() == n,
        forall|j: int| 0 <= j < c.len() ==> c[j] < crate::modarith::P,
        forall|j: int| 0 <= j < q.len() ==> q[j] == quot_coef(c, n, j),
        forall|j: int|
            0 <= j < n ==> r[j] == crate::modarith::fadd(c[j], coef_at(q, j)),
    ensures
        forall|i: int|
            0 <= i < c.len() ==> c[i] == crate::modarith::fadd(
                crate::modarith::fsub(coef_at(q, i - n), coef_at(q, i)),
                coef_at(r, i),
            ),
{
    assert forall|i: int| 0 <= i < c.len() implies c[i] == crate::modarith::fadd(
        crate::modarith::fsub(coef_at(q, i - n), coef_at(q, i)),
        coef_at(r, i),
    ) by {
        if i < n {
            assert(coef_at(q, i - n) == 0);
            assert(coef_at(r, i) == crate::modarith::fadd(c[i], coef_at(q, i)));
            crate::modarith::lemma_sub_then_add(c[i], coef_at(q, i));
        } else {
            assert(coef_at(r, i) == 0);
            let j = i - n;
            assert(0 <= j < q.len());
            assert(q[j] == quot_coef(c, n, j));
            if i < q.len() {
                assert(quot_coef(c, n, j) == crate::modarith::fadd(c[i], quot_coef(c, n, i)));
                assert(coef_at(q, i) == quot_coef(c, n, i));
                assert(crate::modarith::fsub(
                    crate::modarith::fadd(c[i], coef_at(q, i)),
                    coef_at(q, i),
                ) == c[i]) by {
                    crate::modarith::lemma_fsub_cancel(c[i], coef_at(q, i));
                }
            } else {
                assert(quot_coef(c, n, j) == coef_at(c, i + n) || quot_coef(c, n, j)
                    == crate::modarith::fadd(c[i], quot_coef(c, n, i)));
                if j + n >= c.len() {
                    assert(quot_coef(c, n, j) == coef_at(c, j + n));
                } else {
                    assert(quot_coef(c, n, j) == crate::modarith::fadd(
                        c[i],
                        quot_coef(c, n, i),
                    ));
                    assert(quot_coef(c, n, i) == coef_at(c, i + n));
                    assert(coef_at(c, i + n) == 0);
                }
                assert(coef_at(q, i) == 0);
                assert(c[i] < crate::modarith::P);
                assert(crate::modarith::fsub(c[i], 0nat) == crate::modarith::fadd(c[i], 0))
                    by {
                    crate::modarith::lemma_fsub_cancel(c[i], 0);
                    crate::modarith::lemma_fneg_cancels(0);
                    vstd::arithmetic::div_mod::lemma_small_mod(0nat, crate::modarith::P as nat);
                }
                assert(crate::modarith::fadd(c[i], 0) == c[i]) by {
                    vstd::arithmetic::div_mod::lemma_small_mod(c[i], crate::modarith::P as nat);
                }
                assert(crate::modarith::fadd(crate::modarith::fsub(c[i], 0nat), 0nat) == c[i])
                    by {
                    vstd::arithmetic::div_mod::lemma_small_mod(
                        crate::modarith::fsub(c[i], 0nat),
                        crate::modarith::P as nat,
                    );
                }
            }
        }
    }
}

} // verus!
