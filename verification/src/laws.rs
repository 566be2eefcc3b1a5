//! The stated laws of the expression language: what scalar evaluation
//! makes of the peephole constructors and of combined constraints.

use vstd::prelude::*;
use crate::modarith::{P, fadd, fmul, fpow, lemma_fpow_bound};
use vstd::arithmetic::div_mod::lemma_small_mod;
use vstd::arithmetic::mul::lemma_mul_basics;
use crate::scalars::{RandomOracles, ProofEvaluations};
use crate::expr::{
    Expr, add_spec, mul_spec, scalar_sem, expr_ok, combine_spec, combine_fold, combine_coeff,
    zero_expr, is_zero_const, is_one_const,
};
use crate::modarith::{fsub, lemma_fpow_adds, lemma_fpow_multiplies};
use crate::expr::{
    Variable, var_key, mono_spec, merge_add, merge_sub, merge_keys, conv, conv_row, ins_add,
    ins_sub,
};
use crate::evaluations::{
    Environment, DomainTag, tag_factor, tag_n, sub_read, evals_sem, ulag_sem,
    lemma_tag_domain_size,
};
use vstd::arithmetic::power2::pow2;

verus! {

/// A defined scalar value is a reduced residue, provided the expression's
/// constants are reduced and its cells stay inside the well-formed
/// evaluation records.
pub proof fn lemma_scalar_sem_bound(
    e: Expr,
    n: nat,
    w: nat,
    pt: nat,
    o: RandomOracles,
    e0: ProofEvaluations,
    e1: ProofEvaluations,
)
    requires
        o.wf(),
        e0.wf(),
        e1.wf(),
        expr_ok(e, e0.w@.len(), e0.lookup_sorted@.len(), n),
        expr_ok(e, e1.w@.len(), e1.lookup_sorted@.len(), n),
        scalar_sem(e, n, w, pt, o, e0, e1) is Some,
    ensures
        scalar_sem(e, n, w, pt, o, e0, e1)->Some_0 < P,
    decreases e,
{
    match e {
        Expr::Alpha { power } => {
            lemma_fpow_bound(o.alpha.val(), power as nat);
        },
        Expr::Mul(x, y) => {
            lemma_scalar_sem_bound(*x, n, w, pt, o, e0, e1);
            lemma_scalar_sem_bound(*y, n, w, pt, o, e0, e1);
        },
        Expr::Add(x, y) => {
            lemma_scalar_sem_bound(*x, n, w, pt, o, e0, e1);
            lemma_scalar_sem_bound(*y, n, w, pt, o, e0, e1);
        },
        Expr::Sub(x, y) => {
            lemma_scalar_sem_bound(*x, n, w, pt, o, e0, e1);
            lemma_scalar_sem_bound(*y, n, w, pt, o, e0, e1);
        },
        _ => {},
    }
}

/// Scalar evaluation takes the peephole sum to the field sum.
pub proof fn lemma_add_spec_sem(
    a: Expr,
    b: Expr,
    n: nat,
    w: nat,
    pt: nat,
    o: RandomOracles,
    e0: ProofEvaluations,
    e1: ProofEvaluations,
)
    requires
        scalar_sem(a, n, w, pt, o, e0, e1) is Some,
        scalar_sem(b, n, w, pt, o, e0, e1) is Some,
        scalar_sem(a, n, w, pt, o, e0, e1)->Some_0 < P,
        scalar_sem(b, n, w, pt, o, e0, e1)->Some_0 < P,
    ensures
        scalar_sem(add_spec(a, b), n, w, pt, o, e0, e1) == Some(
            fadd(
                scalar_sem(a, n, w, pt, o, e0, e1)->Some_0,
                scalar_sem(b, n, w, pt, o, e0, e1)->Some_0,
            ),
        ),
{
    let va = scalar_sem(a, n, w, pt, o, e0, e1)->Some_0;
    let vb = scalar_sem(b, n, w, pt, o, e0, e1)->Some_0;
    if is_zero_const(a) {
        assert(va == 0);
        assert(fadd(0, vb) == vb) by {
            lemma_small_mod(vb, P as nat);
        }
    } else if is_zero_const(b) {
        assert(vb == 0);
        assert(fadd(va, 0) == va) by {
            lemma_small_mod(va, P as nat);
        }
    }
}

/// Scalar evaluation takes the peephole product to the field product.
pub proof fn lemma_mul_spec_sem(
    a: Expr,
    b: Expr,
    n: nat,
    w: nat,
    pt: nat,
    o: RandomOracles,
    e0: ProofEvaluations,
    e1: ProofEvaluations,
)
    requires
        scalar_sem(a, n, w, pt, o, e0, e1) is Some,
        scalar_sem(b, n, w, pt, o, e0, e1) is Some,
        scalar_sem(a, n, w, pt, o, e0, e1)->Some_0 < P,
        scalar_sem(b, n, w, pt, o, e0, e1)->Some_0 < P,
    ensures
        scalar_sem(mul_spec(a, b), n, w, pt, o, e0, e1) == Some(
            fmul(
                scalar_sem(a, n, w, pt, o, e0, e1)->Some_0,
                scalar_sem(b, n, w, pt, o, e0, e1)->Some_0,
            ),
        ),
{
    let va = scalar_sem(a, n, w, pt, o, e0, e1)->Some_0;
    let vb = scalar_sem(b, n, w, pt, o, e0, e1)->Some_0;
    if is_one_const(a) {
        assert(va == 1);
        assert(fmul(1, vb) == vb) by {
            lemma_mul_basics(vb as int);
            lemma_small_mod(vb, P as nat);
        }
    } else if is_one_const(b) {
        assert(vb == 1);
        assert(fmul(va, 1) == va) by {
            lemma_mul_basics(va as int);
            lemma_small_mod(va, P as nat);
        }
    }
}

/// The value the combined constraint accumulates from slot `i` on:
/// each constraint is scaled by the matching power of alpha and added.
pub open spec fn combine_value(
    acc: nat,
    i: int,
    cs: Seq<Expr>,
    n: nat,
    w: nat,
    pt: nat,
    o: RandomOracles,
    e0: ProofEvaluations,
    e1: ProofEvaluations,
) -> nat
    decreases cs.len(),
{
    if cs.len() == 0 {
        acc
    } else {
        combine_value(
            fadd(
                acc,
                fmul(
                    fpow(o.alpha.val(), i as nat),
                    scalar_sem(cs[0], n, w, pt, o, e0, e1)->Some_0,
                ),
            ),
            i + 1,
            cs.drop_first(),
            n,
            w,
            pt,
            o,
            e0,
            e1,
        )
    }
}

/// The first combination coefficient evaluates to the matching power of
/// alpha (the slot-zero coefficient one included, as `alpha^0`).
proof fn lemma_combine_coeff_sem(
    i: int,
    n: nat,
    w: nat,
    pt: nat,
    o: RandomOracles,
    e0: ProofEvaluations,
    e1: ProofEvaluations,
)
    requires
        0 <= i <= usize::MAX,
    ensures
        scalar_sem(combine_coeff(i), n, w, pt, o, e0, e1) == Some(fpow(o.alpha.val(), i as nat)),
{
}

/// The accumulated fold evaluates to the accumulated value.
proof fn lemma_combine_fold_sem(
    acc: Expr,
    i: int,
    cs: Seq<Expr>,
    n: nat,
    w: nat,
    pt: nat,
    o: RandomOracles,
    e0: ProofEvaluations,
    e1: ProofEvaluations,
)
    requires
        o.wf(),
        0 <= i,
        i + cs.len() <= usize::MAX,
        scalar_sem(acc, n, w, pt, o, e0, e1) is Some,
        scalar_sem(acc, n, w, pt, o, e0, e1)->Some_0 < P,
        forall|k: int|
            0 <= k < cs.len() ==> (#[trigger] scalar_sem(cs[k], n, w, pt, o, e0, e1)) is Some
                && scalar_sem(cs[k], n, w, pt, o, e0, e1)->Some_0 < P,
    ensures
        scalar_sem(combine_fold(acc, i, cs), n, w, pt, o, e0, e1) == Some(
            combine_value(
                scalar_sem(acc, n, w, pt, o, e0, e1)->Some_0,
                i,
                cs,
                n,
                w,
                pt,
                o,
                e0,
                e1,
            ),
        ),
    decreases cs.len(),
{
    if cs.len() == 0 {
    } else {
        let va = scalar_sem(acc, n, w, pt, o, e0, e1)->Some_0;
        let c = cs[0];
        let vc = scalar_sem(c, n, w, pt, o, e0, e1)->Some_0;
        let av = fpow(o.alpha.val(), i as nat);
        lemma_combine_coeff_sem(i, n, w, pt, o, e0, e1);
        assert(av < P) by {
            lemma_fpow_bound(o.alpha.val(), i as nat);
        }
        lemma_mul_spec_sem(combine_coeff(i), c, n, w, pt, o, e0, e1);
        assert(fmul(av, vc) < P);
        lemma_add_spec_sem(acc, mul_spec(combine_coeff(i), c), n, w, pt, o, e0, e1);
        let acc2 = add_spec(acc, mul_spec(combine_coeff(i), c));
        assert(scalar_sem(acc2, n, w, pt, o, e0, e1) == Some(fadd(va, fmul(av, vc))));
        assert(fadd(va, fmul(av, vc)) < P);
        assert forall|k: int|
            0 <= k < cs.drop_first().len() implies (#[trigger] scalar_sem(
            cs.drop_first()[k],
            n,
            w,
            pt,
            o,
            e0,
            e1,
        )) is Some && scalar_sem(cs.drop_first()[k], n, w, pt, o, e0, e1)->Some_0 < P by {
            assert(cs.drop_first()[k] == cs[k + 1]);
        }
        lemma_combine_fold_sem(acc2, i + 1, cs.drop_first(), n, w, pt, o, e0, e1);
    }
}

/// Combining constraints is summing them with ascending powers of alpha:
/// the combined expression evaluates to
/// `sum_k alpha^(alpha0 + k) * value(cs[k])`.  The sum is a polynomial in
/// alpha, and each constraint enters it linearly, scaled by its own
/// power alone.
pub proof fn lemma_combine_constraints_sem(
    alpha0: int,
    cs: Seq<Expr>,
    n: nat,
    w: nat,
    pt: nat,
    o: RandomOracles,
    e0: ProofEvaluations,
    e1: ProofEvaluations,
)
    requires
        o.wf(),
        0 <= alpha0,
        alpha0 + cs.len() <= usize::MAX,
        forall|k: int|
            0 <= k < cs.len() ==> (#[trigger] scalar_sem(cs[k], n, w, pt, o, e0, e1)) is Some
                && scalar_sem(cs[k], n, w, pt, o, e0, e1)->Some_0 < P,
    ensures
        scalar_sem(combine_spec(alpha0, cs), n, w, pt, o, e0, e1) == Some(
            combine_value(0, alpha0, cs, n, w, pt, o, e0, e1),
        ),
{
    lemma_combine_fold_sem(zero_expr(), alpha0, cs, n, w, pt, o, e0, e1);
}

/// Linearity of the combination in the constraint list: one more
/// constraint adds exactly one more term, scaled by its own power of
/// alpha, and leaves the earlier terms untouched.
pub proof fn lemma_combine_value_linear(
    acc: nat,
    i: int,
    cs: Seq<Expr>,
    c: Expr,
    n: nat,
    w: nat,
    pt: nat,
    o: RandomOracles,
    e0: ProofEvaluations,
    e1: ProofEvaluations,
)
    requires
        0 <= i,
    ensures
        combine_value(acc, i, cs.push(c), n, w, pt, o, e0, e1) == fadd(
            combine_value(acc, i, cs, n, w, pt, o, e0, e1),
            fmul(
                fpow(o.alpha.val(), (i + cs.len()) as nat),
                scalar_sem(c, n, w, pt, o, e0, e1)->Some_0,
            ),
        ),
    decreases cs.len(),
{
    reveal_with_fuel(combine_value, 3);
    if cs.len() == 0 {
        assert(cs.push(c)[0] == c);
        assert(cs.push(c).drop_first() =~= Seq::<Expr>::empty());
    } else {
        assert(cs.push(c)[0] == cs[0]);
        assert(cs.push(c).drop_first() =~= cs.drop_first().push(c));
        let acc2 = fadd(
            acc,
            fmul(fpow(o.alpha.val(), i as nat), scalar_sem(cs[0], n, w, pt, o, e0, e1)->Some_0),
        );
        lemma_combine_value_linear(acc2, i + 1, cs.drop_first(), c, n, w, pt, o, e0, e1);
        assert(cs.drop_first().len() == cs.len() - 1);
    }
}

/// The expression uses only what scalar evaluation can supply: no joint
/// combiner, and no cell of an index or lookup-kind column.
pub open spec fn pointwise_ok(e: Expr) -> bool
    decreases e,
{
    match e {
        Expr::JointCombiner { .. } => false,
        Expr::Cell(v) => match v.col {
            crate::expr::Column::LookupKindIndex(_) => false,
            crate::expr::Column::Index(_) => false,
            _ => true,
        },
        Expr::Mul(x, y) => pointwise_ok(*x) && pointwise_ok(*y),
        Expr::Add(x, y) => pointwise_ok(*x) && pointwise_ok(*y),
        Expr::Sub(x, y) => pointwise_ok(*x) && pointwise_ok(*y),
        _ => true,
    }
}

/// No Lagrange leaf of the expression has its pole at the `i`-th point
/// of the extended domain of stride `k`: the basis polynomial `l_j` is
/// the ratio `(x^n - 1)/(x - w^j)`, whose two sides vanish together only
/// at `w^j` itself.
pub open spec fn no_lagrange_pole(e: Expr, k: int, i: int) -> bool
    decreases e,
{
    match e {
        Expr::UnnormalizedLagrangeBasis(j) => !(i % k == 0 && i / k == j),
        Expr::Mul(x, y) => no_lagrange_pole(*x, k, i) && no_lagrange_pole(*y, k, i),
        Expr::Add(x, y) => no_lagrange_pole(*x, k, i) && no_lagrange_pole(*y, k, i),
        Expr::Sub(x, y) => no_lagrange_pole(*x, k, i) && no_lagrange_pole(*y, k, i),
        _ => true,
    }
}

/// The scalar context agrees with the environment at the `i`-th point of
/// the target domain: the oracles carry the environment's challenges,
/// the two evaluation records hold the environment's vectors read at the
/// aligned index and its shift, and the precomputed vanishing-rows vector
/// holds that polynomial's values.
pub open spec fn consistent_at(
    env: Environment,
    t: DomainTag,
    i: int,
    o: RandomOracles,
    e0: ProofEvaluations,
    e1: ProofEvaluations,
) -> bool {
    let stride = (8nat / tag_factor(t)) as int;
    let pt = fpow(env.tag_domain(t).w(), i as nat);
    &&& o.alpha == env.alpha
    &&& o.beta == env.beta
    &&& o.gamma == env.gamma
    &&& e0.w@.len() == env.witness@.len()
    &&& e1.w@.len() == env.witness@.len()
    &&& e0.lookup_sorted@.len() == env.lookup_sorted@.len()
    &&& e1.lookup_sorted@.len() == env.lookup_sorted@.len()
    &&& forall|m: int|
        0 <= m < env.witness@.len() ==> (#[trigger] e0.w@[m]).val() == sub_read(
            env.witness@[m].vals(),
            stride,
            0,
            i,
        )
    &&& forall|m: int|
        0 <= m < env.witness@.len() ==> (#[trigger] e1.w@[m]).val() == sub_read(
            env.witness@[m].vals(),
            stride,
            1,
            i,
        )
    &&& e0.z.val() == sub_read(env.z.vals(), stride, 0, i)
    &&& e1.z.val() == sub_read(env.z.vals(), stride, 1, i)
    &&& forall|m: int|
        0 <= m < env.lookup_sorted@.len() ==> (#[trigger] e0.lookup_sorted@[m]).val() == sub_read(
            env.lookup_sorted@[m].vals(),
            stride,
            0,
            i,
        )
    &&& forall|m: int|
        0 <= m < env.lookup_sorted@.len() ==> (#[trigger] e1.lookup_sorted@[m]).val() == sub_read(
            env.lookup_sorted@[m].vals(),
            stride,
            1,
            i,
        )
    &&& e0.lookup_aggreg.val() == sub_read(env.lookup_aggreg.vals(), stride, 0, i)
    &&& e1.lookup_aggreg.val() == sub_read(env.lookup_aggreg.vals(), stride, 1, i)
    &&& e0.lookup_table.val() == sub_read(env.lookup_table.vals(), stride, 0, i)
    &&& e1.lookup_table.val() == sub_read(env.lookup_table.vals(), stride, 1, i)
    &&& sub_read(env.zk_polynomial.vals(), stride, 0, i) == crate::expr::zk_sem(
        env.domain.d1.n(),
        env.domain.d1.w(),
        pt,
    )
}

/// The `i`-th point of the extended domain splits into its base-domain
/// part and its coset part: `g^(q k + r) = w^q g^r`.
proof fn lemma_point_split(env: Environment, t: DomainTag, q: int, r: int)
    requires
        env.wf(),
        0 <= q,
        0 <= r,
    ensures
        fpow(env.tag_domain(t).w(), (q * tag_factor(t) + r) as nat) == fmul(
            fpow(env.domain.d1.w(), q as nat),
            fpow(env.tag_domain(t).w(), r as nat),
        ),
{
    let g = env.tag_domain(t).w();
    let w = env.domain.d1.w();
    let k = tag_factor(t);
    let s: nat = match t {
        DomainTag::D1 => 0,
        DomainTag::D4 => 2,
        DomainTag::D8 => 3,
    };
    assert(pow2(s) == k) by {
        vstd::arithmetic::power2::lemma2_to64();
    }
    assert(fpow(g, k) == w) by {
        crate::domains::lemma_domain_gen_nested(env.tag_domain(t), env.domain.d1, s);
    }
    assert((q * k + r) as nat == (q * k) as nat + r as nat);
    lemma_fpow_adds(g, (q * k) as nat, r as nat);
    assert(fpow(g, (q * k) as nat) == fpow(w, q as nat)) by {
        assert((q * k) as nat == (k as int * q) as nat) by {
            vstd::arithmetic::mul::lemma_mul_is_commutative(q, k as int);
        }
        lemma_fpow_multiplies(g, k, q as nat);
    }
}

/// The vanishing numerator at a point of the extended domain depends
/// only on the coset part: `(g^(q k + r))^n = (g^n)^r`.
proof fn lemma_vanishing_numerator(env: Environment, t: DomainTag, q: int, r: int)
    requires
        env.wf(),
        0 <= q,
        0 <= r,
    ensures
        fpow(
            fpow(env.tag_domain(t).w(), (q * tag_factor(t) + r) as nat),
            env.domain.d1.n(),
        ) == fpow(fpow(env.tag_domain(t).w(), env.domain.d1.n()), r as nat),
{
    let g = env.tag_domain(t).w();
    let n1 = env.domain.d1.n();
    let k = tag_factor(t);
    let i: nat = (q * k + r) as nat;
    lemma_fpow_multiplies(g, i, n1);
    assert(fpow(g, i * n1) == fpow(fpow(g, i), n1)) by {
        lemma_fpow_multiplies(g, i, n1);
    }
    // i * n1 = q * (k n1) + r * n1
    assert(i * n1 == (q * (k * n1) as int) as nat + r as nat * n1) by {
        vstd::arithmetic::mul::lemma_mul_is_distributive_add_other_way(
            n1 as int,
            q * k as int,
            r,
        );
        vstd::arithmetic::mul::lemma_mul_is_associative(q, k as int, n1 as int);
        vstd::arithmetic::mul::lemma_mul_is_commutative(q * k as int, n1 as int);
        vstd::arithmetic::mul::lemma_mul_is_commutative(r, n1 as int);
    }
    lemma_fpow_adds(g, (q * (k * n1) as int) as nat, r as nat * n1);
    assert(fpow(g, (q * (k * n1) as int) as nat) == 1) by {
        assert(fpow(g, (k * n1) as nat) == 1) by {
            lemma_tag_domain_size(env, t);
            crate::domains::lemma_domain_gen_order(env.tag_domain(t));
        }
        assert((q * (k * n1) as int) as nat == (k * n1) as nat * q as nat) by {
            vstd::arithmetic::mul::lemma_mul_is_commutative(q, (k * n1) as int);
        }
        lemma_fpow_multiplies(g, (k * n1) as nat, q as nat);
        crate::modarith::lemma_fpow_ones(q as nat);
    }
    assert(fpow(g, r as nat * n1) == fpow(fpow(g, n1), r as nat)) by {
        assert(r as nat * n1 == n1 * r as nat) by {
            vstd::arithmetic::mul::lemma_mul_is_commutative(r, n1 as int);
        }
        lemma_fpow_multiplies(g, n1, r as nat);
    }
    assert(fmul(1, fpow(fpow(g, n1), r as nat)) == fpow(fpow(g, n1), r as nat)) by {
        crate::modarith::lemma_fpow_bound(fpow(g, n1), r as nat);
        vstd::arithmetic::mul::lemma_mul_basics(fpow(fpow(g, n1), r as nat) as int);
        vstd::arithmetic::div_mod::lemma_small_mod(
            fpow(fpow(g, n1), r as nat),
            crate::modarith::P as nat,
        );
    }
}

/// Scalar evaluation of the Lagrange leaf at a non-pole point of the
/// extended domain gives the same value as the vector formula.
proof fn lemma_lagrange_pointwise(env: Environment, t: DomainTag, j: int, i: int)
    requires
        env.wf(),
        0 <= i < tag_n(env, t),
        0 <= j,
        !(i % (tag_factor(t) as int) == 0 && i / (tag_factor(t) as int) == j),
    ensures
        crate::modarith::fdiv(
            fsub(fpow(fpow(env.tag_domain(t).w(), i as nat), env.domain.d1.n()), 1),
            fsub(
                fpow(env.tag_domain(t).w(), i as nat),
                fpow(env.domain.d1.w(), j as nat),
            ),
        ) == ulag_sem(
            env.l0_1.val(),
            env.domain.d1.n(),
            env.domain.d1.w(),
            env.tag_domain(t).w(),
            j,
            i / (tag_factor(t) as int),
            i % (tag_factor(t) as int),
        ),
{
    let g = env.tag_domain(t).w();
    let w = env.domain.d1.w();
    let n1 = env.domain.d1.n();
    let k = tag_factor(t) as int;
    let q = i / k;
    let r = i % k;
    vstd::arithmetic::div_mod::lemma_fundamental_div_mod(i, k);
    vstd::arithmetic::div_mod::lemma_mod_bound(i, k);
    vstd::arithmetic::div_mod::lemma_div_pos_is_pos(i, k);
    assert(i == k * q + r);
    assert(q * k + r == i) by {
        vstd::arithmetic::mul::lemma_mul_is_commutative(q, k);
    }
    let pt = fpow(g, i as nat);
    lemma_vanishing_numerator(env, t, q, r);
    lemma_point_split(env, t, q, r);
    if r == 0 {
        // a base-domain point away from the pole: both sides are zero
        assert(fpow(fpow(g, n1), 0) == 1);
        assert(fsub(fpow(pt, n1), 1) == 0) by {
            crate::modarith::lemma_fneg_cancels(1);
        }
        assert(crate::modarith::fdiv(
            0,
            fsub(pt, fpow(w, j as nat)),
        ) == 0) by {
            vstd::arithmetic::mul::lemma_mul_basics(
                crate::modarith::finv(fsub(pt, fpow(w, j as nat))) as int,
            );
            vstd::arithmetic::div_mod::lemma_small_mod(0nat, crate::modarith::P as nat);
        }
    } else {
        // a coset point: numerator and denominator match term for term
        assert(fpow(fpow(g, i as nat), n1) == fpow(fpow(g, n1), r as nat));
        assert(fpow(g, i as nat) == fmul(fpow(w, q as nat), fpow(g, r as nat)));
    }
}

/// Evaluating over the extended domain agrees with scalar evaluation at
/// each of its points: at the `i`-th point, an expression free of joint
/// combiners, index cells, and Lagrange poles takes the same value both
/// ways, provided the scalar context carries the environment's data.
pub proof fn lemma_domain_extension_consistency(
    e: Expr,
    env: Environment,
    t: DomainTag,
    i: int,
    o: RandomOracles,
    e0: ProofEvaluations,
    e1: ProofEvaluations,
)
    requires
        env.wf(),
        crate::evaluations::expr_env_ok(e, env),
        pointwise_ok(e),
        no_lagrange_pole(e, tag_factor(t) as int, i),
        0 <= i < tag_n(env, t),
        consistent_at(env, t, i, o, e0, e1),
    ensures
        scalar_sem(
            e,
            env.domain.d1.n(),
            env.domain.d1.w(),
            fpow(env.tag_domain(t).w(), i as nat),
            o,
            e0,
            e1,
        ) == Some(evals_sem(e, env, t, i)),
    decreases e,
{
    let n1 = env.domain.d1.n();
    let w1 = env.domain.d1.w();
    let pt = fpow(env.tag_domain(t).w(), i as nat);
    match e {
        Expr::Mul(x, y) => {
            lemma_domain_extension_consistency(*x, env, t, i, o, e0, e1);
            lemma_domain_extension_consistency(*y, env, t, i, o, e0, e1);
        },
        Expr::Add(x, y) => {
            lemma_domain_extension_consistency(*x, env, t, i, o, e0, e1);
            lemma_domain_extension_consistency(*y, env, t, i, o, e0, e1);
        },
        Expr::Sub(x, y) => {
            lemma_domain_extension_consistency(*x, env, t, i, o, e0, e1);
            lemma_domain_extension_consistency(*y, env, t, i, o, e0, e1);
        },
        Expr::UnnormalizedLagrangeBasis(j) => {
            lemma_lagrange_pointwise(env, t, j as int, i);
        },
        _ => {},
    }
}

/// The variable list is ordered by the canonical key.
pub open spec fn key_sorted(ks: Seq<Variable>) -> bool {
    forall|a: int, b: int| 0 <= a < b < ks.len() ==> var_key(ks[a]) <= var_key(ks[b])
}

/// No two terms of the association list share a key.
pub open spec fn keys_distinct(s: Seq<(Seq<Variable>, Expr)>) -> bool {
    forall|a: int, b: int| 0 <= a < b < s.len() ==> (#[trigger] s[a]).0 != (#[trigger] s[b]).0
}

/// Every key of the association list is ordered.
pub open spec fn keys_sorted_all(s: Seq<(Seq<Variable>, Expr)>) -> bool {
    forall|a: int| 0 <= a < s.len() ==> key_sorted((#[trigger] s[a]).0)
}

/// Some term of the association list carries this key.
pub open spec fn has_key(s: Seq<(Seq<Variable>, Expr)>, k: Seq<Variable>) -> bool {
    exists|a: int| 0 <= a < s.len() && (#[trigger] s[a]).0 == k
}

/// The monomial expansion of a sum merges the two expansions
/// coefficient-wise; this holds by construction of the expansion.
pub proof fn lemma_monomials_of_sum(x: Expr, y: Expr)
    ensures
        mono_spec(Expr::Add(Box::new(x), Box::new(y))) == merge_add(mono_spec(x), mono_spec(y)),
        mono_spec(Expr::Sub(Box::new(x), Box::new(y))) == merge_sub(mono_spec(x), mono_spec(y)),
{
}

/// The monomial expansion of a product is the distributive convolution
/// of the two expansions, the keys concatenated and re-ordered and the
/// coefficients multiplied; this holds by construction of the expansion.
pub proof fn lemma_monomials_of_product(x: Expr, y: Expr)
    ensures
        mono_spec(Expr::Mul(Box::new(x), Box::new(y))) == conv(
            Seq::empty(),
            mono_spec(x),
            mono_spec(y),
        ),
{
}

/// Merging two ordered variable lists gives an ordered list of the
/// combined length, headed by one of the two heads.
proof fn lemma_merge_keys_sorted(a: Seq<Variable>, b: Seq<Variable>)
    requires
        key_sorted(a),
        key_sorted(b),
    ensures
        key_sorted(merge_keys(a, b)),
        merge_keys(a, b).len() == a.len() + b.len(),
        merge_keys(a, b).len() > 0 ==> ((a.len() > 0 && merge_keys(a, b)[0] == a[0]) || (b.len()
            > 0 && merge_keys(a, b)[0] == b[0])),
    decreases a.len() + b.len(),
{
    let m = merge_keys(a, b);
    if a.len() == 0 || b.len() == 0 {
    } else if var_key(a[0]) <= var_key(b[0]) {
        let a2 = a.drop_first();
        assert(key_sorted(a2)) by {
            assert forall|s2: int, t2: int| 0 <= s2 < t2 < a2.len() implies var_key(a2[s2])
                <= var_key(a2[t2]) by {
                assert(a2[s2] == a[s2 + 1] && a2[t2] == a[t2 + 1]);
            }
        }
        lemma_merge_keys_sorted(a2, b);
        let m2 = merge_keys(a2, b);
        assert(m == seq![a[0]] + m2);
        assert forall|s2: int, t2: int| 0 <= s2 < t2 < m.len() implies var_key(m[s2]) <= var_key(
            m[t2],
        ) by {
            assert(m[t2] == m2[t2 - 1]);
            if s2 == 0 {
                assert(m[0] == a[0]);
                if m2.len() > 0 {
                    assert(var_key(a[0]) <= var_key(m2[0])) by {
                        if a2.len() > 0 && m2[0] == a2[0] {
                            assert(var_key(a[0]) <= var_key(a[1]));
                        }
                    }
                    if t2 - 1 > 0 {
                        assert(var_key(m2[0]) <= var_key(m2[t2 - 1]));
                    }
                }
            } else {
                assert(m[s2] == m2[s2 - 1]);
            }
        }
    } else {
        let b2 = b.drop_first();
        assert(key_sorted(b2)) by {
            assert forall|s2: int, t2: int| 0 <= s2 < t2 < b2.len() implies var_key(b2[s2])
                <= var_key(b2[t2]) by {
                assert(b2[s2] == b[s2 + 1] && b2[t2] == b[t2 + 1]);
            }
        }
        lemma_merge_keys_sorted(a, b2);
        let m2 = merge_keys(a, b2);
        assert(m == seq![b[0]] + m2);
        assert forall|s2: int, t2: int| 0 <= s2 < t2 < m.len() implies var_key(m[s2]) <= var_key(
            m[t2],
        ) by {
            assert(m[t2] == m2[t2 - 1]);
            if s2 == 0 {
                assert(m[0] == b[0]);
                if m2.len() > 0 {
                    assert(var_key(b[0]) <= var_key(m2[0])) by {
                        if b2.len() > 0 && m2[0] == b2[0] {
                            assert(var_key(b[0]) <= var_key(b[1]));
                        }
                    }
                    if t2 - 1 > 0 {
                        assert(var_key(m2[0]) <= var_key(m2[t2 - 1]));
                    }
                }
            } else {
                assert(m[s2] == m2[s2 - 1]);
            }
        }
    }
}

/// Inserting a term keeps the keys distinct and ordered, and adds no key
/// beyond the inserted one.
proof fn lemma_ins_add_canonical(s: Seq<(Seq<Variable>, Expr)>, k: Seq<Variable>, c: Expr)
    requires
        keys_distinct(s),
        keys_sorted_all(s),
        key_sorted(k),
    ensures
        keys_distinct(ins_add(s, k, c)),
        keys_sorted_all(ins_add(s, k, c)),
        forall|a: int|
            0 <= a < ins_add(s, k, c).len() ==> (#[trigger] ins_add(s, k, c)[a]).0 == k || has_key(
                s,
                ins_add(s, k, c)[a].0,
            ),
    decreases s.len(),
{
    let out = ins_add(s, k, c);
    if s.len() == 0 {
    } else if s[0].0 == k {
        assert(out == seq![(k, add_spec(s[0].1, c))] + s.drop_first());
        assert forall|a: int, b: int| 0 <= a < b < out.len() implies (#[trigger] out[a]).0 != (
        #[trigger] out[b]).0 by {
            if a == 0 {
                assert(out[b] == s[b]);
                assert(s[0].0 != s[b].0);
            } else {
                assert(out[a] == s[a] && out[b] == s[b]);
            }
        }
        assert forall|a: int| 0 <= a < out.len() implies key_sorted((#[trigger] out[a]).0) by {
            if a > 0 {
                assert(out[a] == s[a]);
            }
        }
        assert forall|a: int| 0 <= a < out.len() implies (#[trigger] out[a]).0 == k || has_key(
            s,
            out[a].0,
        ) by {
            if a > 0 {
                assert(out[a] == s[a]);
                assert(has_key(s, s[a].0));
            }
        }
    } else {
        let s2 = s.drop_first();
        assert(keys_distinct(s2) && keys_sorted_all(s2)) by {
            assert forall|a: int, b: int| 0 <= a < b < s2.len() implies (#[trigger] s2[a]).0 != (
            #[trigger] s2[b]).0 by {
                assert(s2[a] == s[a + 1] && s2[b] == s[b + 1]);
            }
            assert forall|a: int| 0 <= a < s2.len() implies key_sorted((#[trigger] s2[a]).0) by {
                assert(s2[a] == s[a + 1]);
            }
        }
        lemma_ins_add_canonical(s2, k, c);
        let inner = ins_add(s2, k, c);
        assert(out == seq![s[0]] + inner);
        assert forall|a: int, b: int| 0 <= a < b < out.len() implies (#[trigger] out[a]).0 != (
        #[trigger] out[b]).0 by {
            assert(out[b] == inner[b - 1]);
            if a == 0 {
                assert(inner[b - 1].0 == k || has_key(s2, inner[b - 1].0));
                if inner[b - 1].0 != k {
                    let t = choose|t: int| 0 <= t < s2.len() && (#[trigger] s2[t]).0 == inner[b
                        - 1].0;
                    assert(s2[t] == s[t + 1]);
                    assert(s[0].0 != s[t + 1].0);
                }
            } else {
                assert(out[a] == inner[a - 1]);
            }
        }
        assert forall|a: int| 0 <= a < out.len() implies key_sorted((#[trigger] out[a]).0) by {
            if a > 0 {
                assert(out[a] == inner[a - 1]);
            } else {
                assert(out[0] == s[0]);
            }
        }
        assert forall|a: int| 0 <= a < out.len() implies (#[trigger] out[a]).0 == k || has_key(
            s,
            out[a].0,
        ) by {
            if a == 0 {
                assert(has_key(s, s[0].0));
            } else {
                assert(out[a] == inner[a - 1]);
                if inner[a - 1].0 != k {
                    let t = choose|t: int| 0 <= t < s2.len() && (#[trigger] s2[t]).0 == inner[a
                        - 1].0;
                    assert(s2[t] == s[t + 1]);
                    assert(has_key(s, s[t + 1].0));
                }
            }
        }
    }
}

/// The subtracting insertion keeps the same key discipline.
proof fn lemma_ins_sub_canonical(s: Seq<(Seq<Variable>, Expr)>, k: Seq<Variable>, c: Expr)
    requires
        keys_distinct(s),
        keys_sorted_all(s),
        key_sorted(k),
    ensures
        keys_distinct(ins_sub(s, k, c)),
        keys_sorted_all(ins_sub(s, k, c)),
        forall|a: int|
            0 <= a < ins_sub(s, k, c).len() ==> (#[trigger] ins_sub(s, k, c)[a]).0 == k || has_key(
                s,
                ins_sub(s, k, c)[a].0,
            ),
    decreases s.len(),
{
    let out = ins_sub(s, k, c);
    if s.len() == 0 {
    } else if s[0].0 == k {
        assert(out == seq![(k, crate::expr::sub_spec(s[0].1, c))] + s.drop_first());
        assert forall|a: int, b: int| 0 <= a < b < out.len() implies (#[trigger] out[a]).0 != (
        #[trigger] out[b]).0 by {
            if a == 0 {
                assert(out[b] == s[b]);
                assert(s[0].0 != s[b].0);
            } else {
                assert(out[a] == s[a] && out[b] == s[b]);
            }
        }
        assert forall|a: int| 0 <= a < out.len() implies key_sorted((#[trigger] out[a]).0) by {
            if a > 0 {
                assert(out[a] == s[a]);
            }
        }
        assert forall|a: int| 0 <= a < out.len() implies (#[trigger] out[a]).0 == k || has_key(
            s,
            out[a].0,
        ) by {
            if a > 0 {
                assert(out[a] == s[a]);
                assert(has_key(s, s[a].0));
            }
        }
    } else {
        let s2 = s.drop_first();
        assert(keys_distinct(s2) && keys_sorted_all(s2)) by {
            assert forall|a: int, b: int| 0 <= a < b < s2.len() implies (#[trigger] s2[a]).0 != (
            #[trigger] s2[b]).0 by {
                assert(s2[a] == s[a + 1] && s2[b] == s[b + 1]);
            }
            assert forall|a: int| 0 <= a < s2.len() implies key_sorted((#[trigger] s2[a]).0) by {
                assert(s2[a] == s[a + 1]);
            }
        }
        lemma_ins_sub_canonical(s2, k, c);
        let inner = ins_sub(s2, k, c);
        assert(out == seq![s[0]] + inner);
        assert forall|a: int, b: int| 0 <= a < b < out.len() implies (#[trigger] out[a]).0 != (
        #[trigger] out[b]).0 by {
            assert(out[b] == inner[b - 1]);
            if a == 0 {
                if inner[b - 1].0 != k {
                    let t = choose|t: int| 0 <= t < s2.len() && (#[trigger] s2[t]).0 == inner[b
                        - 1].0;
                    assert(s2[t] == s[t + 1]);
                    assert(s[0].0 != s[t + 1].0);
                }
            } else {
                assert(out[a] == inner[a - 1]);
            }
        }
        assert forall|a: int| 0 <= a < out.len() implies key_sorted((#[trigger] out[a]).0) by {
            if a > 0 {
                assert(out[a] == inner[a - 1]);
            } else {
                assert(out[0] == s[0]);
            }
        }
        assert forall|a: int| 0 <= a < out.len() implies (#[trigger] out[a]).0 == k || has_key(
            s,
            out[a].0,
        ) by {
            if a == 0 {
                assert(has_key(s, s[0].0));
            } else {
                assert(out[a] == inner[a - 1]);
                if inner[a - 1].0 != k {
                    let t = choose|t: int| 0 <= t < s2.len() && (#[trigger] s2[t]).0 == inner[a
                        - 1].0;
                    assert(s2[t] == s[t + 1]);
                    assert(has_key(s, s[t + 1].0));
                }
            }
        }
    }
}

/// Merging keeps the accumulated list canonical.
proof fn lemma_merge_add_canonical(s: Seq<(Seq<Variable>, Expr)>, t: Seq<(Seq<Variable>, Expr)>)
    requires
        keys_distinct(s),
        keys_sorted_all(s),
        keys_sorted_all(t),
    ensures
        keys_distinct(merge_add(s, t)),
        keys_sorted_all(merge_add(s, t)),
    decreases t.len(),
{
    if t.len() > 0 {
        assert(key_sorted(t[0].0));
        lemma_ins_add_canonical(s, t[0].0, t[0].1);
        let t2 = t.drop_first();
        assert(keys_sorted_all(t2)) by {
            assert forall|a: int| 0 <= a < t2.len() implies key_sorted((#[trigger] t2[a]).0) by {
                assert(t2[a] == t[a + 1]);
            }
        }
        lemma_merge_add_canonical(ins_add(s, t[0].0, t[0].1), t2);
    }
}

proof fn lemma_merge_sub_canonical(s: Seq<(Seq<Variable>, Expr)>, t: Seq<(Seq<Variable>, Expr)>)
    requires
        keys_distinct(s),
        keys_sorted_all(s),
        keys_sorted_all(t),
    ensures
        keys_distinct(merge_sub(s, t)),
        keys_sorted_all(merge_sub(s, t)),
    decreases t.len(),
{
    if t.len() > 0 {
        assert(key_sorted(t[0].0));
        lemma_ins_sub_canonical(s, t[0].0, t[0].1);
        let t2 = t.drop_first();
        assert(keys_sorted_all(t2)) by {
            assert forall|a: int| 0 <= a < t2.len() implies key_sorted((#[trigger] t2[a]).0) by {
                assert(t2[a] == t[a + 1]);
            }
        }
        lemma_merge_sub_canonical(ins_sub(s, t[0].0, t[0].1), t2);
    }
}

/// One convolution row keeps the accumulated list canonical.
proof fn lemma_conv_row_canonical(
    acc: Seq<(Seq<Variable>, Expr)>,
    k1: Seq<Variable>,
    c1: Expr,
    t: Seq<(Seq<Variable>, Expr)>,
)
    requires
        keys_distinct(acc),
        keys_sorted_all(acc),
        key_sorted(k1),
        keys_sorted_all(t),
    ensures
        keys_distinct(conv_row(acc, k1, c1, t)),
        keys_sorted_all(conv_row(acc, k1, c1, t)),
    decreases t.len(),
{
    if t.len() > 0 {
        assert(key_sorted(t[0].0));
        lemma_merge_keys_sorted(k1, t[0].0);
        lemma_ins_add_canonical(acc, merge_keys(k1, t[0].0), mul_spec(c1, t[0].1));
        let t2 = t.drop_first();
        assert(keys_sorted_all(t2)) by {
            assert forall|a: int| 0 <= a < t2.len() implies key_sorted((#[trigger] t2[a]).0) by {
                assert(t2[a] == t[a + 1]);
            }
        }
        lemma_conv_row_canonical(
            ins_add(acc, merge_keys(k1, t[0].0), mul_spec(c1, t[0].1)),
            k1,
            c1,
            t2,
        );
    }
}

/// The whole convolution keeps the accumulated list canonical.
proof fn lemma_conv_canonical(
    acc: Seq<(Seq<Variable>, Expr)>,
    s: Seq<(Seq<Variable>, Expr)>,
    t: Seq<(Seq<Variable>, Expr)>,
)
    requires
        keys_distinct(acc),
        keys_sorted_all(acc),
        keys_sorted_all(s),
        keys_sorted_all(t),
    ensures
        keys_distinct(conv(acc, s, t)),
        keys_sorted_all(conv(acc, s, t)),
    decreases s.len(),
{
    if s.len() > 0 {
        assert(key_sorted(s[0].0));
        lemma_conv_row_canonical(acc, s[0].0, s[0].1, t);
        let s2 = s.drop_first();
        assert(keys_sorted_all(s2)) by {
            assert forall|a: int| 0 <= a < s2.len() implies key_sorted((#[trigger] s2[a]).0) by {
                assert(s2[a] == s[a + 1]);
            }
        }
        lemma_conv_canonical(conv_row(acc, s[0].0, s[0].1, t), s2, t);
    }
}

/// The monomial expansion is canonical: every key is a variable list in
/// the canonical order, and no key occurs twice.
pub proof fn lemma_monomials_canonical(e: Expr)
    ensures
        keys_distinct(mono_spec(e)),
        keys_sorted_all(mono_spec(e)),
    decreases e,
{
    match e {
        Expr::Add(x, y) => {
            lemma_monomials_canonical(*x);
            lemma_monomials_canonical(*y);
            lemma_merge_add_canonical(mono_spec(*x), mono_spec(*y));
        },
        Expr::Sub(x, y) => {
            lemma_monomials_canonical(*x);
            lemma_monomials_canonical(*y);
            lemma_merge_sub_canonical(mono_spec(*x), mono_spec(*y));
        },
        Expr::Mul(x, y) => {
            lemma_monomials_canonical(*x);
            lemma_monomials_canonical(*y);
            lemma_conv_canonical(Seq::empty(), mono_spec(*x), mono_spec(*y));
        },
        _ => {},
    }
}

} // verus!
