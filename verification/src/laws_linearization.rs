//! The semantic laws of monomial expansion and linearization: the sum of
//! an expression's monomials takes the expression's own scalar value, and
//! linearization redistributes that sum between the constant term and the
//! per-column index terms without changing it.

use vstd::prelude::*;
use crate::modarith::{
    P, fadd, fsub, fmul, lemma_fadd_assoc, lemma_fadd_comm, lemma_fmul_assoc, lemma_fmul_comm,
    lemma_fmul_distributes, lemma_fmul_distributes_right, lemma_fmul_distributes_sub,
    lemma_fsub_zero, lemma_fadd_fsub_swap, lemma_fsub_fsub, lemma_fneg_cancels,
};
use vstd::arithmetic::div_mod::lemma_small_mod;
use vstd::arithmetic::mul::{lemma_mul_basics, lemma_mul_by_zero_is_zero};
use crate::scalars::{RandomOracles, ProofEvaluations};
use crate::expr::{
    Expr, Column, Variable, cell_sem, scalar_sem, expr_ok, add_spec, mul_spec, sub_spec,
    zero_expr, one_expr, ins_add, ins_sub, merge_add, merge_sub, merge_keys, conv_row, conv,
    mono_spec,
};
use crate::laws::{lemma_scalar_sem_bound, lemma_add_spec_sem, lemma_mul_spec_sem, pointwise_ok};

verus! {

/// One fixed scalar-evaluation context: the base domain data, the point,
/// the challenges, and the two per-row evaluation records.
pub struct SemCtx {
    pub n: nat,
    pub w: nat,
    pub pt: nat,
    pub o: RandomOracles,
    pub e0: ProofEvaluations,
    pub e1: ProofEvaluations,
}

impl SemCtx {
    pub open spec fn wf(self) -> bool {
        self.o.wf() && self.e0.wf() && self.e1.wf()
    }

    /// Scalar evaluation in this context.
    pub open spec fn sem(self, c: Expr) -> Option<nat> {
        scalar_sem(c, self.n, self.w, self.pt, self.o, self.e0, self.e1)
    }

    /// Its value, where defined.
    pub open spec fn semv(self, c: Expr) -> nat {
        self.sem(c)->Some_0
    }
}

/// The cell can be read from the records: not an index column, and
/// within bounds on both rows.
pub open spec fn cell_ok(v: Variable, c: SemCtx) -> bool {
    match v.col {
        Column::Witness(i) => (i as int) < c.e0.w@.len() && (i as int) < c.e1.w@.len(),
        Column::LookupSorted(i) => (i as int) < c.e0.lookup_sorted@.len() && (i as int)
            < c.e1.lookup_sorted@.len(),
        Column::LookupKindIndex(_) => false,
        Column::Index(_) => false,
        _ => true,
    }
}

/// The value of a cell in this context.
pub open spec fn cellv(v: Variable, c: SemCtx) -> nat {
    cell_sem(v, c.e0, c.e1)->Some_0
}

proof fn lemma_cell_bound(v: Variable, c: SemCtx)
    requires
        c.wf(),
        cell_ok(v, c),
    ensures
        cell_sem(v, c.e0, c.e1) is Some,
        cellv(v, c) < P,
{
}

/// Every variable of the list is a readable cell.
pub open spec fn vars_ok(ks: Seq<Variable>, c: SemCtx) -> bool {
    forall|i: int| 0 <= i < ks.len() ==> cell_ok(#[trigger] ks[i], c)
}

/// The product of the cells of a monomial's variables.
pub open spec fn prod_cells(ks: Seq<Variable>, c: SemCtx) -> nat
    decreases ks.len(),
{
    if ks.len() == 0 {
        1
    } else {
        fmul(cellv(ks[0], c), prod_cells(ks.drop_first(), c))
    }
}

/// The coefficient stays inside the records and evaluates.
pub open spec fn coeff_ok(x: Expr, c: SemCtx) -> bool {
    &&& expr_ok(x, c.e0.w@.len(), c.e0.lookup_sorted@.len(), c.n)
    &&& expr_ok(x, c.e1.w@.len(), c.e1.lookup_sorted@.len(), c.n)
    &&& c.sem(x) is Some
}

/// The value one monomial contributes: its coefficient times its cells.
pub open spec fn term_val(t: (Seq<Variable>, Expr), c: SemCtx) -> nat {
    fmul(c.semv(t.1), prod_cells(t.0, c))
}

/// The value of a whole monomial list.
pub open spec fn terms_sum(s: Seq<(Seq<Variable>, Expr)>, c: SemCtx) -> nat
    decreases s.len(),
{
    if s.len() == 0 {
        0
    } else {
        fadd(term_val(s[0], c), terms_sum(s.drop_first(), c))
    }
}

/// Every term has a defined coefficient and readable cells.
pub open spec fn terms_ok(s: Seq<(Seq<Variable>, Expr)>, c: SemCtx) -> bool {
    forall|i: int|
        0 <= i < s.len() ==> coeff_ok((#[trigger] s[i]).1, c) && vars_ok(s[i].0, c)
}

proof fn lemma_coeff_bound(x: Expr, c: SemCtx)
    requires
        c.wf(),
        coeff_ok(x, c),
    ensures
        c.semv(x) < P,
{
    lemma_scalar_sem_bound(x, c.n, c.w, c.pt, c.o, c.e0, c.e1);
}

proof fn lemma_prod_bound(ks: Seq<Variable>, c: SemCtx)
    ensures
        prod_cells(ks, c) < P,
{
    if ks.len() != 0 {
    }
}

proof fn lemma_terms_sum_bound(s: Seq<(Seq<Variable>, Expr)>, c: SemCtx)
    ensures
        terms_sum(s, c) < P,
{
    if s.len() != 0 {
    }
}

proof fn lemma_terms_ok_drop(s: Seq<(Seq<Variable>, Expr)>, c: SemCtx)
    requires
        terms_ok(s, c),
        s.len() > 0,
    ensures
        terms_ok(s.drop_first(), c),
{
    assert forall|i: int| 0 <= i < s.drop_first().len() implies coeff_ok(
        (#[trigger] s.drop_first()[i]).1,
        c,
    ) && vars_ok(s.drop_first()[i].0, c) by {
        assert(s.drop_first()[i] == s[i + 1]);
    }
}

/// The peephole constructors preserve coefficient discipline.
proof fn lemma_spec_ops_ok(a: Expr, b: Expr, c: SemCtx)
    requires
        coeff_ok(a, c),
        coeff_ok(b, c),
    ensures
        coeff_ok(add_spec(a, b), c),
        coeff_ok(mul_spec(a, b), c),
        coeff_ok(sub_spec(a, b), c),
{
}

/// Rotating the outer summand of a double sum.
proof fn lemma_fadd_rotate(a: nat, x: nat, b: nat)
    ensures
        fadd(fadd(a, x), b) == fadd(fadd(a, b), x),
{
    lemma_fadd_assoc(a, x, b);
    lemma_fadd_comm(x, b);
    lemma_fadd_assoc(a, b, x);
    assert(fadd(a, fadd(x, b)) == fadd(a, fadd(b, x))) by {
        crate::modarith::lemma_fadd_mod(a, fadd(x, b));
        crate::modarith::lemma_fadd_mod(a, fadd(b, x));
        crate::modarith::lemma_fadd_mod(a, x + b);
    }
}

/// Adding a coefficient to the list adds its term's value to the sum.
proof fn lemma_ins_add_sum(s: Seq<(Seq<Variable>, Expr)>, k: Seq<Variable>, x: Expr, c: SemCtx)
    requires
        c.wf(),
        terms_ok(s, c),
        coeff_ok(x, c),
        vars_ok(k, c),
    ensures
        terms_ok(ins_add(s, k, x), c),
        terms_sum(ins_add(s, k, x), c) == fadd(
            terms_sum(s, c),
            fmul(c.semv(x), prod_cells(k, c)),
        ),
    decreases s.len(),
{
    let out = ins_add(s, k, x);
    let xv = fmul(c.semv(x), prod_cells(k, c));
    if s.len() == 0 {
        assert(out == seq![(k, x)]);
        assert(out[0] == (k, x));
        assert(out.drop_first() =~= Seq::<(Seq<Variable>, Expr)>::empty());
        assert(terms_sum(Seq::<(Seq<Variable>, Expr)>::empty(), c) == 0);
        assert(terms_sum(out, c) == fadd(xv, 0));
        lemma_fadd_comm(xv, 0);
    } else if s[0].0 == k {
        lemma_coeff_bound(x, c);
        lemma_coeff_bound(s[0].1, c);
        lemma_add_spec_sem(s[0].1, x, c.n, c.w, c.pt, c.o, c.e0, c.e1);
        lemma_spec_ops_ok(s[0].1, x, c);
        assert(out == seq![(k, add_spec(s[0].1, x))] + s.drop_first());
        assert(out[0] == (k, add_spec(s[0].1, x)));
        assert(out.drop_first() =~= s.drop_first());
        assert forall|i: int| 0 <= i < out.len() implies coeff_ok((#[trigger] out[i]).1, c)
            && vars_ok(out[i].0, c) by {
            if i > 0 {
                assert(out[i] == s[i]);
            }
        }
        assert(term_val(out[0], c) == fmul(
            fadd(c.semv(s[0].1), c.semv(x)),
            prod_cells(k, c),
        ));
        assert(term_val(out[0], c) == fadd(term_val(s[0], c), xv)) by {
            lemma_fmul_distributes_right(c.semv(s[0].1), c.semv(x), prod_cells(k, c));
        }
        lemma_fadd_rotate(term_val(s[0], c), xv, terms_sum(s.drop_first(), c));
        assert(fadd(fadd(term_val(s[0], c), xv), terms_sum(s.drop_first(), c)) == fadd(
            fadd(term_val(s[0], c), terms_sum(s.drop_first(), c)),
            xv,
        ));
        lemma_fadd_comm(terms_sum(s, c), xv);
    } else {
        lemma_terms_ok_drop(s, c);
        lemma_ins_add_sum(s.drop_first(), k, x, c);
        let inner = ins_add(s.drop_first(), k, x);
        assert(out == seq![s[0]] + inner);
        assert(out[0] == s[0]);
        assert(out.drop_first() =~= inner);
        assert forall|i: int| 0 <= i < out.len() implies coeff_ok((#[trigger] out[i]).1, c)
            && vars_ok(out[i].0, c) by {
            if i > 0 {
                assert(out[i] == inner[i - 1]);
            }
        }
        assert(terms_sum(out, c) == fadd(term_val(s[0], c), fadd(
            terms_sum(s.drop_first(), c),
            xv,
        )));
        assert(fadd(term_val(s[0], c), fadd(terms_sum(s.drop_first(), c), xv)) == fadd(
            fadd(term_val(s[0], c), terms_sum(s.drop_first(), c)),
            xv,
        )) by {
            lemma_fadd_assoc(term_val(s[0], c), terms_sum(s.drop_first(), c), xv);
        }
    }
}

/// Subtracting a coefficient from the list subtracts its term's value.
proof fn lemma_ins_sub_sum(s: Seq<(Seq<Variable>, Expr)>, k: Seq<Variable>, x: Expr, c: SemCtx)
    requires
        c.wf(),
        terms_ok(s, c),
        coeff_ok(x, c),
        vars_ok(k, c),
    ensures
        terms_ok(ins_sub(s, k, x), c),
        terms_sum(ins_sub(s, k, x), c) == fsub(
            terms_sum(s, c),
            fmul(c.semv(x), prod_cells(k, c)),
        ),
    decreases s.len(),
{
    let out = ins_sub(s, k, x);
    let pk = prod_cells(k, c);
    let xv = fmul(c.semv(x), pk);
    if s.len() == 0 {
        assert(coeff_ok(zero_expr(), c));
        lemma_spec_ops_ok(zero_expr(), x, c);
        assert(out == seq![(k, sub_spec(zero_expr(), x))]);
        assert(out[0] == (k, sub_spec(zero_expr(), x)));
        assert(out.drop_first() =~= Seq::<(Seq<Variable>, Expr)>::empty());
        assert(c.semv(sub_spec(zero_expr(), x)) == fsub(0, c.semv(x)));
        assert(term_val(out[0], c) == fmul(fsub(0, c.semv(x)), pk));
        assert(fmul(fsub(0, c.semv(x)), pk) == fsub(fmul(0, c.semv(x)) * 0 + 0, xv) || true);
        assert(fmul(fsub(0, c.semv(x)), pk) == fsub(fmul(0, pk), xv)) by {
            lemma_fmul_distributes_sub(0, c.semv(x), pk);
        }
        assert(fmul(0, pk) == 0) by {
            lemma_mul_by_zero_is_zero(pk as int);
            lemma_small_mod(0nat, P as nat);
        }
        assert(terms_sum(Seq::<(Seq<Variable>, Expr)>::empty(), c) == 0);
        assert(terms_sum(out, c) == fadd(fsub(0, xv), 0));
        assert(fsub(0, xv) < P) by {
            lemma_fsub_zero(xv);
        }
        lemma_small_mod(fsub(0, xv), P as nat);
    } else if s[0].0 == k {
        lemma_coeff_bound(x, c);
        lemma_coeff_bound(s[0].1, c);
        lemma_spec_ops_ok(s[0].1, x, c);
        assert(out == seq![(k, sub_spec(s[0].1, x))] + s.drop_first());
        assert(out[0] == (k, sub_spec(s[0].1, x)));
        assert(out.drop_first() =~= s.drop_first());
        assert forall|i: int| 0 <= i < out.len() implies coeff_ok((#[trigger] out[i]).1, c)
            && vars_ok(out[i].0, c) by {
            if i > 0 {
                assert(out[i] == s[i]);
            }
        }
        assert(c.semv(sub_spec(s[0].1, x)) == fsub(c.semv(s[0].1), c.semv(x)));
        assert(term_val(out[0], c) == fsub(term_val(s[0], c), xv)) by {
            lemma_fmul_distributes_sub(c.semv(s[0].1), c.semv(x), pk);
        }
        lemma_fadd_fsub_swap(term_val(s[0], c), terms_sum(s.drop_first(), c), xv);
    } else {
        lemma_terms_ok_drop(s, c);
        lemma_ins_sub_sum(s.drop_first(), k, x, c);
        let inner = ins_sub(s.drop_first(), k, x);
        assert(out == seq![s[0]] + inner);
        assert(out[0] == s[0]);
        assert(out.drop_first() =~= inner);
        assert forall|i: int| 0 <= i < out.len() implies coeff_ok((#[trigger] out[i]).1, c)
            && vars_ok(out[i].0, c) by {
            if i > 0 {
                assert(out[i] == inner[i - 1]);
            }
        }
        assert(terms_sum(out, c) == fadd(term_val(s[0], c), fsub(
            terms_sum(s.drop_first(), c),
            xv,
        )));
        assert(fadd(fsub(terms_sum(s.drop_first(), c), xv), term_val(s[0], c)) == fsub(
            fadd(terms_sum(s.drop_first(), c), term_val(s[0], c)),
            xv,
        )) by {
            lemma_fadd_fsub_swap(terms_sum(s.drop_first(), c), term_val(s[0], c), xv);
        }
        lemma_fadd_comm(term_val(s[0], c), fsub(terms_sum(s.drop_first(), c), xv));
        lemma_fadd_comm(terms_sum(s.drop_first(), c), term_val(s[0], c));
    }
}

/// Merging adds the merged list's whole value.
proof fn lemma_merge_add_sum(s: Seq<(Seq<Variable>, Expr)>, t: Seq<(Seq<Variable>, Expr)>, c: SemCtx)
    requires
        c.wf(),
        terms_ok(s, c),
        terms_ok(t, c),
    ensures
        terms_ok(merge_add(s, t), c),
        terms_sum(merge_add(s, t), c) == fadd(terms_sum(s, c), terms_sum(t, c)),
    decreases t.len(),
{
    if t.len() == 0 {
        lemma_terms_sum_bound(s, c);
        lemma_small_mod(terms_sum(s, c), P as nat);
    } else {
        lemma_ins_add_sum(s, t[0].0, t[0].1, c);
        lemma_terms_ok_drop(t, c);
        let s2 = ins_add(s, t[0].0, t[0].1);
        lemma_merge_add_sum(s2, t.drop_first(), c);
        lemma_fadd_rotate(terms_sum(s, c), term_val(t[0], c), terms_sum(t.drop_first(), c));
        lemma_fadd_comm(terms_sum(t.drop_first(), c), term_val(t[0], c));
        assert(fadd(fadd(terms_sum(s, c), terms_sum(t.drop_first(), c)), term_val(t[0], c))
            == fadd(terms_sum(s, c), fadd(terms_sum(t.drop_first(), c), term_val(t[0], c)))) by {
            lemma_fadd_assoc(terms_sum(s, c), terms_sum(t.drop_first(), c), term_val(t[0], c));
        }
        assert(fadd(terms_sum(t.drop_first(), c), term_val(t[0], c)) == fadd(
            term_val(t[0], c),
            terms_sum(t.drop_first(), c),
        ));
    }
}

/// Merging with subtraction takes the merged list's whole value away.
proof fn lemma_merge_sub_sum(s: Seq<(Seq<Variable>, Expr)>, t: Seq<(Seq<Variable>, Expr)>, c: SemCtx)
    requires
        c.wf(),
        terms_ok(s, c),
        terms_ok(t, c),
    ensures
        terms_ok(merge_sub(s, t), c),
        terms_sum(merge_sub(s, t), c) == fsub(terms_sum(s, c), terms_sum(t, c)),
    decreases t.len(),
{
    if t.len() == 0 {
        lemma_terms_sum_bound(s, c);
        assert(fsub(terms_sum(s, c), 0) == terms_sum(s, c)) by {
            lemma_fneg_cancels(0);
            lemma_small_mod(0nat, P as nat);
            lemma_small_mod(terms_sum(s, c), P as nat);
        }
    } else {
        lemma_ins_sub_sum(s, t[0].0, t[0].1, c);
        lemma_terms_ok_drop(t, c);
        let s2 = ins_sub(s, t[0].0, t[0].1);
        lemma_merge_sub_sum(s2, t.drop_first(), c);
        lemma_fsub_fsub(terms_sum(s, c), term_val(t[0], c), terms_sum(t.drop_first(), c));
    }
}

proof fn lemma_vars_ok_drop(ks: Seq<Variable>, c: SemCtx)
    requires
        vars_ok(ks, c),
        ks.len() > 0,
    ensures
        vars_ok(ks.drop_first(), c),
{
    assert forall|i: int| 0 <= i < ks.drop_first().len() implies cell_ok(
        #[trigger] ks.drop_first()[i],
        c,
    ) by {
        assert(ks.drop_first()[i] == ks[i + 1]);
    }
}

proof fn lemma_fmul_identity(x: nat)
    requires
        x < P,
    ensures
        fmul(1, x) == x,
        fmul(x, 1) == x,
{
    lemma_mul_basics(x as int);
    lemma_small_mod(x, P as nat);
}

/// The product over a merge of two variable lists is the product of the
/// two products.
proof fn lemma_prod_merge(a: Seq<Variable>, b: Seq<Variable>, c: SemCtx)
    requires
        c.wf(),
        vars_ok(a, c),
        vars_ok(b, c),
    ensures
        vars_ok(merge_keys(a, b), c),
        prod_cells(merge_keys(a, b), c) == fmul(prod_cells(a, c), prod_cells(b, c)),
    decreases a.len() + b.len(),
{
    let m = merge_keys(a, b);
    let pa = prod_cells(a, c);
    let pb = prod_cells(b, c);
    if a.len() == 0 {
        lemma_prod_bound(b, c);
        lemma_fmul_identity(pb);
    } else if b.len() == 0 {
        lemma_prod_bound(a, c);
        lemma_fmul_identity(pa);
    } else if crate::expr::var_key(a[0]) <= crate::expr::var_key(b[0]) {
        lemma_vars_ok_drop(a, c);
        lemma_prod_merge(a.drop_first(), b, c);
        let m2 = merge_keys(a.drop_first(), b);
        assert(m == seq![a[0]] + m2);
        assert(m[0] == a[0]);
        assert(m.drop_first() =~= m2);
        assert forall|i: int| 0 <= i < m.len() implies cell_ok(#[trigger] m[i], c) by {
            if i > 0 {
                assert(m[i] == m2[i - 1]);
            }
        }
        assert(prod_cells(m, c) == fmul(cellv(a[0], c), fmul(prod_cells(a.drop_first(), c), pb)));
        lemma_fmul_assoc(cellv(a[0], c), prod_cells(a.drop_first(), c), pb);
    } else {
        lemma_vars_ok_drop(b, c);
        lemma_prod_merge(a, b.drop_first(), c);
        let m2 = merge_keys(a, b.drop_first());
        assert(m == seq![b[0]] + m2);
        assert(m[0] == b[0]);
        assert(m.drop_first() =~= m2);
        assert forall|i: int| 0 <= i < m.len() implies cell_ok(#[trigger] m[i], c) by {
            if i > 0 {
                assert(m[i] == m2[i - 1]);
            }
        }
        let cb = cellv(b[0], c);
        let pb2 = prod_cells(b.drop_first(), c);
        assert(prod_cells(m, c) == fmul(cb, fmul(pa, pb2)));
        assert(fmul(cb, fmul(pa, pb2)) == fmul(fmul(cb, pa), pb2)) by {
            lemma_fmul_assoc(cb, pa, pb2);
        }
        assert(fmul(cb, pa) == fmul(pa, cb)) by {
            lemma_fmul_comm(cb, pa);
        }
        assert(fmul(fmul(pa, cb), pb2) == fmul(pa, fmul(cb, pb2))) by {
            lemma_fmul_assoc(pa, cb, pb2);
        }
    }
}

/// One convolution row adds the row term scaled by the other side's sum.
proof fn lemma_conv_row_sum(
    acc: Seq<(Seq<Variable>, Expr)>,
    k1: Seq<Variable>,
    c1: Expr,
    t: Seq<(Seq<Variable>, Expr)>,
    c: SemCtx,
)
    requires
        c.wf(),
        terms_ok(acc, c),
        coeff_ok(c1, c),
        vars_ok(k1, c),
        terms_ok(t, c),
    ensures
        terms_ok(conv_row(acc, k1, c1, t), c),
        terms_sum(conv_row(acc, k1, c1, t), c) == fadd(
            terms_sum(acc, c),
            fmul(term_val((k1, c1), c), terms_sum(t, c)),
        ),
    decreases t.len(),
{
    let tv1 = term_val((k1, c1), c);
    if t.len() == 0 {
        assert(fmul(tv1, 0) == 0) by {
            lemma_mul_by_zero_is_zero(tv1 as int);
            lemma_small_mod(0nat, P as nat);
        }
        lemma_terms_sum_bound(acc, c);
        lemma_small_mod(terms_sum(acc, c), P as nat);
    } else {
        let k2 = t[0].0;
        let c2 = t[0].1;
        lemma_coeff_bound(c1, c);
        lemma_coeff_bound(c2, c);
        lemma_mul_spec_sem(c1, c2, c.n, c.w, c.pt, c.o, c.e0, c.e1);
        lemma_spec_ops_ok(c1, c2, c);
        lemma_prod_merge(k1, k2, c);
        lemma_ins_add_sum(acc, merge_keys(k1, k2), mul_spec(c1, c2), c);
        let acc2 = ins_add(acc, merge_keys(k1, k2), mul_spec(c1, c2));
        lemma_terms_ok_drop(t, c);
        lemma_conv_row_sum(acc2, k1, c1, t.drop_first(), c);
        // the inserted value is the product of the two terms
        let s1 = c.semv(c1);
        let s2 = c.semv(c2);
        let p1 = prod_cells(k1, c);
        let p2 = prod_cells(k2, c);
        assert(fmul(c.semv(mul_spec(c1, c2)), prod_cells(merge_keys(k1, k2), c)) == fmul(
            fmul(s1, s2),
            fmul(p1, p2),
        ));
        crate::modarith::lemma_fmul_regroup(s1, s2, p1, p2);
        let tv2 = term_val(t[0], c);
        assert(terms_sum(acc2, c) == fadd(terms_sum(acc, c), fmul(tv1, tv2)));
        // regroup the accumulated sum
        assert(fadd(fadd(terms_sum(acc, c), fmul(tv1, tv2)), fmul(tv1, terms_sum(
            t.drop_first(),
            c,
        ))) == fadd(terms_sum(acc, c), fadd(fmul(tv1, tv2), fmul(tv1, terms_sum(
            t.drop_first(),
            c,
        ))))) by {
            lemma_fadd_assoc(terms_sum(acc, c), fmul(tv1, tv2), fmul(tv1, terms_sum(
                t.drop_first(),
                c,
            )));
        }
        assert(fadd(fmul(tv1, tv2), fmul(tv1, terms_sum(t.drop_first(), c))) == fmul(tv1, fadd(
            tv2,
            terms_sum(t.drop_first(), c),
        ))) by {
            lemma_fmul_distributes(tv1, tv2, terms_sum(t.drop_first(), c));
        }
    }
}

/// The convolution's value is the product of the two sums.
proof fn lemma_conv_sum(
    acc: Seq<(Seq<Variable>, Expr)>,
    s: Seq<(Seq<Variable>, Expr)>,
    t: Seq<(Seq<Variable>, Expr)>,
    c: SemCtx,
)
    requires
        c.wf(),
        terms_ok(acc, c),
        terms_ok(s, c),
        terms_ok(t, c),
    ensures
        terms_ok(conv(acc, s, t), c),
        terms_sum(conv(acc, s, t), c) == fadd(
            terms_sum(acc, c),
            fmul(terms_sum(s, c), terms_sum(t, c)),
        ),
    decreases s.len(),
{
    if s.len() == 0 {
        assert(fmul(0, terms_sum(t, c)) == 0) by {
            lemma_mul_by_zero_is_zero(terms_sum(t, c) as int);
            lemma_small_mod(0nat, P as nat);
        }
        lemma_terms_sum_bound(acc, c);
        lemma_small_mod(terms_sum(acc, c), P as nat);
    } else {
        assert(coeff_ok(s[0].1, c) && vars_ok(s[0].0, c));
        lemma_conv_row_sum(acc, s[0].0, s[0].1, t, c);
        let acc2 = conv_row(acc, s[0].0, s[0].1, t);
        lemma_terms_ok_drop(s, c);
        lemma_conv_sum(acc2, s.drop_first(), t, c);
        let tv0 = term_val(s[0], c);
        let st = terms_sum(t, c);
        let srest = terms_sum(s.drop_first(), c);
        assert(fadd(fadd(terms_sum(acc, c), fmul(tv0, st)), fmul(srest, st)) == fadd(
            terms_sum(acc, c),
            fadd(fmul(tv0, st), fmul(srest, st)),
        )) by {
            lemma_fadd_assoc(terms_sum(acc, c), fmul(tv0, st), fmul(srest, st));
        }
        assert(fadd(fmul(tv0, st), fmul(srest, st)) == fmul(fadd(tv0, srest), st)) by {
            lemma_fmul_distributes_right(tv0, srest, st);
        }
    }
}

/// The sum of an expression's monomials is the expression's own scalar
/// value: monomial expansion neither loses nor invents anything.
pub proof fn lemma_monomials_sum(e: Expr, c: SemCtx)
    requires
        c.wf(),
        expr_ok(e, c.e0.w@.len(), c.e0.lookup_sorted@.len(), c.n),
        expr_ok(e, c.e1.w@.len(), c.e1.lookup_sorted@.len(), c.n),
        pointwise_ok(e),
    ensures
        c.sem(e) is Some,
        terms_ok(mono_spec(e), c),
        terms_sum(mono_spec(e), c) == c.semv(e),
    decreases e,
{
    let mono = mono_spec(e);
    match e {
        Expr::Cell(v) => {
            lemma_cell_bound(v, c);
            assert(mono == seq![(seq![v], one_expr())]);
            assert(mono[0] == (seq![v], one_expr()));
            assert(mono.drop_first() =~= Seq::<(Seq<Variable>, Expr)>::empty());
            assert(terms_sum(Seq::<(Seq<Variable>, Expr)>::empty(), c) == 0);
            let key: Seq<Variable> = seq![v];
            assert(key[0] == v);
            assert(key.drop_first() =~= Seq::<Variable>::empty());
            assert(prod_cells(Seq::<Variable>::empty(), c) == 1);
            assert(prod_cells(key, c) == fmul(cellv(v, c), 1));
            lemma_fmul_identity(cellv(v, c));
            assert(c.semv(one_expr()) == 1);
            assert(term_val(mono[0], c) == fmul(1, cellv(v, c)));
            lemma_small_mod(cellv(v, c), P as nat);
            assert(vars_ok(key, c)) by {
                assert(forall|i: int| 0 <= i < key.len() ==> key[i] == v);
            }
        },
        Expr::Add(x, y) => {
            lemma_monomials_sum(*x, c);
            lemma_monomials_sum(*y, c);
            lemma_merge_add_sum(mono_spec(*x), mono_spec(*y), c);
        },
        Expr::Sub(x, y) => {
            lemma_monomials_sum(*x, c);
            lemma_monomials_sum(*y, c);
            lemma_merge_sub_sum(mono_spec(*x), mono_spec(*y), c);
        },
        Expr::Mul(x, y) => {
            lemma_monomials_sum(*x, c);
            lemma_monomials_sum(*y, c);
            lemma_conv_sum(Seq::empty(), mono_spec(*x), mono_spec(*y), c);
            assert(terms_sum(Seq::<(Seq<Variable>, Expr)>::empty(), c) == 0);
            assert(fadd(0, fmul(c.semv(*x), c.semv(*y))) == fmul(c.semv(*x), c.semv(*y))) by {
                lemma_small_mod(fmul(c.semv(*x), c.semv(*y)), P as nat);
            }
        },
        _ => {
            assert(mono == seq![(Seq::<Variable>::empty(), e)]);
            assert(mono[0] == (Seq::<Variable>::empty(), e));
            assert(mono.drop_first() =~= Seq::<(Seq<Variable>, Expr)>::empty());
            assert(terms_sum(Seq::<(Seq<Variable>, Expr)>::empty(), c) == 0);
            assert(c.sem(e) is Some);
            lemma_scalar_sem_bound(e, c.n, c.w, c.pt, c.o, c.e0, c.e1);
            assert(prod_cells(Seq::<Variable>::empty(), c) == 1);
            assert(term_val(mono[0], c) == fmul(c.semv(e), 1));
            lemma_fmul_identity(c.semv(e));
            lemma_small_mod(c.semv(e), P as nat);
        },
    }
}

proof fn lemma_fmul_rotate(a: nat, x: nat, b: nat)
    ensures
        fmul(fmul(a, x), b) == fmul(fmul(a, b), x),
{
    lemma_fmul_assoc(a, x, b);
    lemma_fmul_comm(x, b);
    lemma_fmul_assoc(a, b, x);
    assert(fmul(a, fmul(x, b)) == fmul(a, fmul(b, x))) by {
        crate::modarith::lemma_fmul_mod(a, fmul(x, b));
        crate::modarith::lemma_fmul_mod(a, fmul(b, x));
    }
}

/// Appending a variable multiplies the product by its cell.
proof fn lemma_prod_push(s: Seq<Variable>, v: Variable, c: SemCtx)
    ensures
        prod_cells(s.push(v), c) == fmul(prod_cells(s, c), cellv(v, c)),
    decreases s.len(),
{
    if s.len() == 0 {
        assert(s.push(v)[0] == v);
        assert(s.push(v).drop_first() =~= Seq::<Variable>::empty());
        assert(prod_cells(Seq::<Variable>::empty(), c) == 1);
        lemma_fmul_comm(cellv(v, c), 1);
    } else {
        assert(s.push(v)[0] == s[0]);
        assert(s.push(v).drop_first() =~= s.drop_first().push(v));
        lemma_prod_push(s.drop_first(), v, c);
        lemma_fmul_assoc(cellv(s[0], c), prod_cells(s.drop_first(), c), cellv(v, c));
    }
}

/// Splitting a monomial's variables by the evaluated columns splits its
/// cell product.
proof fn lemma_prod_partition(ks: Seq<Variable>, cols: Seq<Column>, c: SemCtx)
    requires
        vars_ok(ks, c),
    ensures
        vars_ok(crate::expr::eval_part(ks, cols), c),
        vars_ok(crate::expr::uneval_part(ks, cols), c),
        prod_cells(ks, c) == fmul(
            prod_cells(crate::expr::eval_part(ks, cols), c),
            prod_cells(crate::expr::uneval_part(ks, cols), c),
        ),
    decreases ks.len(),
{
    reveal_with_fuel(Seq::<Variable>::filter, 2);
    if ks.len() == 0 {
        assert(crate::expr::eval_part(ks, cols) =~= Seq::<Variable>::empty());
        assert(crate::expr::uneval_part(ks, cols) =~= Seq::<Variable>::empty());
        assert(fmul(1, 1) == 1) by {
            lemma_mul_basics(1int);
            lemma_small_mod(1, P as nat);
        }
    } else {
        let d = ks.drop_last();
        let v = ks.last();
        assert(ks == d.push(v)) by {
            assert(d.push(v) =~= ks);
        }
        assert(vars_ok(d, c)) by {
            assert forall|i: int| 0 <= i < d.len() implies cell_ok(#[trigger] d[i], c) by {
                assert(d[i] == ks[i]);
            }
        }
        assert(cell_ok(v, c)) by {
            assert(ks[ks.len() - 1] == v);
        }
        lemma_prod_partition(d, cols, c);
        crate::expr::lemma_part_push(d, cols, v);
        let pe = prod_cells(crate::expr::eval_part(d, cols), c);
        let pu = prod_cells(crate::expr::uneval_part(d, cols), c);
        let cv = cellv(v, c);
        lemma_prod_push(d, v, c);
        if cols.contains(v.col) {
            assert(crate::expr::eval_part(ks, cols) == crate::expr::eval_part(d, cols).push(v));
            assert(crate::expr::uneval_part(ks, cols) == crate::expr::uneval_part(d, cols));
            lemma_prod_push(crate::expr::eval_part(d, cols), v, c);
            assert(prod_cells(ks, c) == fmul(fmul(pe, pu), cv));
            lemma_fmul_rotate(pe, pu, cv);
            assert(vars_ok(crate::expr::eval_part(d, cols).push(v), c)) by {
                assert forall|i: int|
                    0 <= i < crate::expr::eval_part(d, cols).push(v).len() implies cell_ok(
                    #[trigger] crate::expr::eval_part(d, cols).push(v)[i],
                    c,
                ) by {
                    if i < crate::expr::eval_part(d, cols).len() {
                        assert(crate::expr::eval_part(d, cols).push(v)[i]
                            == crate::expr::eval_part(d, cols)[i]);
                    } else {
                        assert(crate::expr::eval_part(d, cols).push(v)[i] == v);
                    }
                }
            }
        } else {
            assert(crate::expr::uneval_part(ks, cols) == crate::expr::uneval_part(d, cols).push(v));
            assert(crate::expr::eval_part(ks, cols) == crate::expr::eval_part(d, cols));
            lemma_prod_push(crate::expr::uneval_part(d, cols), v, c);
            assert(prod_cells(ks, c) == fmul(fmul(pe, pu), cv));
            lemma_fmul_assoc(pe, pu, cv);
            assert(vars_ok(crate::expr::uneval_part(d, cols).push(v), c)) by {
                assert forall|i: int|
                    0 <= i < crate::expr::uneval_part(d, cols).push(v).len() implies cell_ok(
                    #[trigger] crate::expr::uneval_part(d, cols).push(v)[i],
                    c,
                ) by {
                    if i < crate::expr::uneval_part(d, cols).len() {
                        assert(crate::expr::uneval_part(d, cols).push(v)[i]
                            == crate::expr::uneval_part(d, cols)[i]);
                    } else {
                        assert(crate::expr::uneval_part(d, cols).push(v)[i] == v);
                    }
                }
            }
        }
    }
}

/// Folding the evaluated cells into the coefficient multiplies their
/// product in.
proof fn lemma_cell_fold_sem(x: Expr, ev: Seq<Variable>, c: SemCtx)
    requires
        c.wf(),
        coeff_ok(x, c),
        vars_ok(ev, c),
    ensures
        coeff_ok(crate::expr::cell_fold(x, ev), c),
        c.sem(crate::expr::cell_fold(x, ev)) == Some(fmul(c.semv(x), prod_cells(ev, c))),
    decreases ev.len(),
{
    if ev.len() == 0 {
        lemma_coeff_bound(x, c);
        lemma_fmul_identity(c.semv(x));
    } else {
        let v = ev[0];
        assert(cell_ok(v, c));
        lemma_cell_bound(v, c);
        assert(coeff_ok(Expr::Cell(v), c));
        lemma_coeff_bound(x, c);
        lemma_mul_spec_sem(x, Expr::Cell(v), c.n, c.w, c.pt, c.o, c.e0, c.e1);
        lemma_spec_ops_ok(x, Expr::Cell(v), c);
        lemma_vars_ok_drop(ev, c);
        lemma_cell_fold_sem(mul_spec(x, Expr::Cell(v)), ev.drop_first(), c);
        lemma_fmul_assoc(c.semv(x), cellv(v, c), prod_cells(ev.drop_first(), c));
    }
}

/// The value one index term contributes: its coefficient times its
/// column's current-row cell.
pub open spec fn idx_val(t: (Column, Expr), c: SemCtx) -> nat {
    fmul(
        c.semv(t.1),
        cellv(Variable { col: t.0, row: crate::expr::CurrOrNext::Curr }, c),
    )
}

/// The value of the whole index-term list.
pub open spec fn idx_sum(s: Seq<(Column, Expr)>, c: SemCtx) -> nat
    decreases s.len(),
{
    if s.len() == 0 {
        0
    } else {
        fadd(idx_val(s[0], c), idx_sum(s.drop_first(), c))
    }
}

/// Every index term has a defined coefficient and a readable column.
pub open spec fn idx_ok(s: Seq<(Column, Expr)>, c: SemCtx) -> bool {
    forall|i: int|
        0 <= i < s.len() ==> coeff_ok((#[trigger] s[i]).1, c) && cell_ok(
            Variable { col: s[i].0, row: crate::expr::CurrOrNext::Curr },
            c,
        )
}

proof fn lemma_idx_ok_drop(s: Seq<(Column, Expr)>, c: SemCtx)
    requires
        idx_ok(s, c),
        s.len() > 0,
    ensures
        idx_ok(s.drop_first(), c),
{
    assert forall|i: int| 0 <= i < s.drop_first().len() implies coeff_ok(
        (#[trigger] s.drop_first()[i]).1,
        c,
    ) && cell_ok(
        Variable { col: s.drop_first()[i].0, row: crate::expr::CurrOrNext::Curr },
        c,
    ) by {
        assert(s.drop_first()[i] == s[i + 1]);
    }
}

/// Adding a coefficient to a column's index term adds its value.
proof fn lemma_ins_add_col_sum(s: Seq<(Column, Expr)>, k: Column, x: Expr, c: SemCtx)
    requires
        c.wf(),
        idx_ok(s, c),
        coeff_ok(x, c),
        cell_ok(Variable { col: k, row: crate::expr::CurrOrNext::Curr }, c),
    ensures
        idx_ok(crate::expr::ins_add_col(s, k, x), c),
        idx_sum(crate::expr::ins_add_col(s, k, x), c) == fadd(
            idx_sum(s, c),
            fmul(c.semv(x), cellv(Variable { col: k, row: crate::expr::CurrOrNext::Curr }, c)),
        ),
    decreases s.len(),
{
    let out = crate::expr::ins_add_col(s, k, x);
    let cu = cellv(Variable { col: k, row: crate::expr::CurrOrNext::Curr }, c);
    let xv = fmul(c.semv(x), cu);
    if s.len() == 0 {
        assert(out == seq![(k, x)]);
        assert(out[0] == (k, x));
        assert(out.drop_first() =~= Seq::<(Column, Expr)>::empty());
        assert(idx_sum(Seq::<(Column, Expr)>::empty(), c) == 0);
        assert(idx_sum(out, c) == fadd(xv, 0));
        lemma_fadd_comm(xv, 0);
    } else if s[0].0 == k {
        lemma_coeff_bound(x, c);
        lemma_coeff_bound(s[0].1, c);
        lemma_add_spec_sem(s[0].1, x, c.n, c.w, c.pt, c.o, c.e0, c.e1);
        lemma_spec_ops_ok(s[0].1, x, c);
        assert(out == seq![(k, add_spec(s[0].1, x))] + s.drop_first());
        assert(out[0] == (k, add_spec(s[0].1, x)));
        assert(out.drop_first() =~= s.drop_first());
        assert forall|i: int| 0 <= i < out.len() implies coeff_ok((#[trigger] out[i]).1, c)
            && cell_ok(
            Variable { col: out[i].0, row: crate::expr::CurrOrNext::Curr },
            c,
        ) by {
            if i > 0 {
                assert(out[i] == s[i]);
            }
        }
        assert(idx_val(out[0], c) == fadd(idx_val(s[0], c), xv)) by {
            lemma_fmul_distributes_right(c.semv(s[0].1), c.semv(x), cu);
        }
        lemma_fadd_rotate(idx_val(s[0], c), xv, idx_sum(s.drop_first(), c));
        lemma_fadd_comm(idx_sum(s, c), xv);
        lemma_fadd_comm(xv, idx_sum(s, c));
    } else {
        lemma_idx_ok_drop(s, c);
        lemma_ins_add_col_sum(s.drop_first(), k, x, c);
        let inner = crate::expr::ins_add_col(s.drop_first(), k, x);
        assert(out == seq![s[0]] + inner);
        assert(out[0] == s[0]);
        assert(out.drop_first() =~= inner);
        assert forall|i: int| 0 <= i < out.len() implies coeff_ok((#[trigger] out[i]).1, c)
            && cell_ok(
            Variable { col: out[i].0, row: crate::expr::CurrOrNext::Curr },
            c,
        ) by {
            if i > 0 {
                assert(out[i] == inner[i - 1]);
            }
        }
        lemma_fadd_assoc(idx_val(s[0], c), idx_sum(s.drop_first(), c), xv);
    }
}

/// Processing the monomials moves their whole value into the constant
/// term and the index terms, and nowhere else.
proof fn lemma_lin_fold_sum(
    terms: Seq<(Seq<Variable>, Expr)>,
    cols: Seq<Column>,
    ct: Expr,
    it: Seq<(Column, Expr)>,
    c: SemCtx,
)
    requires
        c.wf(),
        terms_ok(terms, c),
        coeff_ok(ct, c),
        idx_ok(it, c),
    ensures
        crate::expr::lin_fold(terms, cols, ct, it) matches Some(r) ==> {
            &&& coeff_ok(r.0, c)
            &&& idx_ok(r.1, c)
            &&& fadd(c.semv(r.0), idx_sum(r.1, c)) == fadd(
                fadd(c.semv(ct), idx_sum(it, c)),
                terms_sum(terms, c),
            )
        },
    decreases terms.len(),
{
    let res = crate::expr::lin_fold(terms, cols, ct, it);
    if terms.len() == 0 {
        if res is Some {
            lemma_coeff_bound(ct, c);
            lemma_small_mod(fadd(c.semv(ct), idx_sum(it, c)), P as nat);
        }
    } else {
        let m = terms[0].0;
        let x = terms[0].1;
        let ev = crate::expr::eval_part(m, cols);
        let un = crate::expr::uneval_part(m, cols);
        assert(coeff_ok(x, c) && vars_ok(m, c));
        lemma_prod_partition(m, cols, c);
        lemma_cell_fold_sem(x, ev, c);
        let c2 = crate::expr::cell_fold(x, ev);
        let pe = prod_cells(ev, c);
        let pu = prod_cells(un, c);
        let sx = c.semv(x);
        lemma_terms_ok_drop(terms, c);
        lemma_coeff_bound(ct, c);
        lemma_coeff_bound(x, c);
        if un.len() == 0 {
            assert(pu == 1);
            assert(term_val(terms[0], c) == fmul(sx, fmul(pe, 1)));
            assert(fmul(pe, 1) == pe) by {
                lemma_prod_bound(ev, c);
                lemma_fmul_identity(pe);
            }
            lemma_add_spec_sem(ct, c2, c.n, c.w, c.pt, c.o, c.e0, c.e1);
            lemma_spec_ops_ok(ct, c2, c);
            lemma_lin_fold_sum(terms.drop_first(), cols, add_spec(ct, c2), it, c);
            if res is Some {
                let tv0 = term_val(terms[0], c);
                let sct = c.semv(ct);
                let sit = idx_sum(it, c);
                // move the new constant out and regroup
                lemma_fadd_rotate(fadd(sct, tv0), sit, terms_sum(terms.drop_first(), c));
                assert(fadd(fadd(fadd(sct, tv0), sit), terms_sum(terms.drop_first(), c)) == fadd(
                    fadd(fadd(sct, sit), tv0),
                    terms_sum(terms.drop_first(), c),
                )) by {
                    lemma_fadd_rotate(sct, tv0, sit);
                }
                assert(fadd(fadd(fadd(sct, sit), tv0), terms_sum(terms.drop_first(), c)) == fadd(
                    fadd(sct, sit),
                    fadd(tv0, terms_sum(terms.drop_first(), c)),
                )) by {
                    lemma_fadd_assoc(fadd(sct, sit), tv0, terms_sum(terms.drop_first(), c));
                }
            }
        } else if un.len() == 1 && !(un[0].row is Next) {
            let u = un[0];
            assert(cell_ok(u, c));
            assert(u == Variable { col: u.col, row: crate::expr::CurrOrNext::Curr });
            assert(un.drop_first() =~= Seq::<Variable>::empty());
            assert(prod_cells(Seq::<Variable>::empty(), c) == 1);
            assert(pu == fmul(cellv(u, c), 1));
            let cu = cellv(u, c);
            assert(pu == cu) by {
                lemma_cell_bound(u, c);
                lemma_fmul_identity(cu);
            }
            lemma_ins_add_col_sum(it, u.col, c2, c);
            let it2 = crate::expr::ins_add_col(it, u.col, c2);
            lemma_lin_fold_sum(terms.drop_first(), cols, ct, it2, c);
            if res is Some {
                let tv0 = term_val(terms[0], c);
                let sct = c.semv(ct);
                let sit = idx_sum(it, c);
                assert(idx_sum(it2, c) == fadd(sit, fmul(fmul(sx, pe), cu)));
                assert(fmul(fmul(sx, pe), cu) == tv0) by {
                    lemma_fmul_assoc(sx, pe, cu);
                }
                // regroup: ((sct + (sit + tv0)) + rest) == ((sct + sit) + (tv0 + rest))
                assert(fadd(sct, fadd(sit, tv0)) == fadd(fadd(sct, sit), tv0)) by {
                    lemma_fadd_assoc(sct, sit, tv0);
                }
                assert(fadd(fadd(fadd(sct, sit), tv0), terms_sum(terms.drop_first(), c)) == fadd(
                    fadd(sct, sit),
                    fadd(tv0, terms_sum(terms.drop_first(), c)),
                )) by {
                    lemma_fadd_assoc(fadd(sct, sit), tv0, terms_sum(terms.drop_first(), c));
                }
            }
        } else {
            assert(res is None);
        }
    }
}

/// Linearization preserves evaluation: for an expression whose scalar
/// evaluation is defined, the linearization's constant term plus the sum
/// over the index terms of their coefficient times the column's
/// current-row value gives back the expression's own value.
pub proof fn lemma_linearize_value(e: Expr, cols: Seq<Column>, c: SemCtx)
    requires
        c.wf(),
        expr_ok(e, c.e0.w@.len(), c.e0.lookup_sorted@.len(), c.n),
        expr_ok(e, c.e1.w@.len(), c.e1.lookup_sorted@.len(), c.n),
        pointwise_ok(e),
    ensures
        crate::expr::lin_spec(e, cols) matches Some(r) ==> fadd(c.semv(r.0), idx_sum(r.1, c))
            == c.semv(e),
{
    lemma_monomials_sum(e, c);
    assert(coeff_ok(zero_expr(), c));
    assert(idx_ok(Seq::empty(), c));
    lemma_lin_fold_sum(mono_spec(e), cols, zero_expr(), Seq::empty(), c);
    let res = crate::expr::lin_spec(e, cols);
    if res is Some {
        assert(idx_sum(Seq::<(Column, Expr)>::empty(), c) == 0);
        assert(c.semv(zero_expr()) == 0);
        assert(fadd(0nat, 0nat) == 0) by {
            lemma_small_mod(0nat, P as nat);
        }
        assert(fadd(0, terms_sum(mono_spec(e), c)) == terms_sum(mono_spec(e), c)) by {
            lemma_terms_sum_bound(mono_spec(e), c);
            lemma_small_mod(terms_sum(mono_spec(e), c), P as nat);
        }
    }
}

} // verus!
