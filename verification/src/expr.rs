//! The symbolic constraint expression language: cells of the constraint
//! table, challenge powers, the unnormalized Lagrange basis and the
//! vanishing-rows polynomial, combined with field operations.  Scalar
//! evaluation against one challenge point lives here too.

use vstd::prelude::*;
use crate::modarith::{fadd, fsub, fmul, fpow, fdiv};
use crate::field::Fp;
use crate::domains::Domain;
use crate::scalars::{RandomOracles, ProofEvaluations};

verus! {

/// Whether a cell is read on the current row or the next one.
#[derive(Clone, Copy, PartialEq, Eq, Structural, Debug, Hash)]
pub enum CurrOrNext {
    Curr,
    Next,
}

/// The families of circuit rows that selector columns tell apart.
#[derive(Clone, Copy, PartialEq, Eq, Structural, Debug, Hash)]
pub enum GateType {
    Zero,
    Generic,
    Poseidon,
    Add,
    Double,
    Vbmul,
    Endomul,
}

/// A column of the constraint table.
#[derive(Clone, Copy, PartialEq, Eq, Structural, Debug, Hash)]
pub enum Column {
    Witness(usize),
    Z,
    LookupSorted(usize),
    LookupAggreg,
    LookupTable,
    LookupKindIndex(usize),
    Index(GateType),
}

/// A cell reference: a column together with a row choice.
#[derive(Clone, Copy, PartialEq, Eq, Structural, Debug, Hash)]
pub struct Variable {
    pub col: Column,
    pub row: CurrOrNext,
}

pub open spec fn gate_rank(g: GateType) -> nat {
    match g {
        GateType::Zero => 0,
        GateType::Generic => 1,
        GateType::Poseidon => 2,
        GateType::Add => 3,
        GateType::Double => 4,
        GateType::Vbmul => 5,
        GateType::Endomul => 6,
    }
}

pub open spec fn col_rank(c: Column) -> nat {
    match c {
        Column::Witness(_) => 0,
        Column::Z => 1,
        Column::LookupSorted(_) => 2,
        Column::LookupAggreg => 3,
        Column::LookupTable => 4,
        Column::LookupKindIndex(_) => 5,
        Column::Index(_) => 6,
    }
}

pub open spec fn col_arg(c: Column) -> nat {
    match c {
        Column::Witness(i) => i as nat,
        Column::Z => 0,
        Column::LookupSorted(i) => i as nat,
        Column::LookupAggreg => 0,
        Column::LookupTable => 0,
        Column::LookupKindIndex(i) => i as nat,
        Column::Index(g) => gate_rank(g),
    }
}

/// A single number that orders columns first by kind, then by their index,
/// with the column kinds in the order `Witness < Z < LookupSorted <
/// LookupAggreg < LookupTable < LookupKindIndex < Index`.
pub open spec fn col_key(c: Column) -> nat {
    col_rank(c) * 0x10000000000000000 + col_arg(c)
}

/// Orders variables by column, then row, with `Curr < Next`.
pub open spec fn var_key(v: Variable) -> nat {
    col_key(v.col) * 2 + if v.row is Next {
        1nat
    } else {
        0nat
    }
}

proof fn lemma_lex_key(r1: nat, a1: nat, w1: nat, r2: nat, a2: nat, w2: nat)
    by (nonlinear_arith)
    requires
        a1 < 0x10000000000000000,
        a2 < 0x10000000000000000,
        w1 < 2,
        w2 < 2,
    ensures
        ((r1 * 0x10000000000000000 + a1) * 2 + w1 <= (r2 * 0x10000000000000000 + a2) * 2 + w2)
            <==> (r1 < r2 || (r1 == r2 && (a1 < a2 || (a1 == a2 && w1 <= w2)))),
{
}

pub(crate) fn exec_gate_rank(g: GateType) -> (r: u64)
    ensures
        r as nat == gate_rank(g),
{
    match g {
        GateType::Zero => 0,
        GateType::Generic => 1,
        GateType::Poseidon => 2,
        GateType::Add => 3,
        GateType::Double => 4,
        GateType::Vbmul => 5,
        GateType::Endomul => 6,
    }
}

fn exec_col_rank(c: &Column) -> (r: u64)
    ensures
        r as nat == col_rank(*c),
{
    match c {
        Column::Witness(_) => 0,
        Column::Z => 1,
        Column::LookupSorted(_) => 2,
        Column::LookupAggreg => 3,
        Column::LookupTable => 4,
        Column::LookupKindIndex(_) => 5,
        Column::Index(_) => 6,
    }
}

fn exec_col_arg(c: &Column) -> (r: u64)
    ensures
        r as nat == col_arg(*c),
{
    match c {
        Column::Witness(i) => *i as u64,
        Column::Z => 0,
        Column::LookupSorted(i) => *i as u64,
        Column::LookupAggreg => 0,
        Column::LookupTable => 0,
        Column::LookupKindIndex(i) => *i as u64,
        Column::Index(g) => exec_gate_rank(*g),
    }
}

/// Compares two variables in the canonical monomial order.
pub fn var_leq(a: &Variable, b: &Variable) -> (r: bool)
    ensures
        r <==> var_key(*a) <= var_key(*b),
{
    let ra = exec_col_rank(&a.col);
    let rb = exec_col_rank(&b.col);
    let aa = exec_col_arg(&a.col);
    let ab = exec_col_arg(&b.col);
    let wa: u64 = match a.row {
        CurrOrNext::Curr => 0,
        CurrOrNext::Next => 1,
    };
    let wb: u64 = match b.row {
        CurrOrNext::Curr => 0,
        CurrOrNext::Next => 1,
    };
    proof {
        lemma_lex_key(ra as nat, aa as nat, wa as nat, rb as nat, ab as nat, wb as nat);
    }
    if ra != rb {
        ra < rb
    } else if aa != ab {
        aa < ab
    } else {
        wa <= wb
    }
}

/// A symbolic constraint expression.
#[derive(Debug)]
pub enum Expr {
    Alpha { power: usize },
    Gamma,
    Beta,
    JointCombiner { power: usize },
    Constant(Fp),
    Cell(Variable),
    Mul(Box<Expr>, Box<Expr>),
    Add(Box<Expr>, Box<Expr>),
    Sub(Box<Expr>, Box<Expr>),
    ZkPolynomial,
    UnnormalizedLagrangeBasis(usize),
}

impl Clone for Expr {
    fn clone(&self) -> (r: Self)
        ensures
            r == *self,
        decreases self,
    {
        match self {
            Expr::Alpha { power } => Expr::Alpha { power: *power },
            Expr::Gamma => Expr::Gamma,
            Expr::Beta => Expr::Beta,
            Expr::JointCombiner { power } => Expr::JointCombiner { power: *power },
            Expr::Constant(x) => Expr::Constant(*x),
            Expr::Cell(v) => Expr::Cell(*v),
            Expr::Mul(x, y) => Expr::Mul(Box::new((**x).clone()), Box::new((**y).clone())),
            Expr::Add(x, y) => Expr::Add(Box::new((**x).clone()), Box::new((**y).clone())),
            Expr::Sub(x, y) => Expr::Sub(Box::new((**x).clone()), Box::new((**y).clone())),
            Expr::ZkPolynomial => Expr::ZkPolynomial,
            Expr::UnnormalizedLagrangeBasis(i) => Expr::UnnormalizedLagrangeBasis(*i),
        }
    }
}

/// The expression is `Constant(0)`.
pub open spec fn is_zero_const(e: Expr) -> bool {
    e matches Expr::Constant(x) && x.val() == 0
}

/// The expression is `Constant(1)`.
pub open spec fn is_one_const(e: Expr) -> bool {
    e matches Expr::Constant(x) && x.val() == 1
}

impl Expr {
    /// Sum of two expressions, with the peephole simplifications
    /// `0 + x = x` and `x + 0 = x` applied at construction.
    pub fn add(self, other: Expr) -> (r: Expr)
        ensures
            is_zero_const(self) ==> r == other,
            !is_zero_const(self) && is_zero_const(other) ==> r == self,
            !is_zero_const(self) && !is_zero_const(other) ==> (r matches Expr::Add(a, b) && *a
                == self && *b == other),
    {
        match &self {
            Expr::Constant(x) => {
                if x.v == 0 {
                    return other;
                }
            },
            _ => (),
        };
        match &other {
            Expr::Constant(x) => {
                if x.v == 0 {
                    return self;
                }
            },
            _ => (),
        };
        Expr::Add(Box::new(self), Box::new(other))
    }

    /// Product of two expressions, with the peephole simplifications
    /// `1 * x = x` and `x * 1 = x` applied at construction.
    pub fn mul(self, other: Expr) -> (r: Expr)
        ensures
            is_one_const(self) ==> r == other,
            !is_one_const(self) && is_one_const(other) ==> r == self,
            !is_one_const(self) && !is_one_const(other) ==> (r matches Expr::Mul(a, b) && *a
                == self && *b == other),
    {
        match &self {
            Expr::Constant(x) => {
                if x.v == 1 {
                    return other;
                }
            },
            _ => (),
        };
        match &other {
            Expr::Constant(x) => {
                if x.v == 1 {
                    return self;
                }
            },
            _ => (),
        };
        Expr::Mul(Box::new(self), Box::new(other))
    }

    /// Difference of two expressions; no simplification is applied.
    pub fn sub(self, other: Expr) -> (r: Expr)
        ensures
            r matches Expr::Sub(a, b) && *a == self && *b == other,
    {
        Expr::Sub(Box::new(self), Box::new(other))
    }
}

/// The conservative degree bound used to pick the evaluation domain.
pub open spec fn degree_sem(e: Expr, d1: nat) -> nat
    decreases e,
{
    match e {
        Expr::Constant(_) => 0,
        Expr::Alpha { .. } => 0,
        Expr::Beta => 0,
        Expr::Gamma => 0,
        Expr::JointCombiner { .. } => 0,
        Expr::ZkPolynomial => 3,
        Expr::UnnormalizedLagrangeBasis(_) => d1,
        Expr::Cell(_) => d1,
        Expr::Mul(x, y) => degree_sem(*x, d1) * degree_sem(*y, d1),
        Expr::Add(x, y) => vstd::math::max(degree_sem(*x, d1) as int, degree_sem(*y, d1) as int)
            as nat,
        Expr::Sub(x, y) => vstd::math::max(degree_sem(*x, d1) as int, degree_sem(*y, d1) as int)
            as nat,
    }
}

/// The degree bound of every subexpression fits in a machine word.
pub open spec fn degree_ok(e: Expr, d1: nat) -> bool
    decreases e,
{
    degree_sem(e, d1) <= u64::MAX && match e {
        Expr::Mul(x, y) => degree_ok(*x, d1) && degree_ok(*y, d1),
        Expr::Add(x, y) => degree_ok(*x, d1) && degree_ok(*y, d1),
        Expr::Sub(x, y) => degree_ok(*x, d1) && degree_ok(*y, d1),
        _ => true,
    }
}

impl Expr {
    /// The conservative upper bound on the degree of the expression as a
    /// polynomial over the base domain of size `d1_size`.
    pub fn degree(&self, d1_size: u64) -> (r: u64)
        requires
            degree_ok(*self, d1_size as nat),
        ensures
            r as nat == degree_sem(*self, d1_size as nat),
        decreases self,
    {
        match self {
            Expr::Constant(_) => 0,
            Expr::Alpha { .. } => 0,
            Expr::Beta => 0,
            Expr::Gamma => 0,
            Expr::JointCombiner { .. } => 0,
            Expr::ZkPolynomial => 3,
            Expr::UnnormalizedLagrangeBasis(_) => d1_size,
            Expr::Cell(_) => d1_size,
            Expr::Mul(x, y) => {
                let a = x.degree(d1_size);
                let b = y.degree(d1_size);
                a * b
            },
            Expr::Add(x, y) => {
                let a = x.degree(d1_size);
                let b = y.degree(d1_size);
                if a < b {
                    b
                } else {
                    a
                }
            },
            Expr::Sub(x, y) => {
                let a = x.degree(d1_size);
                let b = y.degree(d1_size);
                if a < b {
                    b
                } else {
                    a
                }
            },
        }
    }
}

/// The polynomial vanishing on the last three rows of the domain,
/// evaluated at a point: `(x - w^(n-3)) (x - w^(n-2)) (x - w^(n-1))`.
pub open spec fn zk_sem(n: nat, w: nat, pt: nat) -> nat {
    fmul(
        fmul(fsub(pt, fpow(w, (n - 3) as nat)), fsub(pt, fpow(w, (n - 2) as nat))),
        fsub(pt, fpow(w, (n - 1) as nat)),
    )
}

/// Evaluates the vanishing-rows polynomial of the domain at `pt`.
pub fn eval_zk_polynomial(d: Domain, pt: Fp) -> (r: Fp)
    requires
        d.wf(),
        pt.wf(),
        d.size >= 3,
    ensures
        r.wf(),
        r.val() == zk_sem(d.n(), d.w(), pt.val()),
{
    let w3 = d.element(d.size - 3);
    let w2 = d.element(d.size - 2);
    let w1 = d.element(d.size - 1);
    pt.sub(w3).mul(pt.sub(w2)).mul(pt.sub(w1))
}

/// The value a cell reference takes given the two evaluation records;
/// `None` for the index columns, which scalar evaluation cannot supply.
pub open spec fn cell_sem(v: Variable, e0: ProofEvaluations, e1: ProofEvaluations) -> Option<
    nat,
> {
    let ev = if v.row is Curr {
        e0
    } else {
        e1
    };
    match v.col {
        Column::Witness(i) => Some(ev.w@[i as int].val()),
        Column::Z => Some(ev.z.val()),
        Column::LookupSorted(i) => Some(ev.lookup_sorted@[i as int].val()),
        Column::LookupAggreg => Some(ev.lookup_aggreg.val()),
        Column::LookupTable => Some(ev.lookup_table.val()),
        Column::LookupKindIndex(_) => None,
        Column::Index(_) => None,
    }
}

/// Scalar evaluation of an expression at a point of a domain of size `n`
/// generated by `w`; `None` where evaluation is not defined (a joint
/// combiner, or a cell of an index column).
pub open spec fn scalar_sem(
    e: Expr,
    n: nat,
    w: nat,
    pt: nat,
    o: RandomOracles,
    e0: ProofEvaluations,
    e1: ProofEvaluations,
) -> Option<nat>
    decreases e,
{
    match e {
        Expr::Alpha { power } => Some(fpow(o.alpha.val(), power as nat)),
        Expr::Gamma => Some(o.gamma.val()),
        Expr::Beta => Some(o.beta.val()),
        Expr::JointCombiner { .. } => None,
        Expr::Constant(x) => Some(x.val()),
        Expr::Cell(v) => cell_sem(v, e0, e1),
        Expr::ZkPolynomial => Some(zk_sem(n, w, pt)),
        Expr::UnnormalizedLagrangeBasis(i) => Some(
            fdiv(fsub(fpow(pt, n), 1), fsub(pt, fpow(w, i as nat))),
        ),
        Expr::Mul(x, y) => {
            match (scalar_sem(*x, n, w, pt, o, e0, e1), scalar_sem(*y, n, w, pt, o, e0, e1)) {
                (Some(a), Some(b)) => Some(fmul(a, b)),
                _ => None,
            }
        },
        Expr::Add(x, y) => {
            match (scalar_sem(*x, n, w, pt, o, e0, e1), scalar_sem(*y, n, w, pt, o, e0, e1)) {
                (Some(a), Some(b)) => Some(fadd(a, b)),
                _ => None,
            }
        },
        Expr::Sub(x, y) => {
            match (scalar_sem(*x, n, w, pt, o, e0, e1), scalar_sem(*y, n, w, pt, o, e0, e1)) {
                (Some(a), Some(b)) => Some(fsub(a, b)),
                _ => None,
            }
        },
    }
}

/// The cell references of the expression stay inside records with `wl`
/// witness columns and `sl` sorted lookup columns, and the vanishing-rows
/// polynomial is only used over a domain of size at least 3.
pub open spec fn expr_ok(e: Expr, wl: nat, sl: nat, n: nat) -> bool
    decreases e,
{
    match e {
        Expr::Constant(x) => x.wf(),
        Expr::Cell(v) => match v.col {
            Column::Witness(i) => (i as nat) < wl,
            Column::LookupSorted(i) => (i as nat) < sl,
            _ => true,
        },
        Expr::ZkPolynomial => n >= 3,
        Expr::Mul(x, y) => expr_ok(*x, wl, sl, n) && expr_ok(*y, wl, sl, n),
        Expr::Add(x, y) => expr_ok(*x, wl, sl, n) && expr_ok(*y, wl, sl, n),
        Expr::Sub(x, y) => expr_ok(*x, wl, sl, n) && expr_ok(*y, wl, sl, n),
        _ => true,
    }
}

impl Expr {
    /// Evaluates the expression at the point `pt` of the domain `d`, the
    /// challenges standing in for the oracle leaves and the two evaluation
    /// records supplying the cells at `pt` and its shift.  Fails exactly on
    /// a joint combiner or a cell of an index column.
    pub fn evaluate(
        &self,
        d: Domain,
        pt: Fp,
        oracles: &RandomOracles,
        evals: &[ProofEvaluations; 2],
    ) -> (r: Result<Fp, &'static str>)
        requires
            d.wf(),
            pt.wf(),
            oracles.wf(),
            evals[0].wf(),
            evals[1].wf(),
            expr_ok(*self, evals[0].w@.len(), evals[0].lookup_sorted@.len(), d.n()),
            expr_ok(*self, evals[1].w@.len(), evals[1].lookup_sorted@.len(), d.n()),
        ensures
            r is Ok <==> scalar_sem(
                *self,
                d.n(),
                d.w(),
                pt.val(),
                *oracles,
                evals[0],
                evals[1],
            ) is Some,
            r is Ok ==> r->Ok_0.wf() && r->Ok_0.val() == scalar_sem(
                *self,
                d.n(),
                d.w(),
                pt.val(),
                *oracles,
                evals[0],
                evals[1],
            )->Some_0,
        decreases self,
    {
        match self {
            Expr::Alpha { power } => Ok(oracles.alpha.pow(*power as u64)),
            Expr::Gamma => Ok(oracles.gamma),
            Expr::Beta => Ok(oracles.beta),
            Expr::JointCombiner { .. } => Err("Joint lookup tables not yet implemented"),
            Expr::Constant(x) => Ok(*x),
            Expr::Mul(x, y) => {
                let a = (**x).evaluate(d, pt, oracles, evals)?;
                let b = (**y).evaluate(d, pt, oracles, evals)?;
                Ok(a.mul(b))
            },
            Expr::Add(x, y) => {
                let a = (**x).evaluate(d, pt, oracles, evals)?;
                let b = (**y).evaluate(d, pt, oracles, evals)?;
                Ok(a.add(b))
            },
            Expr::Sub(x, y) => {
                let a = (**x).evaluate(d, pt, oracles, evals)?;
                let b = (**y).evaluate(d, pt, oracles, evals)?;
                Ok(a.sub(b))
            },
            Expr::ZkPolynomial => Ok(eval_zk_polynomial(d, pt)),
            Expr::UnnormalizedLagrangeBasis(i) => {
                let z = d.evaluate_vanishing_polynomial(pt);
                let wi = d.element(*i as u64);
                Ok(z.mul(pt.sub(wi).inverse()))
            },
            Expr::Cell(var) => {
                let ev = match var.row {
                    CurrOrNext::Curr => &evals[0],
                    CurrOrNext::Next => &evals[1],
                };
                match &var.col {
                    Column::Witness(i) => Ok(ev.w[*i]),
                    Column::Z => Ok(ev.z),
                    Column::LookupSorted(i) => Ok(ev.lookup_sorted[*i]),
                    Column::LookupAggreg => Ok(ev.lookup_aggreg),
                    Column::LookupTable => Ok(ev.lookup_table),
                    Column::LookupKindIndex(_) => Err(
                        "Cannot get index evaluation (should have been linearized away)",
                    ),
                    Column::Index(_) => Err(
                        "Cannot get index evaluation (should have been linearized away)",
                    ),
                }
            },
        }
    }
}

/// The tree `Expr::add` constructs.
pub open spec fn add_spec(a: Expr, b: Expr) -> Expr {
    if is_zero_const(a) {
        b
    } else if is_zero_const(b) {
        a
    } else {
        Expr::Add(Box::new(a), Box::new(b))
    }
}

/// The tree `Expr::mul` constructs.
pub open spec fn mul_spec(a: Expr, b: Expr) -> Expr {
    if is_one_const(a) {
        b
    } else if is_one_const(b) {
        a
    } else {
        Expr::Mul(Box::new(a), Box::new(b))
    }
}

/// The tree `Expr::sub` constructs.
pub open spec fn sub_spec(a: Expr, b: Expr) -> Expr {
    Expr::Sub(Box::new(a), Box::new(b))
}

/// The zero constant.
pub open spec fn zero_expr() -> Expr {
    Expr::Constant(Fp { v: 0 })
}

/// The one constant.
pub open spec fn one_expr() -> Expr {
    Expr::Constant(Fp { v: 1 })
}

/// Adds a coefficient to the entry of `k` in an association list of
/// monomials, appending a fresh entry if the key is new.
pub open spec fn ins_add(
    s: Seq<(Seq<Variable>, Expr)>,
    k: Seq<Variable>,
    c: Expr,
) -> Seq<(Seq<Variable>, Expr)>
    decreases s.len(),
{
    if s.len() == 0 {
        seq![(k, c)]
    } else if s[0].0 == k {
        seq![(k, add_spec(s[0].1, c))] + s.drop_first()
    } else {
        seq![s[0]] + ins_add(s.drop_first(), k, c)
    }
}

/// Subtracts a coefficient from the entry of `k`, a fresh entry starting
/// from the zero constant.
pub open spec fn ins_sub(
    s: Seq<(Seq<Variable>, Expr)>,
    k: Seq<Variable>,
    c: Expr,
) -> Seq<(Seq<Variable>, Expr)>
    decreases s.len(),
{
    if s.len() == 0 {
        seq![(k, sub_spec(zero_expr(), c))]
    } else if s[0].0 == k {
        seq![(k, sub_spec(s[0].1, c))] + s.drop_first()
    } else {
        seq![s[0]] + ins_sub(s.drop_first(), k, c)
    }
}

/// Merges the terms of `t` into `s`, adding coefficients on collisions.
pub open spec fn merge_add(
    s: Seq<(Seq<Variable>, Expr)>,
    t: Seq<(Seq<Variable>, Expr)>,
) -> Seq<(Seq<Variable>, Expr)>
    decreases t.len(),
{
    if t.len() == 0 {
        s
    } else {
        merge_add(ins_add(s, t[0].0, t[0].1), t.drop_first())
    }
}

/// Merges the terms of `t` into `s`, subtracting coefficients.
pub open spec fn merge_sub(
    s: Seq<(Seq<Variable>, Expr)>,
    t: Seq<(Seq<Variable>, Expr)>,
) -> Seq<(Seq<Variable>, Expr)>
    decreases t.len(),
{
    if t.len() == 0 {
        s
    } else {
        merge_sub(ins_sub(s, t[0].0, t[0].1), t.drop_first())
    }
}

/// Merges two variable lists ordered by `var_key` into one.
pub open spec fn merge_keys(a: Seq<Variable>, b: Seq<Variable>) -> Seq<Variable>
    decreases a.len() + b.len(),
{
    if a.len() == 0 {
        b
    } else if b.len() == 0 {
        a
    } else if var_key(a[0]) <= var_key(b[0]) {
        seq![a[0]] + merge_keys(a.drop_first(), b)
    } else {
        seq![b[0]] + merge_keys(a, b.drop_first())
    }
}

/// One row of the distributive convolution: multiplies `(k1, c1)` with
/// every term of `t` and folds the products into `acc`.
pub open spec fn conv_row(
    acc: Seq<(Seq<Variable>, Expr)>,
    k1: Seq<Variable>,
    c1: Expr,
    t: Seq<(Seq<Variable>, Expr)>,
) -> Seq<(Seq<Variable>, Expr)>
    decreases t.len(),
{
    if t.len() == 0 {
        acc
    } else {
        conv_row(ins_add(acc, merge_keys(k1, t[0].0), mul_spec(c1, t[0].1)), k1, c1, t.drop_first())
    }
}

/// The distributive convolution of two monomial lists.
pub open spec fn conv(
    acc: Seq<(Seq<Variable>, Expr)>,
    s: Seq<(Seq<Variable>, Expr)>,
    t: Seq<(Seq<Variable>, Expr)>,
) -> Seq<(Seq<Variable>, Expr)>
    decreases s.len(),
{
    if s.len() == 0 {
        acc
    } else {
        conv(conv_row(acc, s[0].0, s[0].1, t), s.drop_first(), t)
    }
}

/// The monomial expansion of an expression: an association list from
/// sorted variable lists to coefficient expressions.  Sums merge the two
/// sides' lists coefficient-wise; products convolve them, concatenating
/// and re-sorting the keys.
pub open spec fn mono_spec(e: Expr) -> Seq<(Seq<Variable>, Expr)>
    decreases e,
{
    match e {
        Expr::Cell(v) => seq![(seq![v], one_expr())],
        Expr::Add(x, y) => merge_add(mono_spec(*x), mono_spec(*y)),
        Expr::Sub(x, y) => merge_sub(mono_spec(*x), mono_spec(*y)),
        Expr::Mul(x, y) => conv(Seq::empty(), mono_spec(*x), mono_spec(*y)),
        _ => seq![(Seq::empty(), e)],
    }
}

/// The association list a term vector stands for.
pub open spec fn terms_view(v: Seq<(Vec<Variable>, Expr)>) -> Seq<(Seq<Variable>, Expr)> {
    v.map_values(|p: (Vec<Variable>, Expr)| (p.0@, p.1))
}

/// Compares two variable lists for equality.
fn keys_equal(a: &Vec<Variable>, b: &Vec<Variable>) -> (r: bool)
    ensures
        r <==> a@ == b@,
{
    if a.len() != b.len() {
        proof {
            assert(a@.len() != b@.len());
        }
        return false;
    }
    let n = a.len();
    let mut i: usize = 0;
    while i < n
        invariant
            n == a@.len(),
            n == b@.len(),
            0 <= i <= n,
            forall|j: int| 0 <= j < i ==> a@[j] == b@[j],
        decreases n - i,
    {
        if a[i] != b[i] {
            return false;
        }
        i += 1;
    }
    proof {
        assert(a@ =~= b@);
    }
    true
}

/// Copies a variable list.
fn clone_vars(v: &Vec<Variable>) -> (r: Vec<Variable>)
    ensures
        r@ == v@,
{
    let mut out: Vec<Variable> = Vec::new();
    let n = v.len();
    let mut i: usize = 0;
    while i < n
        invariant
            n == v@.len(),
            0 <= i <= n,
            out@ == v@.take(i as int),
        decreases n - i,
    {
        out.push(v[i]);
        proof {
            assert(out@ =~= v@.take(i + 1));
        }
        i += 1;
    }
    proof {
        assert(v@.take(n as int) =~= v@);
    }
    out
}

/// Merges two variable lists ordered by `var_key`.
fn merge_sorted(a: Vec<Variable>, b: Vec<Variable>) -> (r: Vec<Variable>)
    ensures
        r@ == merge_keys(a@, b@),
{
    let mut out: Vec<Variable> = Vec::new();
    let mut i: usize = 0;
    let mut j: usize = 0;
    let na = a.len();
    let nb = b.len();
    proof {
        assert(a@.skip(0) =~= a@);
        assert(b@.skip(0) =~= b@);
        assert(Seq::<Variable>::empty() + merge_keys(a@, b@) =~= merge_keys(a@, b@));
    }
    while i < na || j < nb
        invariant
            na == a@.len(),
            nb == b@.len(),
            0 <= i <= na,
            0 <= j <= nb,
            merge_keys(a@, b@) == out@ + merge_keys(a@.skip(i as int), b@.skip(j as int)),
        decreases na - i + nb - j,
    {
        let ghost sa = a@.skip(i as int);
        let ghost sb = b@.skip(j as int);
        if j >= nb || (i < na && var_leq(&a[i], &b[j])) {
            proof {
                assert(sa.len() > 0);
                assert(sa[0] == a@[i as int]);
                if sb.len() > 0 {
                    assert(var_key(sa[0]) <= var_key(sb[0]));
                }
                assert(sa.drop_first() =~= a@.skip(i + 1));
                assert(merge_keys(sa, sb) == seq![a@[i as int]] + merge_keys(a@.skip(i + 1), sb));
                assert((out@ + seq![a@[i as int]]) + merge_keys(a@.skip(i + 1), sb) =~= out@ + (
                seq![a@[i as int]] + merge_keys(a@.skip(i + 1), sb)));
            }
            out.push(a[i]);
            i += 1;
        } else {
            proof {
                assert(sb.len() > 0);
                assert(sb[0] == b@[j as int]);
                if sa.len() > 0 {
                    assert(!(var_key(sa[0]) <= var_key(sb[0])));
                }
                assert(sb.drop_first() =~= b@.skip(j + 1));
                assert(merge_keys(sa, sb) == seq![b@[j as int]] + merge_keys(sa, b@.skip(j + 1)));
                assert((out@ + seq![b@[j as int]]) + merge_keys(sa, b@.skip(j + 1)) =~= out@ + (
                seq![b@[j as int]] + merge_keys(sa, b@.skip(j + 1))));
            }
            out.push(b[j]);
            j += 1;
        }
    }
    proof {
        assert(merge_keys(a@.skip(na as int), b@.skip(nb as int)) =~= Seq::<Variable>::empty());
        assert(out@ + Seq::<Variable>::empty() =~= out@);
    }
    out
}

/// Folds one term into an association vector, adding on collision.
fn insert_add_term(res: &mut Vec<(Vec<Variable>, Expr)>, key: Vec<Variable>, c: Expr)
    ensures
        terms_view(final(res)@) == ins_add(terms_view(old(res)@), key@, c),
{
    let n = res.len();
    let mut i: usize = 0;
    while i < n
        invariant
            n == res@.len(),
            0 <= i <= n,
            res@ == old(res)@,
            forall|j: int| 0 <= j < i ==> terms_view(res@)[j].0 != key@,
        decreases n - i,
    {
        let hit = keys_equal(&res[i].0, &key);
        if hit {
            let (k_old, c_old) = res.remove(i);
            res.insert(i, (k_old, c_old.add(c)));
            proof {
                lemma_ins_add_at(terms_view(old(res)@), key@, c, i as int);
                assert(terms_view(res@) =~= terms_view(old(res)@).update(
                    i as int,
                    (key@, add_spec(terms_view(old(res)@)[i as int].1, c)),
                ));
            }
            return ;
        }
        i += 1;
    }
    res.push((key, c));
    proof {
        lemma_ins_add_missing(terms_view(old(res)@), key@, c);
        assert(terms_view(res@) =~= terms_view(old(res)@).push((key@, c)));
    }
}

/// Folds one term into an association vector, subtracting on collision.
fn insert_sub_term(res: &mut Vec<(Vec<Variable>, Expr)>, key: Vec<Variable>, c: Expr)
    ensures
        terms_view(final(res)@) == ins_sub(terms_view(old(res)@), key@, c),
{
    let n = res.len();
    let mut i: usize = 0;
    while i < n
        invariant
            n == res@.len(),
            0 <= i <= n,
            res@ == old(res)@,
            forall|j: int| 0 <= j < i ==> terms_view(res@)[j].0 != key@,
        decreases n - i,
    {
        let hit = keys_equal(&res[i].0, &key);
        if hit {
            let (k_old, c_old) = res.remove(i);
            res.insert(i, (k_old, c_old.sub(c)));
            proof {
                lemma_ins_sub_at(terms_view(old(res)@), key@, c, i as int);
                assert(terms_view(res@) =~= terms_view(old(res)@).update(
                    i as int,
                    (key@, sub_spec(terms_view(old(res)@)[i as int].1, c)),
                ));
            }
            return ;
        }
        i += 1;
    }
    let z = Expr::Constant(Fp::zero());
    res.push((key, z.sub(c)));
    proof {
        lemma_ins_sub_missing(terms_view(old(res)@), key@, c);
        assert(terms_view(res@) =~= terms_view(old(res)@).push((key@, sub_spec(zero_expr(), c))));
    }
}

/// When the key sits at position `i`, insertion updates that entry.
proof fn lemma_ins_add_at(s: Seq<(Seq<Variable>, Expr)>, k: Seq<Variable>, c: Expr, i: int)
    requires
        0 <= i < s.len(),
        s[i].0 == k,
        forall|j: int| 0 <= j < i ==> s[j].0 != k,
    ensures
        ins_add(s, k, c) == s.update(i, (k, add_spec(s[i].1, c))),
    decreases s.len(),
{
    if i == 0 {
        assert(ins_add(s, k, c) == seq![(k, add_spec(s[0].1, c))] + s.drop_first());
        assert(seq![(k, add_spec(s[0].1, c))] + s.drop_first() =~= s.update(
            0,
            (k, add_spec(s[0].1, c)),
        ));
    } else {
        assert(s[0].0 != k);
        lemma_ins_add_at(s.drop_first(), k, c, i - 1);
        assert(seq![s[0]] + s.drop_first().update(i - 1, (k, add_spec(s[i].1, c))) =~= s.update(
            i,
            (k, add_spec(s[i].1, c)),
        ));
    }
}

/// When the key is absent, insertion appends a fresh entry.
proof fn lemma_ins_add_missing(s: Seq<(Seq<Variable>, Expr)>, k: Seq<Variable>, c: Expr)
    requires
        forall|j: int| 0 <= j < s.len() ==> s[j].0 != k,
    ensures
        ins_add(s, k, c) == s.push((k, c)),
    decreases s.len(),
{
    if s.len() == 0 {
        assert(ins_add(s, k, c) =~= s.push((k, c)));
    } else {
        lemma_ins_add_missing(s.drop_first(), k, c);
        assert(seq![s[0]] + s.drop_first().push((k, c)) =~= s.push((k, c)));
    }
}

proof fn lemma_ins_sub_at(s: Seq<(Seq<Variable>, Expr)>, k: Seq<Variable>, c: Expr, i: int)
    requires
        0 <= i < s.len(),
        s[i].0 == k,
        forall|j: int| 0 <= j < i ==> s[j].0 != k,
    ensures
        ins_sub(s, k, c) == s.update(i, (k, sub_spec(s[i].1, c))),
    decreases s.len(),
{
    if i == 0 {
        assert(seq![(k, sub_spec(s[0].1, c))] + s.drop_first() =~= s.update(
            0,
            (k, sub_spec(s[0].1, c)),
        ));
    } else {
        assert(s[0].0 != k);
        lemma_ins_sub_at(s.drop_first(), k, c, i - 1);
        assert(seq![s[0]] + s.drop_first().update(i - 1, (k, sub_spec(s[i].1, c))) =~= s.update(
            i,
            (k, sub_spec(s[i].1, c)),
        ));
    }
}

proof fn lemma_ins_sub_missing(s: Seq<(Seq<Variable>, Expr)>, k: Seq<Variable>, c: Expr)
    requires
        forall|j: int| 0 <= j < s.len() ==> s[j].0 != k,
    ensures
        ins_sub(s, k, c) == s.push((k, sub_spec(zero_expr(), c))),
    decreases s.len(),
{
    if s.len() == 0 {
        assert(ins_sub(s, k, c) =~= s.push((k, sub_spec(zero_expr(), c))));
    } else {
        lemma_ins_sub_missing(s.drop_first(), k, c);
        assert(seq![s[0]] + s.drop_first().push((k, sub_spec(zero_expr(), c))) =~= s.push(
            (k, sub_spec(zero_expr(), c)),
        ));
    }
}

impl Expr {
    /// Expands the expression into monomials over its cell references:
    /// an association list from sorted variable lists to coefficient
    /// expressions, merged coefficient-wise for sums and convolved for
    /// products.
    pub fn monomials(&self) -> (r: Vec<(Vec<Variable>, Expr)>)
        ensures
            terms_view(r@) == mono_spec(*self),
        decreases self,
    {
        match self {
            Expr::Cell(v) => {
                let mut key: Vec<Variable> = Vec::new();
                key.push(*v);
                let mut out: Vec<(Vec<Variable>, Expr)> = Vec::new();
                out.push((key, Expr::Constant(Fp::one())));
                proof {
                    assert(terms_view(out@) =~= mono_spec(*self));
                }
                out
            },
            Expr::Add(x, y) => {
                let mut res = (**x).monomials();
                let other = (**y).monomials();
                proof {
                    assert(terms_view(other@).skip(0) =~= terms_view(other@));
                }
                let ghost t0 = terms_view(other@);
                let mut j: usize = 0;
                let n = other.len();
                while j < n
                    invariant
                        n == other@.len(),
                        0 <= j <= n,
                        t0 == terms_view(other@),
                        merge_add(terms_view(res@), terms_view(other@).skip(j as int)) == mono_spec(
                            *self,
                        ),
                    decreases n - j,
                {
                    let ghost pre = terms_view(res@);
                    let ghost rest = terms_view(other@).skip(j as int);
                    let p = &other[j];
                    let key = clone_vars(&p.0);
                    let c = p.1.clone();
                    insert_add_term(&mut res, key, c);
                    proof {
                        assert(rest[0] == terms_view(other@)[j as int]);
                        assert(rest.drop_first() =~= terms_view(other@).skip(j + 1));
                    }
                    j += 1;
                }
                proof {
                    assert(terms_view(other@).skip(n as int) =~= Seq::<(Seq<Variable>, Expr)>::empty());
                }
                res
            },
            Expr::Sub(x, y) => {
                let mut res = (**x).monomials();
                let other = (**y).monomials();
                proof {
                    assert(terms_view(other@).skip(0) =~= terms_view(other@));
                }
                let mut j: usize = 0;
                let n = other.len();
                while j < n
                    invariant
                        n == other@.len(),
                        0 <= j <= n,
                        merge_sub(terms_view(res@), terms_view(other@).skip(j as int)) == mono_spec(
                            *self,
                        ),
                    decreases n - j,
                {
                    let ghost rest = terms_view(other@).skip(j as int);
                    let p = &other[j];
                    let key = clone_vars(&p.0);
                    let c = p.1.clone();
                    insert_sub_term(&mut res, key, c);
                    proof {
                        assert(rest[0] == terms_view(other@)[j as int]);
                        assert(rest.drop_first() =~= terms_view(other@).skip(j + 1));
                    }
                    j += 1;
                }
                proof {
                    assert(terms_view(other@).skip(n as int) =~= Seq::<(Seq<Variable>, Expr)>::empty());
                    assert(merge_sub(terms_view(res@), Seq::empty()) == terms_view(res@));
                }
                res
            },
            Expr::Mul(x, y) => {
                let e1 = (**x).monomials();
                let e2 = (**y).monomials();
                let mut res: Vec<(Vec<Variable>, Expr)> = Vec::new();
                let n1 = e1.len();
                let n2 = e2.len();
                proof {
                    assert(terms_view(res@) =~= Seq::<(Seq<Variable>, Expr)>::empty());
                    assert(terms_view(e1@).skip(0) =~= terms_view(e1@));
                }
                let mut i: usize = 0;
                while i < n1
                    invariant
                        n1 == e1@.len(),
                        n2 == e2@.len(),
                        0 <= i <= n1,
                        conv(terms_view(res@), terms_view(e1@).skip(i as int), terms_view(e2@))
                            == mono_spec(*self),
                    decreases n1 - i,
                {
                    let ghost srest = terms_view(e1@).skip(i as int);
                    let p1 = &e1[i];
                    let ghost k1 = p1.0@;
                    let ghost c1s = p1.1;
                    proof {
                        assert(srest[0] == terms_view(e1@)[i as int]);
                        assert(srest.drop_first() =~= terms_view(e1@).skip(i + 1));
                        assert(terms_view(e2@).skip(0) =~= terms_view(e2@));
                    }
                    let mut j: usize = 0;
                    while j < n2
                        invariant
                            n1 == e1@.len(),
                            n2 == e2@.len(),
                            0 <= i < n1,
                            0 <= j <= n2,
                            srest == terms_view(e1@).skip(i as int),
                            k1 == e1@[i as int].0@,
                            c1s == e1@[i as int].1,
                            conv(
                                conv_row(
                                    terms_view(res@),
                                    k1,
                                    c1s,
                                    terms_view(e2@).skip(j as int),
                                ),
                                terms_view(e1@).skip(i + 1),
                                terms_view(e2@),
                            ) == mono_spec(*self),
                        decreases n2 - j,
                    {
                        let ghost trest = terms_view(e2@).skip(j as int);
                        let p1b = &e1[i];
                        let p2 = &e2[j];
                        let m1 = clone_vars(&p1b.0);
                        let c1 = p1b.1.clone();
                        let m2 = clone_vars(&p2.0);
                        let c2 = p2.1.clone();
                        let m = merge_sorted(m1, m2);
                        let c1c2 = c1.mul(c2);
                        insert_add_term(&mut res, m, c1c2);
                        proof {
                            assert(trest[0] == terms_view(e2@)[j as int]);
                            assert(trest.drop_first() =~= terms_view(e2@).skip(j + 1));
                        }
                        j += 1;
                    }
                    proof {
                        assert(terms_view(e2@).skip(n2 as int) =~= Seq::<(
                            Seq<Variable>,
                            Expr,
                        )>::empty());
                        assert(srest[0].0 == k1 && srest[0].1 == c1s);
                        assert(srest.drop_first() =~= terms_view(e1@).skip(i + 1));
                    }
                    i += 1;
                }
                proof {
                    assert(terms_view(e1@).skip(n1 as int) =~= Seq::<(Seq<Variable>, Expr)>::empty());
                }
                res
            },
            other_leaf => {
                let leaf = other_leaf.clone();
                let mut out: Vec<(Vec<Variable>, Expr)> = Vec::new();
                out.push((Vec::new(), leaf));
                proof {
                    assert(terms_view(out@) =~= mono_spec(*self));
                }
                out
            },
        }
    }
}

/// The output of linearization: a constant term plus one coefficient
/// expression per committed column.
#[derive(Debug)]
pub struct Linearization {
    pub constant_term: Expr,
    pub index_terms: Vec<(Column, Expr)>,
}

/// Adds a coefficient to the entry of a column in the index terms,
/// appending a fresh entry if the column is new.
pub open spec fn ins_add_col(s: Seq<(Column, Expr)>, k: Column, c: Expr) -> Seq<(Column, Expr)>
    decreases s.len(),
{
    if s.len() == 0 {
        seq![(k, c)]
    } else if s[0].0 == k {
        seq![(k, add_spec(s[0].1, c))] + s.drop_first()
    } else {
        seq![s[0]] + ins_add_col(s.drop_first(), k, c)
    }
}

/// Multiplies a coefficient by the cells of the evaluated variables.
pub open spec fn cell_fold(c: Expr, vs: Seq<Variable>) -> Expr
    decreases vs.len(),
{
    if vs.len() == 0 {
        c
    } else {
        cell_fold(mul_spec(c, Expr::Cell(vs[0])), vs.drop_first())
    }
}

/// The variables of a monomial whose columns are in the evaluated set,
/// in order.
pub open spec fn eval_part(m: Seq<Variable>, cols: Seq<Column>) -> Seq<Variable> {
    m.filter(|v: Variable| cols.contains(v.col))
}

/// The variables of a monomial whose columns are not in the evaluated
/// set, in order.
pub open spec fn uneval_part(m: Seq<Variable>, cols: Seq<Column>) -> Seq<Variable> {
    m.filter(|v: Variable| !cols.contains(v.col))
}

/// Appending a variable extends the matching part of the partition.
pub(crate) proof fn lemma_part_push(m: Seq<Variable>, cols: Seq<Column>, v: Variable)
    ensures
        eval_part(m.push(v), cols) == if cols.contains(v.col) {
            eval_part(m, cols).push(v)
        } else {
            eval_part(m, cols)
        },
        uneval_part(m.push(v), cols) == if !cols.contains(v.col) {
            uneval_part(m, cols).push(v)
        } else {
            uneval_part(m, cols)
        },
{
    reveal_with_fuel(Seq::<Variable>::filter, 2);
    assert(m.push(v).drop_last() =~= m);
    assert(m.push(v).last() == v);
}

/// Processes the monomials one by one: a monomial with no unevaluated
/// variable joins the constant term; one with a single unevaluated
/// variable on the current row joins that column's index term; anything
/// else fails.
pub open spec fn lin_fold(
    terms: Seq<(Seq<Variable>, Expr)>,
    cols: Seq<Column>,
    ct: Expr,
    it: Seq<(Column, Expr)>,
) -> Option<(Expr, Seq<(Column, Expr)>)>
    decreases terms.len(),
{
    if terms.len() == 0 {
        Some((ct, it))
    } else {
        let m = terms[0].0;
        let c = terms[0].1;
        let ev = eval_part(m, cols);
        let un = uneval_part(m, cols);
        let c2 = cell_fold(c, ev);
        if un.len() == 0 {
            lin_fold(terms.drop_first(), cols, add_spec(ct, c2), it)
        } else if un.len() == 1 {
            if un[0].row is Next {
                None
            } else {
                lin_fold(terms.drop_first(), cols, ct, ins_add_col(it, un[0].col, c2))
            }
        } else {
            None
        }
    }
}

/// What `linearize` computes, over the monomial expansion.
pub open spec fn lin_spec(e: Expr, cols: Seq<Column>) -> Option<(Expr, Seq<(Column, Expr)>)> {
    lin_fold(mono_spec(e), cols, zero_expr(), Seq::empty())
}

/// Whether a column is in the evaluated set.
fn contains_col(cols: &Vec<Column>, c: Column) -> (r: bool)
    ensures
        r <==> cols@.contains(c),
{
    let n = cols.len();
    let mut i: usize = 0;
    while i < n
        invariant
            n == cols@.len(),
            0 <= i <= n,
            forall|j: int| 0 <= j < i ==> cols@[j] != c,
        decreases n - i,
    {
        if cols[i] == c {
            return true;
        }
        i += 1;
    }
    false
}

/// Folds one coefficient into the index terms.
fn insert_add_col(res: &mut Vec<(Column, Expr)>, key: Column, c: Expr)
    ensures
        final(res)@ == ins_add_col(old(res)@, key, c),
{
    let n = res.len();
    let mut i: usize = 0;
    while i < n
        invariant
            n == res@.len(),
            0 <= i <= n,
            res@ == old(res)@,
            forall|j: int| 0 <= j < i ==> res@[j].0 != key,
        decreases n - i,
    {
        if res[i].0 == key {
            let (k_old, c_old) = res.remove(i);
            res.insert(i, (k_old, c_old.add(c)));
            proof {
                lemma_ins_add_col_at(old(res)@, key, c, i as int);
                assert(res@ =~= old(res)@.update(
                    i as int,
                    (key, add_spec(old(res)@[i as int].1, c)),
                ));
            }
            return ;
        }
        i += 1;
    }
    res.push((key, c));
    proof {
        lemma_ins_add_col_missing(old(res)@, key, c);
        assert(res@ =~= old(res)@.push((key, c)));
    }
}

proof fn lemma_ins_add_col_at(s: Seq<(Column, Expr)>, k: Column, c: Expr, i: int)
    requires
        0 <= i < s.len(),
        s[i].0 == k,
        forall|j: int| 0 <= j < i ==> s[j].0 != k,
    ensures
        ins_add_col(s, k, c) == s.update(i, (k, add_spec(s[i].1, c))),
    decreases s.len(),
{
    if i == 0 {
        assert(seq![(k, add_spec(s[0].1, c))] + s.drop_first() =~= s.update(
            0,
            (k, add_spec(s[0].1, c)),
        ));
    } else {
        assert(s[0].0 != k);
        lemma_ins_add_col_at(s.drop_first(), k, c, i - 1);
        assert(seq![s[0]] + s.drop_first().update(i - 1, (k, add_spec(s[i].1, c))) =~= s.update(
            i,
            (k, add_spec(s[i].1, c)),
        ));
    }
}

proof fn lemma_ins_add_col_missing(s: Seq<(Column, Expr)>, k: Column, c: Expr)
    requires
        forall|j: int| 0 <= j < s.len() ==> s[j].0 != k,
    ensures
        ins_add_col(s, k, c) == s.push((k, c)),
    decreases s.len(),
{
    if s.len() == 0 {
        assert(ins_add_col(s, k, c) =~= s.push((k, c)));
    } else {
        lemma_ins_add_col_missing(s.drop_first(), k, c);
        assert(seq![s[0]] + s.drop_first().push((k, c)) =~= s.push((k, c)));
    }
}

impl Expr {
    /// Linearizes the expression around the evaluation point: every
    /// monomial's variables over the evaluated columns are replaced by
    /// their cell values; what remains must be at most one unevaluated
    /// variable on the current row per monomial.
    pub fn linearize(&self, evaluated: Vec<Column>) -> (r: Result<
        Linearization,
        &'static str,
    >)
        ensures
            r is Ok <==> lin_spec(*self, evaluated@) is Some,
            r is Ok ==> (r->Ok_0.constant_term, r->Ok_0.index_terms@) == lin_spec(
                *self,
                evaluated@,
            )->Some_0,
    {
        let mut mono = self.monomials();
        let mut constant_term = Expr::Constant(Fp::zero());
        let mut index_terms: Vec<(Column, Expr)> = Vec::new();
        proof {
            assert(terms_view(mono@).skip(0) =~= terms_view(mono@));
            assert(index_terms@ =~= Seq::<(Column, Expr)>::empty());
        }
        while mono.len() > 0
            invariant
                lin_fold(terms_view(mono@), evaluated@, constant_term, index_terms@) == lin_spec(
                    *self,
                    evaluated@,
                ),
            decreases mono.len(),
        {
            let ghost terms0 = terms_view(mono@);
            let (m, c) = mono.remove(0);
            proof {
                assert(terms_view(mono@) =~= terms0.drop_first());
                assert(terms0[0] == (m@, c));
            }
            let mut ev: Vec<Variable> = Vec::new();
            let mut un: Vec<Variable> = Vec::new();
            let nm = m.len();
            let mut i: usize = 0;
            proof {
                reveal_with_fuel(Seq::<Variable>::filter, 2);
                assert(m@.take(0) =~= Seq::<Variable>::empty());
                assert(eval_part(m@.take(0), evaluated@) =~= Seq::<Variable>::empty());
                assert(uneval_part(m@.take(0), evaluated@) =~= Seq::<Variable>::empty());
            }
            while i < nm
                invariant
                    nm == m@.len(),
                    0 <= i <= nm,
                    ev@ == eval_part(m@.take(i as int), evaluated@),
                    un@ == uneval_part(m@.take(i as int), evaluated@),
                decreases nm - i,
            {
                let ghost pre = m@.take(i as int);
                let v = m[i];
                let hit = contains_col(&evaluated, v.col);
                if hit {
                    ev.push(v);
                } else {
                    un.push(v);
                }
                proof {
                    assert(m@.take(i + 1) =~= pre.push(v));
                    lemma_part_push(pre, evaluated@, v);
                }
                i += 1;
            }
            proof {
                assert(m@.take(nm as int) =~= m@);
            }
            // multiply the coefficient by the evaluated cells
            let mut c2 = c;
            let ne = ev.len();
            let mut t: usize = 0;
            proof {
                assert(ev@.skip(0) =~= ev@);
            }
            while t < ne
                invariant
                    ne == ev@.len(),
                    0 <= t <= ne,
                    cell_fold(c2, ev@.skip(t as int)) == cell_fold(c, ev@),
                decreases ne - t,
            {
                let ghost rest = ev@.skip(t as int);
                let v = ev[t];
                c2 = c2.mul(Expr::Cell(v));
                proof {
                    assert(rest[0] == ev@[t as int]);
                    assert(rest.drop_first() =~= ev@.skip(t + 1));
                }
                t += 1;
            }
            proof {
                assert(ev@.skip(ne as int) =~= Seq::<Variable>::empty());
            }
            if un.len() == 0 {
                constant_term = constant_term.add(c2);
            } else if un.len() == 1 {
                let var = un[0];
                match var.row {
                    CurrOrNext::Next => {
                        proof {
                            assert(un@[0] == var);
                        }
                        return Err(
                            "Linearization failed (needed polynomial value at \"next\" row)",
                        );
                    },
                    CurrOrNext::Curr => {
                        insert_add_col(&mut index_terms, var.col, c2);
                    },
                }
            } else {
                return Err("Linearization failed");
            }
        }
        proof {
            assert(terms_view(mono@).len() == 0);
        }
        Ok(Linearization { constant_term, index_terms })
    }
}

/// The coefficient of the `k`-th combined constraint: one for the very
/// first slot, otherwise the matching power of alpha.
pub open spec fn combine_coeff(i: int) -> Expr {
    if i == 0 {
        one_expr()
    } else {
        Expr::Alpha { power: i as usize }
    }
}

/// The left fold that sums the constraints scaled by powers of alpha.
pub open spec fn combine_fold(acc: Expr, i: int, cs: Seq<Expr>) -> Expr
    decreases cs.len(),
{
    if cs.len() == 0 {
        acc
    } else {
        combine_fold(add_spec(acc, mul_spec(combine_coeff(i), cs[0])), i + 1, cs.drop_first())
    }
}

/// What `combine_constraints` builds.
pub open spec fn combine_spec(alpha0: int, cs: Seq<Expr>) -> Expr {
    combine_fold(zero_expr(), alpha0, cs)
}

impl Expr {
    /// `sum_k alpha^(alpha0 + k) * cs[k]`, the very first power replaced
    /// by one when `alpha0` is zero.
    pub fn combine_constraints(alpha0: usize, cs: Vec<Expr>) -> (r: Expr)
        requires
            alpha0 + cs@.len() <= usize::MAX,
        ensures
            r == combine_spec(alpha0 as int, cs@),
    {
        let mut acc = Expr::Constant(Fp::zero());
        let mut cs = cs;
        let mut i = alpha0;
        proof {
            assert(cs@.skip(0) =~= cs@);
        }
        let ghost cs0 = cs@;
        let ghost n0 = cs@.len();
        while cs.len() > 0
            invariant
                alpha0 + n0 <= usize::MAX,
                alpha0 <= i <= alpha0 + n0,
                cs@.len() == n0 - (i - alpha0),
                combine_fold(acc, i as int, cs@) == combine_spec(alpha0 as int, cs0),
            decreases cs.len(),
        {
            let ghost pre = cs@;
            let c = cs.remove(0);
            let a = if i == 0 {
                Expr::Constant(Fp::one())
            } else {
                Expr::Alpha { power: i }
            };
            proof {
                assert(pre[0] == c);
                assert(cs@ =~= pre.drop_first());
                assert(a == combine_coeff(i as int));
            }
            acc = acc.add(a.mul(c));
            i += 1;
        }
        acc
    }
}

impl From<u64> for Expr {
    /// The constant expression standing for an integer.
    fn from(x: u64) -> (r: Self) {
        Expr::Constant(Fp::new(x))
    }
}

impl vstd::std_specs::convert::FromSpecImpl<u64> for Expr {
    open spec fn obeys_from_spec() -> bool {
        true
    }

    open spec fn from_spec(x: u64) -> Self {
        Expr::Constant(Fp { v: x % crate::modarith::P })
    }
}

} // verus!
