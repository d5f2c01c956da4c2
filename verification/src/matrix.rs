//! The linear system: rows of rational coefficients over a growing variable
//! ordering, assembled from normalized equations, and solved by Gaussian
//! elimination with partial pivoting.
//!
//! `gaussian_elimination` works on a private copy, records every elementary
//! row operation as a `Transformation`, and re-substitutes its result into
//! the caller's rows before returning, so a returned solution is proved to
//! satisfy the original system exactly. The whole run is specified by a
//! step-for-step mirror over mathematical rationals (`spec_solve`), so the
//! returned kind, the solved rows and the recorded trace are each pinned
//! exactly.

use vstd::prelude::*;
use vstd::string::*;

use crate::equation::{has_var, var_index, Equation};
use crate::rat::{frac_add, frac_div, frac_eq, frac_fits, frac_int, frac_mul, frac_sub, Frac, Rat};

verus! {

/// One elementary row operation, recorded for display. Row values are
/// captured copies labeling the operation, not live references; each label
/// carries the slot its row occupied at the moment of recording, unaffected
/// by later swaps.
#[derive(Debug)]
pub enum Transformation {
    /// The row was multiplied by the factor.
    Multiply(MatrixRow, Rat),
    /// The two rows exchanged positions.
    Swap(MatrixRow, MatrixRow),
    /// The second row was added into the first.
    Add(MatrixRow, MatrixRow),
    /// An ordered run of steps collapsed into one logical elimination step,
    /// labeled by the row it ultimately mutates.
    Compounded(Vec<Transformation>, MatrixRow),
}

/// Why elimination stopped without a solution.
#[derive(Debug, Clone, Copy, PartialEq, Eq, Structural)]
pub enum SolveError {
    /// The system is not square: rows differ from variables in number.
    NonSquare,
    /// Every pivot candidate in the column of this elimination step is zero.
    Singular { step: usize },
    /// An intermediate value left the representable range.
    OutOfRange,
    /// The eliminated result failed the exact re-substitution check. Not
    /// expected to occur; the check makes the solution guarantee
    /// unconditional.
    Residual,
}

/// One row: coefficients aligned with the system's variable ordering, the
/// right-hand constant, and the row's slot at the moment it was created or
/// captured (used only to label transformations).
#[derive(Debug, Clone)]
pub struct MatrixRow {
    pub coefficients: Vec<Rat>,
    pub constant: Rat,
    pub occupying_row: usize,
}

/// The assembled linear system.
#[derive(Debug, Clone)]
pub struct Matrix {
    pub variables: Vec<String>,
    pub rows: Vec<MatrixRow>,
}

pub open spec fn rat_zero_val() -> Rat {
    Rat { num: 0, den: 1 }
}

/// A row as mathematical values, for the specification-level mirror of the
/// elimination: coefficients, constant, and the recorded position label.
pub ghost struct RowS {
    pub coeffs: Seq<Frac>,
    pub constant: Frac,
    pub pos: int,
}

/// A recorded row operation, at the mirror level: a swap of two rows, one
/// compounded elimination step (scale the pivot by the factor, combine into
/// the target), or a back-substitution normalization.
pub ghost enum TfS {
    SwapT { a: RowS, b: RowS },
    CompT { pivot: RowS, f: Frac, target: RowS },
    MulT { row: RowS, f: Frac },
}

/// State of the elimination mirror: the working rows, the operations
/// recorded so far, and the failure flags. `sing` holds the step whose pivot
/// column (or diagonal, in back substitution) is zero; `big` is set when an
/// intermediate value leaves the representable range. A failed state is
/// frozen: later steps leave it unchanged.
pub ghost struct SolveState {
    pub rows: Seq<RowS>,
    pub trace: Seq<TfS>,
    pub sing: Option<int>,
    pub big: bool,
}

pub open spec fn solve_failed(st: SolveState) -> bool {
    st.sing is Some || st.big
}

pub open spec fn row_view(r: MatrixRow) -> RowS {
    RowS {
        coeffs: r.coefficients@.map_values(|c: Rat| c@),
        constant: r.constant@,
        pos: r.occupying_row as int,
    }
}

pub open spec fn rows_view(rows: Seq<MatrixRow>) -> Seq<RowS> {
    rows.map_values(|r: MatrixRow| row_view(r))
}

pub open spec fn frac_views(v: Seq<Rat>) -> Seq<Frac> {
    v.map_values(|c: Rat| c@)
}

/// The row's values labeled with the slot it occupies at the moment of
/// recording: transformation labels carry the slot, never an identity that
/// travels with the row through swaps.
pub open spec fn at_slot(r: RowS, s: int) -> RowS {
    RowS { coeffs: r.coeffs, constant: r.constant, pos: s }
}

/// Whether an executable transformation records exactly a mirror operation:
/// same kind, same factor, and the same captured row values (their position
/// labels included).
pub open spec fn tf_matches(t: Transformation, s: TfS) -> bool {
    match t {
        Transformation::Swap(a, b) => s matches TfS::SwapT { a: sa, b: sb } && row_view(a) == sa
            && row_view(b) == sb,
        Transformation::Multiply(row, c) => s matches TfS::MulT { row: sr, f } && row_view(row)
            == sr && c@ == f,
        Transformation::Compounded(steps, target) => s matches TfS::CompT {
            pivot,
            f,
            target: starget,
        } && steps@.len() == 2 && (steps@[0] matches Transformation::Multiply(pr, pf)
            && row_view(pr) == pivot && pf@ == f) && (steps@[1] matches Transformation::Add(
            tr,
            pr2,
        ) && row_view(tr) == starget && row_view(pr2) == pivot) && row_view(target) == starget,
        _ => false,
    }
}

/// The pivot choice in column `k` among mirror rows `[k, i)`: the first row
/// of largest magnitude (the scan keeps the earlier row on ties).
pub open spec fn pivot_in(rows: Seq<RowS>, k: int, i: int) -> int
    decreases i - k,
{
    if i <= k + 1 {
        k
    } else {
        let p = pivot_in(rows, k, i - 1);
        if crate::rat::frac_abs_gt(rows[i - 1].coeffs[k], rows[p].coeffs[k]) {
            i - 1
        } else {
            p
        }
    }
}

pub open spec fn elim_factor(row: RowS, piv: RowS, k: int) -> Frac {
    frac_div(row.coeffs[k], piv.coeffs[k])
}

pub open spec fn elim_coeff(row: RowS, piv: RowS, k: int, j: int) -> Frac {
    if j == k {
        frac_int(0)
    } else if j > k {
        frac_sub(row.coeffs[j], frac_mul(piv.coeffs[j], elim_factor(row, piv, k)))
    } else {
        row.coeffs[j]
    }
}

/// Every value the elimination of this row computes stays in range.
pub open spec fn elim_row_ok(row: RowS, piv: RowS, k: int, n: int) -> bool {
    let f = elim_factor(row, piv, k);
    &&& frac_fits(f)
    &&& forall|j: int|
        k < j < n ==> frac_fits(#[trigger] frac_mul(piv.coeffs[j], f)) && frac_fits(
            frac_sub(row.coeffs[j], frac_mul(piv.coeffs[j], f)),
        )
    &&& frac_fits(frac_mul(piv.constant, f))
    &&& frac_fits(frac_sub(row.constant, frac_mul(piv.constant, f)))
}

pub open spec fn elim_row_val(row: RowS, piv: RowS, k: int, n: int) -> RowS {
    RowS {
        coeffs: Seq::new(n as nat, |j: int| elim_coeff(row, piv, k, j)),
        constant: frac_sub(row.constant, frac_mul(piv.constant, elim_factor(row, piv, k))),
        pos: row.pos,
    }
}

/// Eliminates row `i` using the pivot row `k`: the compounded record is
/// pushed (labeled with the pivot's and the target's slots), then the row
/// is replaced.
pub open spec fn elim_one(st: SolveState, k: int, i: int, n: int) -> SolveState {
    if solve_failed(st) {
        st
    } else if !elim_row_ok(st.rows[i], st.rows[k], k, n) {
        SolveState { big: true, ..st }
    } else {
        SolveState {
            rows: st.rows.update(i, elim_row_val(st.rows[i], st.rows[k], k, n)),
            trace: st.trace.push(
                TfS::CompT {
                    pivot: at_slot(st.rows[k], k),
                    f: elim_factor(st.rows[i], st.rows[k], k),
                    target: at_slot(st.rows[i], i),
                },
            ),
            ..st
        }
    }
}

/// Eliminates rows `[k+1, i)` below the pivot, in order.
pub open spec fn elim_upto(st: SolveState, k: int, i: int, n: int) -> SolveState
    decreases i - k,
{
    if i <= k + 1 {
        st
    } else {
        elim_one(elim_upto(st, k, i - 1, n), k, i - 1, n)
    }
}

/// One forward-elimination step: pivot search in column `k`, the singular
/// check, a recorded swap when the pivot lies below `k`, then elimination of
/// every row below the pivot.
pub open spec fn forward_step(st: SolveState, k: int, n: int) -> SolveState {
    if solve_failed(st) {
        st
    } else {
        let p = pivot_in(st.rows, k, n);
        if st.rows[p].coeffs[k].n == 0 {
            SolveState { sing: Some(k), ..st }
        } else {
            let st1 = if p != k {
                SolveState {
                    rows: st.rows.update(k, st.rows[p]).update(p, st.rows[k]),
                    trace: st.trace.push(
                        TfS::SwapT { a: at_slot(st.rows[k], k), b: at_slot(st.rows[p], p) },
                    ),
                    ..st
                }
            } else {
                st
            };
            elim_upto(st1, k, n, n)
        }
    }
}

/// Forward-elimination steps `[0, k)`.
pub open spec fn forward_upto(st: SolveState, k: int, n: int) -> SolveState
    decreases k,
{
    if k <= 0 {
        st
    } else {
        forward_step(forward_upto(st, k - 1, n), k - 1, n)
    }
}

/// The running back-substitution value for row `i`, after subtracting the
/// terms for columns `[i+1, j)`.
pub open spec fn bsub_acc(rows: Seq<RowS>, i: int, j: int) -> Frac
    decreases j - i,
{
    if j <= i + 1 {
        rows[i].constant
    } else {
        frac_sub(bsub_acc(rows, i, j - 1), frac_mul(rows[i].coeffs[j - 1], rows[j - 1].constant))
    }
}

pub open spec fn bsub_ok(rows: Seq<RowS>, i: int, j: int) -> bool
    decreases j - i,
{
    if j <= i + 1 {
        true
    } else {
        &&& bsub_ok(rows, i, j - 1)
        &&& frac_fits(frac_mul(rows[i].coeffs[j - 1], rows[j - 1].constant))
        &&& frac_fits(
            frac_sub(bsub_acc(rows, i, j - 1), frac_mul(rows[i].coeffs[j - 1], rows[j - 1].constant)),
        )
    }
}

/// One back-substitution step for row `i`: the subtraction sum, the zero
/// diagonal check, the recorded normalization factor `1/diagonal`, and the
/// division; the diagonal is set to exactly 1 and the constant to the solved
/// value.
pub open spec fn backward_step(st: SolveState, i: int, n: int) -> SolveState {
    if solve_failed(st) {
        st
    } else if !bsub_ok(st.rows, i, n) {
        SolveState { big: true, ..st }
    } else {
        let diag = st.rows[i].coeffs[i];
        if diag.n == 0 {
            SolveState { sing: Some(i), ..st }
        } else if !frac_fits(frac_div(frac_int(1), diag)) {
            SolveState { big: true, ..st }
        } else {
            let st1 = SolveState {
                trace: st.trace.push(
                    TfS::MulT { row: at_slot(st.rows[i], i), f: frac_div(frac_int(1), diag) },
                ),
                ..st
            };
            let f = frac_div(bsub_acc(st.rows, i, n), diag);
            if !frac_fits(f) {
                SolveState { big: true, ..st1 }
            } else {
                SolveState {
                    rows: st1.rows.update(
                        i,
                        RowS {
                            coeffs: st.rows[i].coeffs.update(i, frac_int(1)),
                            constant: f,
                            pos: st.rows[i].pos,
                        },
                    ),
                    ..st1
                }
            }
        }
    }
}

/// Back-substitution steps for rows `[bi, n)`, from the last row upward.
pub open spec fn backward_from(st: SolveState, bi: int, n: int) -> SolveState
    decreases n - bi,
{
    if bi >= n {
        st
    } else {
        backward_step(backward_from(st, bi + 1, n), bi, n)
    }
}

pub open spec fn solve_from(st0: SolveState, n: int) -> SolveState {
    backward_from(forward_upto(st0, n, n), 0, n)
}

/// The mirror of the whole elimination on a square system: the exact values
/// every step computes, the operations recorded, and the first failure, if
/// any.
pub open spec fn spec_solve(m: Matrix) -> SolveState {
    let n = m.rows@.len() as int;
    solve_from(
        SolveState { rows: rows_view(m.rows@), trace: Seq::empty(), sing: None, big: false },
        n,
    )
}

/// The solved values of a completed mirror run, one per row.
pub open spec fn mirror_solution(st: SolveState) -> Seq<Frac> {
    st.rows.map_values(|r: RowS| r.constant)
}

/// Dot product over mathematical rationals.
pub open spec fn dot(cs: Seq<Frac>, xs: Seq<Frac>) -> Frac
    decreases cs.len(),
{
    if cs.len() == 0 {
        frac_int(0)
    } else {
        frac_add(dot(cs.drop_last(), xs.drop_last()), frac_mul(cs.last(), xs.last()))
    }
}

/// Every product and running sum of the dot evaluation stays in range.
pub open spec fn dot_ok(cs: Seq<Frac>, xs: Seq<Frac>) -> bool
    decreases cs.len(),
{
    if cs.len() == 0 {
        true
    } else {
        &&& dot_ok(cs.drop_last(), xs.drop_last())
        &&& frac_fits(frac_mul(cs.last(), xs.last()))
        &&& frac_fits(frac_add(dot(cs.drop_last(), xs.drop_last()), frac_mul(cs.last(), xs.last())))
    }
}

/// Whether the values satisfy the row's equation exactly.
pub open spec fn satisfies(coeffs: Seq<Frac>, constant: Frac, xs: Seq<Frac>) -> bool {
    frac_eq(dot(coeffs, xs), constant)
}

/// The re-substitution check, row by row: `None` at the first row whose
/// evaluation leaves the range, `Some(false)` at the first unsatisfied row.
pub open spec fn eval_rows(rows: Seq<RowS>, xs: Seq<Frac>) -> Option<bool>
    decreases rows.len(),
{
    if rows.len() == 0 {
        Some(true)
    } else if !dot_ok(rows[0].coeffs, xs) {
        None
    } else if !satisfies(rows[0].coeffs, rows[0].constant, xs) {
        Some(false)
    } else {
        eval_rows(rows.drop_first(), xs)
    }
}

/// A compounded transformation holds exactly a scale of the pivot row
/// followed by a combine into the eliminated row.
pub open spec fn compound_shape(t: Transformation) -> bool {
    match t {
        Transformation::Compounded(steps, _) => steps@.len() == 2 && (steps@[0] is Multiply) && (
        steps@[1] is Add),
        _ => true,
    }
}

/// The distinct variables of `eqv` not yet in `existing`, in order.
pub open spec fn missing_vars(eqv: Seq<Seq<char>>, existing: Seq<Seq<char>>) -> Seq<Seq<char>>
    decreases eqv.len(),
{
    if eqv.len() == 0 {
        Seq::empty()
    } else {
        missing_vars(eqv.drop_last(), existing) + (if has_var(existing, eqv.last()) {
            Seq::<Seq<char>>::empty()
        } else {
            seq![eqv.last()]
        })
    }
}

/// The coefficient an equation gives a variable: its entry when present,
/// zero when absent.
pub open spec fn coeff_of(vars: Seq<Seq<char>>, coeffs: Seq<Frac>, v: Seq<char>) -> Frac {
    if has_var(vars, v) {
        coeffs[var_index(vars, v)]
    } else {
        frac_int(0)
    }
}

pub proof fn lemma_missing_subset(eqv: Seq<Seq<char>>, existing: Seq<Seq<char>>, v: Seq<char>)
    requires
        has_var(missing_vars(eqv, existing), v),
    ensures
        has_var(eqv, v),
        !has_var(existing, v),
    decreases eqv.len(),
{
    if eqv.len() > 0 {
        let m = missing_vars(eqv, existing);
        let prev = missing_vars(eqv.drop_last(), existing);
        let k = choose|k: int| 0 <= k < m.len() && m[k] == v;
        if k < prev.len() {
            lemma_missing_subset(eqv.drop_last(), existing, v);
            let t = choose|t: int| 0 <= t < eqv.drop_last().len() && eqv.drop_last()[t] == v;
            assert(eqv[t] == v);
        } else {
            assert(m[k] == eqv.last());
            assert(eqv[eqv.len() - 1] == v);
        }
    }
}

#[verifier::loop_isolation(false)]
fn clone_rats(v: &Vec<Rat>) -> (r: Vec<Rat>)
    ensures
        r@ == v@,
{
    let mut r: Vec<Rat> = Vec::new();
    let mut i: usize = 0;
    while i < v.len()
        invariant
            i <= v@.len(),
            r@ == v@.subrange(0, i as int),
        decreases v@.len() - i,
    {
        r.push(v[i]);
        proof {
            assert(r@ =~= v@.subrange(0, (i + 1) as int));
        }
        i = i + 1;
    }
    proof {
        assert(v@.subrange(0, i as int) =~= v@);
    }
    r
}

#[verifier::loop_isolation(false)]
fn clone_strings(v: &Vec<String>) -> (r: Vec<String>)
    ensures
        r@ == v@,
{
    let mut r: Vec<String> = Vec::new();
    let mut i: usize = 0;
    while i < v.len()
        invariant
            i <= v@.len(),
            r@ == v@.subrange(0, i as int),
        decreases v@.len() - i,
    {
        r.push(v[i].clone());
        proof {
            assert(r@ =~= v@.subrange(0, (i + 1) as int));
        }
        i = i + 1;
    }
    proof {
        assert(v@.subrange(0, i as int) =~= v@);
    }
    r
}

/// The index of `name` among `vars`, searching front to back.
#[verifier::loop_isolation(false)]
fn find_var(vars: &Vec<String>, name: &String) -> (r: Option<usize>)
    ensures
        r matches Some(k) ==> k < vars@.len() && vars@[k as int]@ == name@,
        r is None ==> forall|j: int| 0 <= j < vars@.len() ==> vars@[j]@ != name@,
{
    let mut k: usize = 0;
    while k < vars.len()
        invariant
            k <= vars@.len(),
            forall|j: int| 0 <= j < k ==> vars@[j]@ != name@,
        decreases vars@.len() - k,
    {
        if vars[k] == *name {
            return Some(k);
        }
        k = k + 1;
    }
    None
}

proof fn lemma_abs_le_trans(a: Frac, b: Frac, c: Frac)
    requires
        a.d > 0,
        b.d > 0,
        c.d > 0,
        !crate::rat::frac_abs_gt(a, b),
        crate::rat::frac_abs_gt(c, b),
    ensures
        !crate::rat::frac_abs_gt(a, c),
{
    let an = crate::rat::int_abs(a.n);
    let bn = crate::rat::int_abs(b.n);
    let cn = crate::rat::int_abs(c.n);
    assert(an * c.d <= cn * a.d) by (nonlinear_arith)
        requires
            an * b.d <= bn * a.d,
            cn * b.d > bn * c.d,
            a.d > 0,
            b.d > 0,
            c.d > 0,
            an >= 0,
            bn >= 0,
            cn >= 0,
    ;
}

proof fn lemma_abs_zero(a: Frac, b: Frac)
    requires
        a.d > 0,
        b.d > 0,
        b.n == 0,
        !crate::rat::frac_abs_gt(a, b),
    ensures
        a.n == 0,
{
    let an = crate::rat::int_abs(a.n);
    assert(crate::rat::int_abs(b.n) == 0);
    assert(crate::rat::int_abs(b.n) * a.d == 0) by (nonlinear_arith)
        requires
            crate::rat::int_abs(b.n) == 0,
    ;
    assert(an * b.d <= 0);
    assert(an == 0) by (nonlinear_arith)
        requires
            an * b.d <= 0,
            b.d > 0,
            an >= 0,
    ;
}

/// Partial pivoting: among rows `k..`, the first row whose entry in column
/// `k` has the largest magnitude, and that entry. A zero pivot entry means
/// every candidate in the column is zero: the singular condition.
#[verifier::loop_isolation(false)]
pub fn find_pivot(rows: &Vec<MatrixRow>, k: usize) -> (r: (usize, Rat))
    requires
        k < rows@.len(),
        forall|t: int|
            0 <= t < rows@.len() ==> (#[trigger] rows@[t]).wf() && rows@[t].coefficients@.len()
                > k,
    ensures
        k <= r.0 < rows@.len(),
        r.0 as int == pivot_in(rows_view(rows@), k as int, rows@.len() as int),
        r.1 == rows@[r.0 as int].coefficients@[k as int],
        forall|i: int|
            k <= i < rows@.len() ==> !crate::rat::frac_abs_gt(
                (#[trigger] rows@[i]).coefficients@[k as int]@,
                r.1@,
            ),
        r.1@.n == 0 ==> forall|i: int|
            k <= i < rows@.len() ==> (#[trigger] rows@[i]).coefficients@[k as int]@.n == 0,
{
    let rn = rows.len();
    let mut i_max = k;
    let mut v_max = rows[k].coefficients[k];
    let mut i = k + 1;
    while i < rn
        invariant
            k <= i_max < rows@.len(),
            k + 1 <= i <= rows@.len(),
            i_max as int == pivot_in(rows_view(rows@), k as int, i as int),
            v_max == rows@[i_max as int].coefficients@[k as int],
            forall|t: int|
                k <= t < i ==> !crate::rat::frac_abs_gt(
                    (#[trigger] rows@[t]).coefficients@[k as int]@,
                    v_max@,
                ),
        decreases rows@.len() - i,
    {
        proof {
            let rv = rows_view(rows@);
            assert(forall|t: int|
                0 <= t < rows@.len() ==> (#[trigger] rv[t]).coeffs[k as int] == rows@[
                    t
                ].coefficients@[k as int]@);
            assert(pivot_in(rv, k as int, (i + 1) as int) == (
            if crate::rat::frac_abs_gt(rv[i as int].coeffs[k as int], rv[
                pivot_in(rv, k as int, i as int)
            ].coeffs[k as int]) {
                i as int
            } else {
                pivot_in(rv, k as int, i as int)
            }));
        }
        if rows[i].coefficients[k].abs_gt(&v_max) {
            proof {
                let old_v = v_max@;
                let new_v = rows@[i as int].coefficients@[k as int]@;
                assert forall|t: int| k <= t < i implies !crate::rat::frac_abs_gt(
                    (#[trigger] rows@[t]).coefficients@[k as int]@,
                    new_v,
                ) by {
                    lemma_abs_le_trans(rows@[t].coefficients@[k as int]@, old_v, new_v);
                }
            }
            v_max = rows[i].coefficients[k];
            i_max = i;
        }
        i = i + 1;
    }
    proof {
        if v_max@.n == 0 {
            assert forall|t: int| k <= t < rows@.len() implies (#[trigger] rows@[
                t
            ]).coefficients@[k as int]@.n == 0 by {
                lemma_abs_zero(rows@[t].coefficients@[k as int]@, v_max@);
            }
        }
    }
    (i_max, v_max)
}


pub proof fn lemma_elim_sticky(st: SolveState, k: int, i1: int, i2: int, n: int)
    requires
        k + 1 <= i1 <= i2,
        solve_failed(elim_upto(st, k, i1, n)),
    ensures
        elim_upto(st, k, i2, n) == elim_upto(st, k, i1, n),
    decreases i2 - i1,
{
    if i1 < i2 {
        lemma_elim_sticky(st, k, i1, i2 - 1, n);
    }
}

pub proof fn lemma_forward_sticky(st0: SolveState, k1: int, k2: int, n: int)
    requires
        0 <= k1 <= k2,
        solve_failed(forward_upto(st0, k1, n)),
    ensures
        forward_upto(st0, k2, n) == forward_upto(st0, k1, n),
    decreases k2 - k1,
{
    if k1 < k2 {
        lemma_forward_sticky(st0, k1, k2 - 1, n);
    }
}

pub proof fn lemma_backward_sticky(st: SolveState, b2: int, b1: int, n: int)
    requires
        b2 <= b1 <= n,
        solve_failed(backward_from(st, b1, n)),
    ensures
        backward_from(st, b2, n) == backward_from(st, b1, n),
    decreases b1 - b2,
{
    if b2 < b1 {
        lemma_backward_sticky(st, b2 + 1, b1, n);
    }
}

/// A failure during forward elimination is the run's outcome.
pub proof fn lemma_fail_from_forward(st0: SolveState, k1: int, n: int)
    requires
        0 <= k1 <= n,
        solve_failed(forward_upto(st0, k1, n)),
    ensures
        solve_from(st0, n) == forward_upto(st0, k1, n),
{
    lemma_forward_sticky(st0, k1, n, n);
    lemma_backward_sticky(forward_upto(st0, n, n), 0, n, n);
}

/// A failure during back substitution is the run's outcome.
pub proof fn lemma_fail_from_backward(st0: SolveState, b1: int, n: int)
    requires
        0 <= b1 <= n,
        solve_failed(backward_from(forward_upto(st0, n, n), b1, n)),
    ensures
        solve_from(st0, n) == backward_from(forward_upto(st0, n, n), b1, n),
{
    lemma_backward_sticky(forward_upto(st0, n, n), 0, b1, n);
}

pub proof fn lemma_bsub_ok_mono(rows: Seq<RowS>, i: int, j: int, n: int)
    requires
        i + 1 <= j <= n,
        !bsub_ok(rows, i, j),
    ensures
        !bsub_ok(rows, i, n),
    decreases n - j,
{
    if j < n {
        lemma_bsub_ok_mono(rows, i, j + 1, n);
    }
}

/// Range-safety of a dot evaluation is inherited by every prefix.
pub proof fn lemma_dot_ok_prefix(cs: Seq<Frac>, xs: Seq<Frac>, j: int)
    requires
        0 <= j <= cs.len(),
        cs.len() == xs.len(),
        dot_ok(cs, xs),
    ensures
        dot_ok(cs.subrange(0, j), xs.subrange(0, j)),
    decreases cs.len(),
{
    if j < cs.len() {
        assert(cs.drop_last() =~= cs.subrange(0, cs.len() - 1));
        assert(xs.drop_last() =~= xs.subrange(0, xs.len() - 1));
        lemma_dot_ok_prefix(cs.drop_last(), xs.drop_last(), j);
        assert(cs.drop_last().subrange(0, j) =~= cs.subrange(0, j));
        assert(xs.drop_last().subrange(0, j) =~= xs.subrange(0, j));
    } else {
        assert(cs.subrange(0, j) =~= cs);
        assert(xs.subrange(0, j) =~= xs);
    }
}

/// A check that came back true means every row is satisfied.
pub proof fn lemma_eval_rows_true(rows: Seq<RowS>, xs: Seq<Frac>)
    requires
        eval_rows(rows, xs) == Some(true),
    ensures
        forall|i: int|
            0 <= i < rows.len() ==> satisfies((#[trigger] rows[i]).coeffs, rows[i].constant, xs),
    decreases rows.len(),
{
    if rows.len() > 0 {
        lemma_eval_rows_true(rows.drop_first(), xs);
        assert(forall|i: int| 1 <= i < rows.len() ==> rows.drop_first()[i - 1] == rows[i]);
    }
}

pub proof fn lemma_pivot_in_range(rows: Seq<RowS>, k: int, i: int)
    requires
        k < i,
    ensures
        k <= pivot_in(rows, k, i) < i,
    decreases i - k,
{
    if i > k + 1 {
        lemma_pivot_in_range(rows, k, i - 1);
    }
}

/// The chosen pivot has the largest magnitude among the candidates.
pub proof fn lemma_pivot_in_max(rows: Seq<RowS>, k: int, i: int)
    requires
        0 <= k < i <= rows.len(),
        forall|t: int| k <= t < i ==> (#[trigger] rows[t].coeffs[k]).d > 0,
    ensures
        forall|t: int|
            k <= t < i ==> !crate::rat::frac_abs_gt(
                #[trigger] rows[t].coeffs[k],
                rows[pivot_in(rows, k, i)].coeffs[k],
            ),
    decreases i - k,
{
    lemma_pivot_in_range(rows, k, i);
    if i > k + 1 {
        lemma_pivot_in_max(rows, k, i - 1);
        lemma_pivot_in_range(rows, k, i - 1);
        let p = pivot_in(rows, k, i - 1);
        let q = pivot_in(rows, k, i);
        if crate::rat::frac_abs_gt(rows[i - 1].coeffs[k], rows[p].coeffs[k]) {
            assert forall|t: int| k <= t < i implies !crate::rat::frac_abs_gt(
                #[trigger] rows[t].coeffs[k],
                rows[q].coeffs[k],
            ) by {
                if t < i - 1 {
                    lemma_abs_le_trans(rows[t].coeffs[k], rows[p].coeffs[k], rows[i - 1].coeffs[k]);
                }
            }
        }
    }
}

/// A zero pivot means every candidate in the column is zero: the singular
/// condition of the step.
pub proof fn lemma_singular_column(rows: Seq<RowS>, k: int, n: int)
    requires
        0 <= k < n <= rows.len(),
        forall|t: int| k <= t < n ==> (#[trigger] rows[t].coeffs[k]).d > 0,
        rows[pivot_in(rows, k, n)].coeffs[k].n == 0,
    ensures
        forall|t: int| k <= t < n ==> (#[trigger] rows[t].coeffs[k]).n == 0,
{
    lemma_pivot_in_range(rows, k, n);
    lemma_pivot_in_max(rows, k, n);
    assert forall|t: int| k <= t < n implies (#[trigger] rows[t].coeffs[k]).n == 0 by {
        lemma_abs_zero(rows[t].coeffs[k], rows[pivot_in(rows, k, n)].coeffs[k]);
    }
}

impl MatrixRow {
    /// Representation invariant: every scalar is in range.
    pub open spec fn wf(self) -> bool {
        &&& self.constant.wf()
        &&& forall|j: int|
            0 <= j < self.coefficients@.len() ==> (#[trigger] self.coefficients@[j]).wf()
    }

    /// A copy carrying the given slot as its position label, for recording
    /// a transformation: per the trace's semantics, labels name the slot the
    /// row occupies at the moment of recording.
    pub fn labeled(&self, slot: usize) -> (r: MatrixRow)
        ensures
            r.coefficients@ == self.coefficients@,
            r.constant == self.constant,
            r.occupying_row == slot,
            row_view(r) == at_slot(row_view(*self), slot as int),
    {
        MatrixRow {
            coefficients: clone_rats(&self.coefficients),
            constant: self.constant,
            occupying_row: slot,
        }
    }

    /// An exact copy (the derived clone carries no specification).
    pub fn duplicate(&self) -> (r: MatrixRow)
        ensures
            r.coefficients@ == self.coefficients@,
            r.constant == self.constant,
            r.occupying_row == self.occupying_row,
    {
        MatrixRow {
            coefficients: clone_rats(&self.coefficients),
            constant: self.constant,
            occupying_row: self.occupying_row,
        }
    }
}

impl Matrix {
    /// Representation invariant: distinct variable names, and every row in
    /// range and as wide as the variable ordering.
    pub open spec fn wf(self) -> bool {
        &&& forall|i: int, j: int|
            0 <= i < j < self.variables@.len() ==> self.variables@[i]@ != self.variables@[j]@
        &&& forall|i: int|
            0 <= i < self.rows@.len() ==> (#[trigger] self.rows@[i]).wf()
                && self.rows@[i].coefficients@.len() == self.variables@.len()
    }

    /// The variable names, as character sequences.
    pub open spec fn var_seq(self) -> Seq<Seq<char>> {
        self.variables@.map_values(|v: String| v@)
    }

    pub fn new() -> (m: Matrix)
        ensures
            m.wf(),
            m.variables@.len() == 0,
            m.rows@.len() == 0,
    {
        Matrix { variables: Vec::new(), rows: Vec::new() }
    }

    /// Pads every row shorter than the variable ordering with trailing
    /// zeros; longer rows are left as they are.
    #[verifier::loop_isolation(false)]
    pub fn adjust_rows(&mut self)
        ensures
            final(self).variables@ == old(self).variables@,
            final(self).rows@.len() == old(self).rows@.len(),
            forall|i: int|
                0 <= i < final(self).rows@.len() ==> {
                    let r0 = old(self).rows@[i];
                    let r1 = #[trigger] final(self).rows@[i];
                    &&& r1.constant == r0.constant
                    &&& r1.occupying_row == r0.occupying_row
                    &&& r1.coefficients@ == r0.coefficients@ + Seq::new(
                        if r0.coefficients@.len() >= final(self).variables@.len() {
                            0
                        } else {
                            (final(self).variables@.len() - r0.coefficients@.len()) as nat
                        },
                        |t: int| rat_zero_val(),
                    )
                },
    {
        let n = self.variables.len();
        let mut i: usize = 0;
        while i < self.rows.len()
            invariant
                i <= self.rows@.len(),
                self.variables@ == old(self).variables@,
                n == self.variables@.len(),
                self.rows@.len() == old(self).rows@.len(),
                forall|t: int| i <= t < self.rows@.len() ==> self.rows@[t] == old(self).rows@[t],
                forall|t: int|
                    0 <= t < i ==> {
                        let r0 = old(self).rows@[t];
                        let r1 = #[trigger] self.rows@[t];
                        &&& r1.constant == r0.constant
                        &&& r1.occupying_row == r0.occupying_row
                        &&& r1.coefficients@ == r0.coefficients@ + Seq::new(
                            if r0.coefficients@.len() >= n {
                                0
                            } else {
                                (n - r0.coefficients@.len()) as nat
                            },
                            |u: int| rat_zero_val(),
                        )
                    },
            decreases self.rows@.len() - i,
        {
            let clen = self.rows[i].coefficients.len();
            if clen < n {
                let ghost orig = self.rows@[i as int].coefficients@;
                let mut nc = clone_rats(&self.rows[i].coefficients);
                while nc.len() < n
                    invariant
                        clen <= nc@.len() <= n,
                        clen == orig.len(),
                        clen < n,
                        nc@ == orig + Seq::new((nc@.len() - clen) as nat, |u: int| rat_zero_val()),
                    decreases n - nc@.len(),
                {
                    nc.push(Rat::zero());
                    proof {
                        assert(nc@ =~= orig + Seq::new(
                            (nc@.len() - clen) as nat,
                            |u: int| rat_zero_val(),
                        ));
                    }
                }
                let nr = MatrixRow {
                    coefficients: nc,
                    constant: self.rows[i].constant,
                    occupying_row: self.rows[i].occupying_row,
                };
                self.rows[i] = nr;
            } else {
                proof {
                    assert(self.rows@[i as int].coefficients@ =~= self.rows@[
                        i as int
                    ].coefficients@ + Seq::new(0, |u: int| rat_zero_val()));
                }
            }
            i = i + 1;
        }
    }

    /// Appends one normalized equation as a new row.
    ///
    /// Variables already known keep their column; variables new to the
    /// system are appended to the ordering, and every earlier row is
    /// zero-padded to the new width. The new row holds, for each variable of
    /// the final ordering, the equation's coefficient for it (zero when the
    /// equation omits it); its constant is the equation's constant and its
    /// position is its insertion index.
    #[verifier::loop_isolation(false)]
    pub fn add_equation(&mut self, equation: Equation)
        requires
            old(self).wf(),
            equation.wf(),
        ensures
            final(self).wf(),
            final(self).var_seq() == old(self).var_seq() + missing_vars(
                equation.var_seq(),
                old(self).var_seq(),
            ),
            final(self).rows@.len() == old(self).rows@.len() + 1,
            forall|i: int|
                0 <= i < old(self).rows@.len() ==> {
                    let r0 = old(self).rows@[i];
                    let r1 = #[trigger] final(self).rows@[i];
                    &&& r1.constant == r0.constant
                    &&& r1.occupying_row == r0.occupying_row
                    &&& r1.coefficients@ == r0.coefficients@ + Seq::new(
                        (final(self).variables@.len() - r0.coefficients@.len()) as nat,
                        |t: int| rat_zero_val(),
                    )
                },
            ({
                let nr = final(self).rows@.last();
                &&& nr.occupying_row == old(self).rows@.len()
                &&& nr.constant == equation.constant
                &&& nr.coefficients@.len() == final(self).variables@.len()
                &&& forall|j: int|
                    0 <= j < nr.coefficients@.len() ==> (#[trigger] nr.coefficients@[j])@
                        == coeff_of(
                        equation.var_seq(),
                        equation.coeff_seq(),
                        final(self).var_seq()[j],
                    )
            }),
    {
        let ghost old_vars = self.var_seq();
        let ghost eqv = equation.var_seq();
        let mut row_coeffs: Vec<Rat> = Vec::new();
        let mut j: usize = 0;
        while j < self.variables.len()
            invariant
                j <= self.variables@.len(),
                row_coeffs@.len() == j,
                forall|t: int|
                    0 <= t < j ==> ((#[trigger] row_coeffs@[t])@ == coeff_of(
                        eqv,
                        equation.coeff_seq(),
                        old_vars[t],
                    ) && row_coeffs@[t].wf()),
            decreases self.variables@.len() - j,
        {
            proof {
                assert(old_vars[j as int] == self.variables@[j as int]@);
            }
            match find_var(&equation.variables, &self.variables[j]) {
                Some(k) => {
                    proof {
                        assert(eqv[k as int] == old_vars[j as int]);
                        assert(has_var(eqv, old_vars[j as int]));
                        let kk = var_index(eqv, old_vars[j as int]);
                        assert(eqv[kk] == old_vars[j as int]);
                        if kk != k as int {
                            assert(false);
                        }
                        assert(equation.coeff_seq()[k as int] == equation.coefficients@[k as int]@);
                    }
                    row_coeffs.push(equation.coefficients[k]);
                },
                None => {
                    proof {
                        assert(!has_var(eqv, old_vars[j as int])) by {
                            if has_var(eqv, old_vars[j as int]) {
                                let kk = choose|kk: int|
                                    0 <= kk < eqv.len() && eqv[kk] == old_vars[j as int];
                                assert(equation.variables@[kk]@ == old_vars[j as int]);
                            }
                        }
                    }
                    row_coeffs.push(Rat::zero());
                },
            }
            j = j + 1;
        }
        let mut k: usize = 0;
        while k < equation.variables.len()
            invariant
                k <= equation.variables@.len(),
                self.rows@ == old(self).rows@,
                forall|a: int, b: int|
                    0 <= a < b < self.variables@.len() ==> self.variables@[a]@
                        != self.variables@[b]@,
                self.var_seq() == old_vars + missing_vars(eqv.subrange(0, k as int), old_vars),
                row_coeffs@.len() == self.variables@.len(),
                forall|t: int|
                    0 <= t < row_coeffs@.len() ==> ((#[trigger] row_coeffs@[t])@ == coeff_of(
                        eqv,
                        equation.coeff_seq(),
                        self.var_seq()[t],
                    ) && row_coeffs@[t].wf()),
            decreases equation.variables@.len() - k,
        {
            proof {
                assert(eqv.subrange(0, (k + 1) as int).drop_last() =~= eqv.subrange(0, k as int));
                assert(eqv.subrange(0, (k + 1) as int).last() == eqv[k as int]);
                assert(eqv[k as int] == equation.variables@[k as int]@);
            }
            let present = find_var(&self.variables, &equation.variables[k]);
            proof {
                let v = eqv[k as int];
                match present {
                    Some(idx) => {
                        assert(self.variables@[idx as int]@ == v);
                        assert(self.var_seq()[idx as int] == v);
                        assert(has_var(self.var_seq(), v));
                        assert(has_var(old_vars, v)) by {
                            if !has_var(old_vars, v) {
                                let t = choose|t: int|
                                    0 <= t < self.var_seq().len() && self.var_seq()[t] == v;
                                if t < old_vars.len() {
                                    assert(old_vars[t] == v);
                                } else {
                                    let miss = missing_vars(eqv.subrange(0, k as int), old_vars);
                                    assert(miss[t - old_vars.len()] == v);
                                    assert(has_var(miss, v));
                                    lemma_missing_subset(eqv.subrange(0, k as int), old_vars, v);
                                    let u = choose|u: int|
                                        0 <= u < eqv.subrange(0, k as int).len() && eqv.subrange(
                                            0,
                                            k as int,
                                        )[u] == v;
                                    assert(equation.variables@[u]@ == v);
                                    assert(equation.variables@[k as int]@ == v);
                                }
                            }
                        }
                        assert(self.var_seq() =~= old_vars + missing_vars(
                            eqv.subrange(0, (k + 1) as int),
                            old_vars,
                        ));
                    },
                    None => {
                        assert(!has_var(self.var_seq(), v)) by {
                            if has_var(self.var_seq(), v) {
                                let t = choose|t: int|
                                    0 <= t < self.var_seq().len() && self.var_seq()[t] == v;
                                assert(self.variables@[t]@ == v);
                            }
                        }
                        assert(!has_var(old_vars, v)) by {
                            if has_var(old_vars, v) {
                                let t = choose|t: int| 0 <= t < old_vars.len() && old_vars[t] == v;
                                assert(self.var_seq()[t] == v);
                            }
                        }
                    },
                }
            }
            match present {
                Some(_) => {},
                None => {
                    let ghost pre_vars = self.var_seq();
                    self.variables.push(equation.variables[k].clone());
                    row_coeffs.push(equation.coefficients[k]);
                    proof {
                        let v = eqv[k as int];
                        assert(self.var_seq() =~= pre_vars.push(v));
                        assert(self.var_seq() =~= old_vars + missing_vars(
                            eqv.subrange(0, (k + 1) as int),
                            old_vars,
                        ));
                        assert(has_var(eqv, v));
                        let kk = var_index(eqv, v);
                        assert(eqv[kk] == v);
                        if kk != k as int {
                            assert(false);
                        }
                        assert(equation.coeff_seq()[k as int] == equation.coefficients@[k as int]@);
                        assert(forall|t: int|
                            0 <= t < pre_vars.len() ==> self.var_seq()[t] == pre_vars[t]);
                    }
                },
            }
            k = k + 1;
        }
        proof {
            assert(eqv.subrange(0, k as int) =~= eqv);
        }
        let constant = equation.constant;
        let ghost vars_done = self.var_seq();
        self.adjust_rows();
        proof {
            assert(self.var_seq() == vars_done);
        }
        let position = self.rows.len();
        let row = MatrixRow {
            coefficients: row_coeffs,
            constant: constant,
            occupying_row: position,
        };
        self.rows.push(row);
    }

    /// Solves the system by Gaussian elimination with partial pivoting,
    /// returning the recorded transformations and the solved working copy;
    /// the caller's system is untouched. The result is pinned by the
    /// specification-level mirror `spec_solve`: success is returned exactly
    /// when the mirror run completes in range and its solution re-substitutes
    /// exactly into every original row; the singular error carries exactly
    /// the mirror's failing step; the out-of-range error comes exactly when
    /// an intermediate value (of elimination or of the final re-substitution
    /// check) leaves the representable range; and on success the solved rows
    /// and the recorded trace equal the mirror's, operation by operation,
    /// with the row labels captured at record time.
    #[verifier::loop_isolation(false)]
    #[verifier::rlimit(100)]
    pub fn gaussian_elimination(&mut self) -> (r: Result<
        (Vec<Transformation>, Matrix),
        SolveError,
    >)
        requires
            old(self).wf(),
        ensures
            *final(self) == *old(self),
            (r == Err::<(Vec<Transformation>, Matrix), SolveError>(SolveError::NonSquare)) <==> old(
                self,
            ).rows@.len() != old(self).variables@.len(),
            r matches Err(SolveError::Singular { step }) ==> step < old(self).rows@.len(),
            r matches Ok(p) ==> (forall|i: int|
                0 <= i < p.0@.len() ==> compound_shape(#[trigger] p.0@[i])),
            old(self).rows@.len() == old(self).variables@.len() ==> ({
                let st = spec_solve(*old(self));
                let ev = eval_rows(rows_view(old(self).rows@), mirror_solution(st));
                &&& (match r {
                    Err(SolveError::Singular { step }) => st.sing == Some(step as int),
                    _ => st.sing is None,
                })
                &&& ((r == Err::<(Vec<Transformation>, Matrix), SolveError>(
                    SolveError::OutOfRange,
                )) <==> (st.sing is None && (st.big || ev is None)))
                &&& ((r == Err::<(Vec<Transformation>, Matrix), SolveError>(SolveError::Residual))
                    <==> (st.sing is None && !st.big && ev == Some(false)))
                &&& ((r is Ok) <==> (st.sing is None && !st.big && ev == Some(true)))
                &&& (r matches Ok(p) ==> {
                    &&& p.1.wf()
                    &&& p.1.variables@ == old(self).variables@
                    &&& rows_view(p.1.rows@) == st.rows
                    &&& p.0@.len() == st.trace.len()
                    &&& forall|i: int|
                        0 <= i < st.trace.len() ==> tf_matches(#[trigger] p.0@[i], st.trace[i])
                    &&& forall|i: int|
                        0 <= i < p.1.rows@.len() ==> (#[trigger] p.1.rows@[
                            i
                        ]).coefficients@[i]@ == frac_int(1)
                    &&& forall|i: int|
                        0 <= i < old(self).rows@.len() ==> satisfies(
                            (#[trigger] rows_view(old(self).rows@)[i]).coeffs,
                            rows_view(old(self).rows@)[i].constant,
                            mirror_solution(st),
                        )
                })
            }),
    {
        let n = self.rows.len();
        if n != self.variables.len() {
            return Err(SolveError::NonSquare);
        }
        let ghost st0 = SolveState {
            rows: rows_view(self.rows@),
            trace: Seq::<TfS>::empty(),
            sing: None,
            big: false,
        };
        proof {
            assert(spec_solve(*old(self)) == solve_from(st0, n as int));
        }
        let mut rows: Vec<MatrixRow> = Vec::new();
        let mut i0: usize = 0;
        while i0 < n
            invariant
                i0 <= n,
                rows@.len() == i0,
                rows_view(rows@) == rows_view(self.rows@).subrange(0, i0 as int),
                forall|t: int|
                    0 <= t < i0 ==> ((#[trigger] rows@[t]).wf() && rows@[t].coefficients@.len()
                        == n),
            decreases n - i0,
        {
            rows.push(self.rows[i0].duplicate());
            proof {
                assert(rows_view(rows@) =~= rows_view(self.rows@).subrange(0, (i0 + 1) as int));
            }
            i0 = i0 + 1;
        }
        proof {
            assert(rows_view(self.rows@).subrange(0, n as int) =~= rows_view(self.rows@));
            assert(rows_view(rows@) == st0.rows);
        }
        let mut trace: Vec<Transformation> = Vec::new();
        let mut k: usize = 0;
        while k < n
            invariant
                k <= n,
                forall|t: int| 0 <= t < trace@.len() ==> compound_shape(#[trigger] trace@[t]),
                rows@.len() == n,
                forall|t: int|
                    0 <= t < n ==> ((#[trigger] rows@[t]).wf() && rows@[t].coefficients@.len()
                        == n),
                ({
                    let cur = forward_upto(st0, k as int, n as int);
                    &&& !solve_failed(cur)
                    &&& cur.rows == rows_view(rows@)
                    &&& cur.trace.len() == trace@.len()
                    &&& forall|t: int|
                        0 <= t < trace@.len() ==> tf_matches(#[trigger] trace@[t], cur.trace[t])
                }),
            decreases n - k,
        {
            let ghost cur = forward_upto(st0, k as int, n as int);
            let ghost st_next = forward_upto(st0, (k + 1) as int, n as int);
            proof {
                assert(st_next == forward_step(cur, k as int, n as int));
            }
            let (i_max, v_max) = find_pivot(&rows, k);
            proof {
                assert(i_max as int == pivot_in(cur.rows, k as int, n as int));
                assert(cur.rows[i_max as int].coeffs[k as int] == v_max@);
            }
            if v_max.is_zero() {
                proof {
                    assert(st_next == SolveState { sing: Some(k as int), ..cur });
                    lemma_fail_from_forward(st0, (k + 1) as int, n as int);
                    assert(spec_solve(*old(self)).sing == Some(k as int));
                }
                return Err(SolveError::Singular { step: k });
            }
            let ghost st1 = if i_max != k {
                SolveState {
                    rows: cur.rows.update(k as int, cur.rows[i_max as int]).update(
                        i_max as int,
                        cur.rows[k as int],
                    ),
                    trace: cur.trace.push(
                        TfS::SwapT {
                            a: at_slot(cur.rows[k as int], k as int),
                            b: at_slot(cur.rows[i_max as int], i_max as int),
                        },
                    ),
                    ..cur
                }
            } else {
                cur
            };
            if i_max != k {
                trace.push(Transformation::Swap(rows[k].labeled(k), rows[i_max].labeled(i_max)));
                let high = rows[i_max].duplicate();
                let low = rows[k].duplicate();
                rows[k] = high;
                rows[i_max] = low;
                proof {
                    assert(rows_view(rows@) =~= st1.rows);
                    assert(tf_matches(trace@.last(), st1.trace.last()));
                }
            }
            proof {
                assert(st1.rows == rows_view(rows@));
                assert(st1.trace.len() == trace@.len());
                assert(forall|t: int|
                    0 <= t < trace@.len() ==> tf_matches(#[trigger] trace@[t], st1.trace[t]));
                assert(st_next == elim_upto(st1, k as int, n as int, n as int));
            }
            let pivot = rows[k].coefficients[k];
            proof {
                assert(pivot == v_max);
                assert(rows_view(rows@)[k as int].coeffs[k as int] == pivot@);
            }
            let mut i2 = k + 1;
            while i2 < n
                invariant
                    k < n,
                    k + 1 <= i2 <= n,
                    forall|t: int| 0 <= t < trace@.len() ==> compound_shape(#[trigger] trace@[t]),
                    rows@.len() == n,
                    forall|t: int|
                        0 <= t < n ==> ((#[trigger] rows@[t]).wf() && rows@[t].coefficients@.len()
                            == n),
                    rows@[k as int].coefficients@[k as int] == pivot,
                    ({
                        let mid = elim_upto(st1, k as int, i2 as int, n as int);
                        &&& !solve_failed(mid)
                        &&& mid.rows == rows_view(rows@)
                        &&& mid.trace.len() == trace@.len()
                        &&& forall|t: int|
                            0 <= t < trace@.len() ==> tf_matches(#[trigger] trace@[t], mid.trace[t])
                    }),
                decreases n - i2,
            {
                let ghost mid = elim_upto(st1, k as int, i2 as int, n as int);
                let ghost mid_next = elim_upto(st1, k as int, (i2 + 1) as int, n as int);
                let ghost rowk = mid.rows[k as int];
                let ghost rowi = mid.rows[i2 as int];
                proof {
                    assert(mid_next == elim_one(mid, k as int, i2 as int, n as int));
                    assert(rowk.coeffs[k as int] == pivot@);
                    assert(rowi.coeffs[k as int] == rows@[i2 as int].coefficients@[k as int]@);
                }
                let f = match rows[i2].coefficients[k].checked_div(&pivot) {
                    Some(f) => f,
                    None => {
                        proof {
                            assert(!elim_row_ok(rowi, rowk, k as int, n as int));
                            lemma_elim_sticky(st1, k as int, (i2 + 1) as int, n as int, n as int);
                            lemma_fail_from_forward(st0, (k + 1) as int, n as int);
                            assert(spec_solve(*old(self)) == mid_next);
                        }
                        return Err(SolveError::OutOfRange);
                    },
                };
                let ghost ff = elim_factor(rowi, rowk, k as int);
                proof {
                    assert(f@ == ff);
                }
                let steps = vec![
                    Transformation::Multiply(rows[k].labeled(k), f),
                    Transformation::Add(rows[i2].labeled(i2), rows[k].labeled(k)),
                ];
                trace.push(Transformation::Compounded(steps, rows[i2].labeled(i2)));
                let mut nc: Vec<Rat> = Vec::new();
                let mut j: usize = 0;
                while j < n
                    invariant
                        j <= n,
                        nc@.len() == j,
                        forall|t: int| 0 <= t < j ==> (#[trigger] nc@[t]).wf(),
                        forall|t: int|
                            0 <= t < j ==> (#[trigger] nc@[t])@ == elim_coeff(
                                rowi,
                                rowk,
                                k as int,
                                t,
                            ),
                        forall|t: int|
                            k < t < j ==> frac_fits(#[trigger] frac_mul(rowk.coeffs[t], ff))
                                && frac_fits(
                                frac_sub(rowi.coeffs[t], frac_mul(rowk.coeffs[t], ff)),
                            ),
                    decreases n - j,
                {
                    proof {
                        assert(rows@[k as int].coefficients@[j as int]@ == rowk.coeffs[j as int]);
                        assert(rows@[i2 as int].coefficients@[j as int]@ == rowi.coeffs[j as int]);
                    }
                    if j == k {
                        nc.push(Rat::zero());
                    } else if j > k {
                        let p = match rows[k].coefficients[j].checked_mul(&f) {
                            Some(p) => p,
                            None => {
                                proof {
                                    assert(!frac_fits(frac_mul(rowk.coeffs[j as int], ff)));
                                    assert(!elim_row_ok(rowi, rowk, k as int, n as int));
                                    lemma_elim_sticky(
                                        st1,
                                        k as int,
                                        (i2 + 1) as int,
                                        n as int,
                                        n as int,
                                    );
                                    lemma_fail_from_forward(st0, (k + 1) as int, n as int);
                                    assert(spec_solve(*old(self)) == mid_next);
                                }
                                return Err(SolveError::OutOfRange);
                            },
                        };
                        let v = match rows[i2].coefficients[j].checked_sub(&p) {
                            Some(v) => v,
                            None => {
                                proof {
                                    assert(!frac_fits(
                                        frac_sub(
                                            rowi.coeffs[j as int],
                                            frac_mul(rowk.coeffs[j as int], ff),
                                        ),
                                    ));
                                    assert(!elim_row_ok(rowi, rowk, k as int, n as int));
                                    lemma_elim_sticky(
                                        st1,
                                        k as int,
                                        (i2 + 1) as int,
                                        n as int,
                                        n as int,
                                    );
                                    lemma_fail_from_forward(st0, (k + 1) as int, n as int);
                                    assert(spec_solve(*old(self)) == mid_next);
                                }
                                return Err(SolveError::OutOfRange);
                            },
                        };
                        nc.push(v);
                    } else {
                        nc.push(rows[i2].coefficients[j]);
                    }
                    j = j + 1;
                }
                proof {
                    assert(rows@[k as int].constant@ == rowk.constant);
                    assert(rows@[i2 as int].constant@ == rowi.constant);
                }
                let p = match rows[k].constant.checked_mul(&f) {
                    Some(p) => p,
                    None => {
                        proof {
                            assert(!elim_row_ok(rowi, rowk, k as int, n as int));
                            lemma_elim_sticky(st1, k as int, (i2 + 1) as int, n as int, n as int);
                            lemma_fail_from_forward(st0, (k + 1) as int, n as int);
                            assert(spec_solve(*old(self)) == mid_next);
                        }
                        return Err(SolveError::OutOfRange);
                    },
                };
                let ncst = match rows[i2].constant.checked_sub(&p) {
                    Some(v) => v,
                    None => {
                        proof {
                            assert(!elim_row_ok(rowi, rowk, k as int, n as int));
                            lemma_elim_sticky(st1, k as int, (i2 + 1) as int, n as int, n as int);
                            lemma_fail_from_forward(st0, (k + 1) as int, n as int);
                            assert(spec_solve(*old(self)) == mid_next);
                        }
                        return Err(SolveError::OutOfRange);
                    },
                };
                let pos = rows[i2].occupying_row;
                let nr = MatrixRow { coefficients: nc, constant: ncst, occupying_row: pos };
                proof {
                    assert(elim_row_ok(rowi, rowk, k as int, n as int));
                    assert(row_view(nr).coeffs =~= elim_row_val(rowi, rowk, k as int, n as int)
                        .coeffs);
                    assert(row_view(nr) == elim_row_val(rowi, rowk, k as int, n as int));
                    assert(tf_matches(
                        trace@.last(),
                        TfS::CompT {
                            pivot: at_slot(rowk, k as int),
                            f: ff,
                            target: at_slot(rowi, i2 as int),
                        },
                    ));
                }
                rows[i2] = nr;
                proof {
                    assert(rows_view(rows@) =~= mid.rows.update(
                        i2 as int,
                        elim_row_val(rowi, rowk, k as int, n as int),
                    ));
                    assert(mid_next.rows == rows_view(rows@));
                    assert(forall|t: int|
                        0 <= t < trace@.len() ==> tf_matches(
                            #[trigger] trace@[t],
                            mid_next.trace[t],
                        ));
                }
                i2 = i2 + 1;
            }
            proof {
                assert(forward_upto(st0, (k + 1) as int, n as int) == elim_upto(
                    st1,
                    k as int,
                    n as int,
                    n as int,
                ));
            }
            k = k + 1;
        }
        let ghost fwd = forward_upto(st0, n as int, n as int);
        let mut bi = n;
        while bi > 0
            invariant
                bi <= n,
                forall|t: int| 0 <= t < trace@.len() ==> compound_shape(#[trigger] trace@[t]),
                rows@.len() == n,
                forall|t: int|
                    0 <= t < n ==> ((#[trigger] rows@[t]).wf() && rows@[t].coefficients@.len()
                        == n),
                forall|t: int|
                    bi <= t < n ==> (#[trigger] rows@[t]).coefficients@[t]@ == frac_int(1),
                ({
                    let cur = backward_from(fwd, bi as int, n as int);
                    &&& !solve_failed(cur)
                    &&& cur.rows == rows_view(rows@)
                    &&& cur.trace.len() == trace@.len()
                    &&& forall|t: int|
                        0 <= t < trace@.len() ==> tf_matches(#[trigger] trace@[t], cur.trace[t])
                }),
            decreases bi,
        {
            let i = bi - 1;
            let ghost cur = backward_from(fwd, bi as int, n as int);
            let ghost st_next = backward_from(fwd, i as int, n as int);
            proof {
                assert(st_next == backward_step(cur, i as int, n as int));
            }
            let mut acc = rows[i].constant;
            proof {
                assert(acc@ == bsub_acc(cur.rows, i as int, (i + 1) as int));
            }
            let mut j = i + 1;
            while j < n
                invariant
                    i < n,
                    i + 1 <= j <= n,
                    acc.wf(),
                    bsub_ok(cur.rows, i as int, j as int),
                    acc@ == bsub_acc(cur.rows, i as int, j as int),
                decreases n - j,
            {
                proof {
                    assert(rows@[i as int].coefficients@[j as int]@ == cur.rows[i as int].coeffs[
                        j as int
                    ]);
                    assert(rows@[j as int].constant@ == cur.rows[j as int].constant);
                }
                let p = match rows[i].coefficients[j].checked_mul(&rows[j].constant) {
                    Some(p) => p,
                    None => {
                        proof {
                            assert(!bsub_ok(cur.rows, i as int, (j + 1) as int));
                            lemma_bsub_ok_mono(cur.rows, i as int, (j + 1) as int, n as int);
                            lemma_fail_from_backward(st0, i as int, n as int);
                            assert(spec_solve(*old(self)) == st_next);
                        }
                        return Err(SolveError::OutOfRange);
                    },
                };
                acc = match acc.checked_sub(&p) {
                    Some(v) => v,
                    None => {
                        proof {
                            assert(!bsub_ok(cur.rows, i as int, (j + 1) as int));
                            lemma_bsub_ok_mono(cur.rows, i as int, (j + 1) as int, n as int);
                            lemma_fail_from_backward(st0, i as int, n as int);
                            assert(spec_solve(*old(self)) == st_next);
                        }
                        return Err(SolveError::OutOfRange);
                    },
                };
                j = j + 1;
            }
            let diag = rows[i].coefficients[i];
            proof {
                assert(diag@ == cur.rows[i as int].coeffs[i as int]);
            }
            if diag.is_zero() {
                proof {
                    lemma_fail_from_backward(st0, i as int, n as int);
                    assert(spec_solve(*old(self)).sing == Some(i as int));
                }
                return Err(SolveError::Singular { step: i });
            }
            let inv = match Rat::one().checked_div(&diag) {
                Some(v) => v,
                None => {
                    proof {
                        lemma_fail_from_backward(st0, i as int, n as int);
                        assert(spec_solve(*old(self)) == st_next);
                    }
                    return Err(SolveError::OutOfRange);
                },
            };
            trace.push(Transformation::Multiply(rows[i].labeled(i), inv));
            let f = match acc.checked_div(&diag) {
                Some(v) => v,
                None => {
                    proof {
                        lemma_fail_from_backward(st0, i as int, n as int);
                        assert(spec_solve(*old(self)) == st_next);
                    }
                    return Err(SolveError::OutOfRange);
                },
            };
            let mut nc = clone_rats(&rows[i].coefficients);
            nc[i] = Rat::one();
            let pos = rows[i].occupying_row;
            let nr = MatrixRow { coefficients: nc, constant: f, occupying_row: pos };
            proof {
                assert(row_view(nr).coeffs =~= cur.rows[i as int].coeffs.update(
                    i as int,
                    frac_int(1),
                ));
                assert(tf_matches(
                    trace@.last(),
                    TfS::MulT {
                        row: at_slot(cur.rows[i as int], i as int),
                        f: frac_div(frac_int(1), cur.rows[i as int].coeffs[i as int]),
                    },
                ));
            }
            rows[i] = nr;
            proof {
                assert(rows_view(rows@) =~= st_next.rows);
                assert(forall|t: int|
                    0 <= t < trace@.len() ==> tf_matches(#[trigger] trace@[t], st_next.trace[t]));
            }
            bi = i;
        }
        let ghost fin = backward_from(fwd, 0, n as int);
        proof {
            assert(spec_solve(*old(self)) == fin);
        }
        let solved = Matrix { variables: clone_strings(&self.variables), rows };
        let mut xs: Vec<Rat> = Vec::new();
        let mut t: usize = 0;
        while t < n
            invariant
                t <= n,
                xs@.len() == t,
                forall|u: int| 0 <= u < t ==> xs@[u] == solved.rows@[u].constant,
            decreases n - t,
        {
            xs.push(solved.rows[t].constant);
            t = t + 1;
        }
        proof {
            assert(frac_views(xs@) =~= mirror_solution(fin));
            assert(forall|u: int| 0 <= u < xs@.len() ==> (#[trigger] xs@[u]).wf());
        }
        let r_check = check_solution(self, &xs);
        proof {
            assert(rows_view(self.rows@) == rows_view(old(self).rows@));
        }
        match r_check {
            None => Err(SolveError::OutOfRange),
            Some(false) => Err(SolveError::Residual),
            Some(true) => {
                proof {
                    assert(rows_view(solved.rows@) == fin.rows);
                    lemma_eval_rows_true(rows_view(old(self).rows@), mirror_solution(fin));
                }
                Ok((trace, solved))
            },
        }
    }
}

/// Evaluates each row of `m` against the candidate values, exactly:
/// the result is the row-by-row check `eval_rows` — `None` at the first row
/// whose evaluation leaves the representable range, `Some(false)` at the
/// first unsatisfied row, `Some(true)` when every row is satisfied.
#[verifier::loop_isolation(false)]
pub fn check_solution(m: &Matrix, xs: &Vec<Rat>) -> (r: Option<bool>)
    requires
        m.wf(),
        xs@.len() == m.variables@.len(),
        forall|j: int| 0 <= j < xs@.len() ==> (#[trigger] xs@[j]).wf(),
    ensures
        r == eval_rows(rows_view(m.rows@), frac_views(xs@)),
        r == Some(true) ==> forall|i: int|
            0 <= i < m.rows@.len() ==> satisfies(
                (#[trigger] rows_view(m.rows@)[i]).coeffs,
                rows_view(m.rows@)[i].constant,
                frac_views(xs@),
            ),
{
    let ghost rv = rows_view(m.rows@);
    let ghost fxs = frac_views(xs@);
    let nrows = m.rows.len();
    proof {
        assert(rv.subrange(0, nrows as int) =~= rv);
    }
    let mut i: usize = 0;
    while i < nrows
        invariant
            i <= nrows,
            nrows == m.rows@.len(),
            eval_rows(rv, fxs) == eval_rows(rv.subrange(i as int, nrows as int), fxs),
            forall|t: int|
                0 <= t < i ==> satisfies((#[trigger] rv[t]).coeffs, rv[t].constant, fxs),
        decreases nrows - i,
    {
        let ghost cviews = rv[i as int].coeffs;
        proof {
            assert(cviews.len() == fxs.len());
        }
        let mut acc = Rat::zero();
        let mut j: usize = 0;
        while j < xs.len()
            invariant
                j <= xs@.len(),
                i < m.rows@.len(),
                acc.wf(),
                dot_ok(cviews.subrange(0, j as int), fxs.subrange(0, j as int)),
                acc@ == dot(cviews.subrange(0, j as int), fxs.subrange(0, j as int)),
            decreases xs@.len() - j,
        {
            proof {
                assert(cviews.subrange(0, (j + 1) as int).drop_last() =~= cviews.subrange(
                    0,
                    j as int,
                ));
                assert(fxs.subrange(0, (j + 1) as int).drop_last() =~= fxs.subrange(0, j as int));
                assert(cviews[j as int] == m.rows@[i as int].coefficients@[j as int]@);
                assert(fxs[j as int] == xs@[j as int]@);
            }
            let p = match m.rows[i].coefficients[j].checked_mul(&xs[j]) {
                Some(p) => p,
                None => {
                    proof {
                        assert(!dot_ok(cviews.subrange(0, (j + 1) as int), fxs.subrange(
                            0,
                            (j + 1) as int,
                        )));
                        if dot_ok(cviews, fxs) {
                            lemma_dot_ok_prefix(cviews, fxs, (j + 1) as int);
                        }
                        assert(eval_rows(rv.subrange(i as int, nrows as int), fxs) is None);
                    }
                    return None;
                },
            };
            acc = match acc.checked_add(&p) {
                Some(v) => v,
                None => {
                    proof {
                        assert(!dot_ok(cviews.subrange(0, (j + 1) as int), fxs.subrange(
                            0,
                            (j + 1) as int,
                        )));
                        if dot_ok(cviews, fxs) {
                            lemma_dot_ok_prefix(cviews, fxs, (j + 1) as int);
                        }
                        assert(eval_rows(rv.subrange(i as int, nrows as int), fxs) is None);
                    }
                    return None;
                },
            };
            j = j + 1;
        }
        proof {
            assert(cviews.subrange(0, j as int) =~= cviews);
            assert(fxs.subrange(0, j as int) =~= fxs);
        }
        let good = acc.eq_frac(&m.rows[i].constant);
        proof {
            assert(rv[i as int].constant == m.rows@[i as int].constant@);
            assert(rv.subrange(i as int, nrows as int)[0] == rv[i as int]);
        }
        if !good {
            proof {
                assert(eval_rows(rv.subrange(i as int, nrows as int), fxs) == Some(false));
            }
            return Some(false);
        }
        proof {
            assert(rv.subrange(i as int, nrows as int).drop_first() =~= rv.subrange(
                (i + 1) as int,
                nrows as int,
            ));
        }
        i = i + 1;
    }
    proof {
        assert(rv.subrange(i as int, nrows as int) =~= Seq::<RowS>::empty());
    }
    Some(true)
}

/// The display text of one transformation: the row labels are the positions
/// captured on the row copies at the time the transformation was recorded.
pub open spec fn render_tf(t: Transformation) -> Seq<char>
    decreases t,
{
    match t {
        Transformation::Multiply(row, c) => "L"@ + crate::render::dec_of_nat(
            row.occupying_row as nat,
        ) + " * "@ + crate::render::rat_text(c) + " -> L"@ + crate::render::dec_of_nat(
            row.occupying_row as nat,
        ),
        Transformation::Swap(r1, r2) => "L"@ + crate::render::dec_of_nat(r1.occupying_row as nat)
            + " <-> L"@ + crate::render::dec_of_nat(r2.occupying_row as nat),
        Transformation::Add(r1, r2) => "L"@ + crate::render::dec_of_nat(r1.occupying_row as nat)
            + " + L"@ + crate::render::dec_of_nat(r2.occupying_row as nat) + " -> L"@
            + crate::render::dec_of_nat(r1.occupying_row as nat),
        Transformation::Compounded(ts, row) => render_tf_list(ts@) + "L"@
            + crate::render::dec_of_nat(row.occupying_row as nat) + " -> L"@
            + crate::render::dec_of_nat(row.occupying_row as nat),
    }
}

/// Each inner step's text on its own line.
pub open spec fn render_tf_list(ts: Seq<Transformation>) -> Seq<char>
    decreases ts,
{
    if ts.len() == 0 {
        Seq::empty()
    } else {
        render_tf_list(ts.drop_last()) + render_tf(ts.last()) + seq!['\n']
    }
}

impl Transformation {
    /// Renders the transformation: its row operation in `L<row>` form; a
    /// compounded transformation renders each inner step on its own line,
    /// then a summary line for the row it mutates.
    #[verifier::loop_isolation(false)]
    pub fn to_string(&self) -> (s: String)
        ensures
            s@ == render_tf(*self),
        decreases *self,
    {
        match self {
            Transformation::Multiply(row, c) => {
                let mut out = String::from_str("L");
                let d = crate::render::dec_u64(row.occupying_row as u64);
                out.append(d.as_str());
                out.append(" * ");
                let ct = crate::render::rat_to_string(c);
                out.append(ct.as_str());
                out.append(" -> L");
                out.append(d.as_str());
                proof {
                    assert(out@ =~= render_tf(*self));
                }
                out
            },
            Transformation::Swap(r1, r2) => {
                let mut out = String::from_str("L");
                let d1 = crate::render::dec_u64(r1.occupying_row as u64);
                out.append(d1.as_str());
                out.append(" <-> L");
                let d2 = crate::render::dec_u64(r2.occupying_row as u64);
                out.append(d2.as_str());
                proof {
                    assert(out@ =~= render_tf(*self));
                }
                out
            },
            Transformation::Add(r1, r2) => {
                let mut out = String::from_str("L");
                let d1 = crate::render::dec_u64(r1.occupying_row as u64);
                out.append(d1.as_str());
                out.append(" + L");
                let d2 = crate::render::dec_u64(r2.occupying_row as u64);
                out.append(d2.as_str());
                out.append(" -> L");
                out.append(d1.as_str());
                proof {
                    assert(out@ =~= render_tf(*self));
                }
                out
            },
            Transformation::Compounded(ts, row) => {
                let mut out = String::new();
                let mut i: usize = 0;
                while i < ts.len()
                    invariant
                        i <= ts@.len(),
                        out@ == render_tf_list(ts@.subrange(0, i as int)),
                        *self == Transformation::Compounded(*ts, *row),
                    decreases *self, ts@.len() - i,
                {
                    proof {
                        assert(ts@.subrange(0, (i + 1) as int).drop_last() =~= ts@.subrange(
                            0,
                            i as int,
                        ));
                        assert(decreases_to!(*self => ts@[i as int]));
                    }
                    let line = ts[i].to_string();
                    out.append(line.as_str());
                    out.append("\n");
                    proof {
                        reveal_strlit("\n");
                        assert(out@ =~= render_tf_list(ts@.subrange(0, (i + 1) as int)));
                    }
                    i = i + 1;
                }
                proof {
                    assert(ts@.subrange(0, i as int) =~= ts@);
                }
                out.append("L");
                let d = crate::render::dec_u64(row.occupying_row as u64);
                out.append(d.as_str());
                out.append(" -> L");
                out.append(d.as_str());
                proof {
                    assert(out@ =~= render_tf(*self));
                }
                out
            },
        }
    }
}

/// The tabular display of a system: a header of the variable names and a
/// `K` column, then one line per row with each cell left-justified in a
/// field of width 10.
pub open spec fn render_header(vars: Seq<String>) -> Seq<char>
    decreases vars.len(),
{
    if vars.len() == 0 {
        Seq::empty()
    } else {
        render_header(vars.drop_last()) + crate::render::pad_text(vars.last()@)
    }
}

pub open spec fn render_cells(cs: Seq<Rat>) -> Seq<char>
    decreases cs.len(),
{
    if cs.len() == 0 {
        Seq::empty()
    } else {
        render_cells(cs.drop_last()) + crate::render::pad_text(
            crate::render::dec3_text(cs.last()@),
        )
    }
}

pub open spec fn render_row_line(r: MatrixRow) -> Seq<char> {
    render_cells(r.coefficients@) + crate::render::pad_text(
        crate::render::dec3_text(r.constant@),
    ) + seq!['\n']
}

pub open spec fn render_rows(rows: Seq<MatrixRow>) -> Seq<char>
    decreases rows.len(),
{
    if rows.len() == 0 {
        Seq::empty()
    } else {
        render_rows(rows.drop_last()) + render_row_line(rows.last())
    }
}

pub open spec fn render_matrix(m: Matrix) -> Seq<char> {
    render_header(m.variables@) + crate::render::pad_text("K"@) + seq!['\n'] + render_rows(
        m.rows@,
    )
}

impl Matrix {
    /// Renders the system as a table: variables and a `K` column, one line
    /// per row, each cell left-justified in a width-10 field. Cells show the
    /// values rounded to 3 decimal places for display only; the stored
    /// values are exact.
    #[verifier::loop_isolation(false)]
    pub fn to_string(&self) -> (s: String)
        requires
            self.wf(),
        ensures
            s@ == render_matrix(*self),
    {
        let mut s = String::new();
        let mut i: usize = 0;
        while i < self.variables.len()
            invariant
                i <= self.variables@.len(),
                s@ == render_header(self.variables@.subrange(0, i as int)),
            decreases self.variables@.len() - i,
        {
            proof {
                assert(self.variables@.subrange(0, (i + 1) as int).drop_last() =~= self.variables@
                    .subrange(0, i as int));
            }
            crate::render::pad_push(&mut s, self.variables[i].as_str());
            proof {
                assert(s@ =~= render_header(self.variables@.subrange(0, (i + 1) as int)));
            }
            i = i + 1;
        }
        proof {
            assert(self.variables@.subrange(0, i as int) =~= self.variables@);
        }
        crate::render::pad_push(&mut s, "K");
        let nl = String::from_str("\n");
        s.append(nl.as_str());
        proof {
            reveal_strlit("\n");
            assert(s@ =~= render_header(self.variables@) + crate::render::pad_text("K"@) + seq![
                '\n',
            ]);
        }
        let ghost head = s@;
        let mut r: usize = 0;
        while r < self.rows.len()
            invariant
                r <= self.rows@.len(),
                s@ == head + render_rows(self.rows@.subrange(0, r as int)),
            decreases self.rows@.len() - r,
        {
            proof {
                assert(self.rows@.subrange(0, (r + 1) as int).drop_last() =~= self.rows@.subrange(
                    0,
                    r as int,
                ));
            }
            let mut j: usize = 0;
            let ghost rowstart = s@;
            while j < self.rows[r].coefficients.len()
                invariant
                    r < self.rows@.len(),
                    j <= self.rows@[r as int].coefficients@.len(),
                    s@ == rowstart + render_cells(
                        self.rows@[r as int].coefficients@.subrange(0, j as int),
                    ),
                decreases self.rows@[r as int].coefficients@.len() - j,
            {
                proof {
                    assert(self.rows@[r as int].coefficients@.subrange(
                        0,
                        (j + 1) as int,
                    ).drop_last() =~= self.rows@[r as int].coefficients@.subrange(0, j as int));
                }
                let cell = crate::render::rat_round3_to_string(&self.rows[r].coefficients[j]);
                crate::render::pad_push(&mut s, cell.as_str());
                proof {
                    assert(s@ =~= rowstart + render_cells(
                        self.rows@[r as int].coefficients@.subrange(0, (j + 1) as int),
                    ));
                }
                j = j + 1;
            }
            proof {
                assert(self.rows@[r as int].coefficients@.subrange(0, j as int) =~= self.rows@[
                    r as int
                ].coefficients@);
            }
            let cst = crate::render::rat_round3_to_string(&self.rows[r].constant);
            crate::render::pad_push(&mut s, cst.as_str());
            s.append(nl.as_str());
            proof {
                reveal_strlit("\n");
                assert(s@ =~= head + render_rows(self.rows@.subrange(0, (r + 1) as int)));
            }
            r = r + 1;
        }
        proof {
            assert(self.rows@.subrange(0, r as int) =~= self.rows@);
        }
        s
    }
}

} // verus!