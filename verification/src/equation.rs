//! The equation normalizer: parses one free-form equation string into a
//! canonical `{variables, coefficients, constant}` triple, handling implicit
//! coefficients, sign folding of constant terms, and accumulation of repeated
//! variables.
//!
//! The scanner is specified by a fold over the sign-separated segments of the
//! space-stripped expression (`eq_fold`), each segment classified by a
//! character scan (`seg_scan`). `parse_from_string` is proved to return
//! exactly the state of that fold, or the error the fold records.

use vstd::prelude::*;
use vstd::string::*;

use crate::rat::{frac_add, frac_fits, frac_int, frac_neg, frac_sub, Frac, Rat};
use crate::render::push_char;
use crate::scan::{
    contains_char, contains_char_str, contains_seq, contains_str, eq_pred, is_digit_char,
    lemma_parse_dec_fits, lemma_split_by_sep, parse_decimal, sign_pred, spec_parse_dec, split_by,
    split_eq, split_signs, strip_spaces, strip_spaces_str, trim_str, trim_text,
};

verus! {

/// The operator recovered in front of a segment; `Absent` stands for a
/// segment with no preceding operator (the first one, or none recoverable).
#[derive(Debug, Clone, Copy, PartialEq, Eq, Structural)]
pub enum Operator {
    Absent,
    Add,
    Subtract,
}

/// Why an equation string was rejected.
#[derive(Debug, Clone, Copy, PartialEq, Eq, Structural)]
pub enum ParseError {
    /// A segment's numeric text is not a decimal literal the scanner accepts.
    MalformedCoefficient { segment: usize },
    /// An accumulated coefficient or constant left the representable range.
    OutOfRange,
}

/// One equation in canonical form: `sum of coefficient * variable = constant`.
#[derive(Debug, Clone)]
pub struct Equation {
    pub raw: String,
    pub variables: Vec<String>,
    pub coefficients: Vec<Rat>,
    pub operations: Vec<Operator>,
    pub constant: Rat,
}

pub open spec fn is_numlike(c: char) -> bool {
    is_digit_char(c) || c == '.'
}

/// State of the segment scanner: collected numeric text, collected variable
/// characters, the coefficient as last resolved, and whether a numeric prefix
/// failed to parse at a non-leading position.
pub ghost struct ScanState {
    pub cstr: Seq<char>,
    pub vname: Seq<char>,
    pub coeff: Frac,
    pub bad: bool,
}

pub open spec fn seg_scan(seg: Seq<char>) -> ScanState
    decreases seg.len(),
{
    if seg.len() == 0 {
        ScanState { cstr: Seq::empty(), vname: Seq::empty(), coeff: frac_int(1), bad: false }
    } else {
        let st = seg_scan(seg.drop_last());
        let c = seg.last();
        if is_numlike(c) {
            ScanState { cstr: st.cstr.push(c), ..st }
        } else if seg.len() == 1 {
            ScanState { vname: st.vname.push(c), coeff: frac_int(1), ..st }
        } else {
            match spec_parse_dec(st.cstr) {
                Some(q) => ScanState { vname: st.vname.push(c), coeff: q, ..st },
                None => ScanState { vname: st.vname.push(c), bad: true, ..st },
            }
        }
    }
}

/// A scanned term: variable name (empty for a pure constant), coefficient,
/// and whether the segment was malformed.
pub ghost struct TermSpec {
    pub vname: Seq<char>,
    pub coeff: Frac,
    pub bad: bool,
}

/// The term a segment denotes: the final coefficient is the parse of all
/// collected numeric text when that parses, otherwise whatever the scan last
/// resolved (the implicit 1 when no digits preceded the variable).
pub open spec fn seg_term(seg: Seq<char>) -> TermSpec {
    let st = seg_scan(seg);
    TermSpec {
        vname: st.vname,
        coeff: match spec_parse_dec(st.cstr) {
            Some(q) => q,
            None => st.coeff,
        },
        bad: st.bad,
    }
}

pub proof fn lemma_seg_scan_fits(seg: Seq<char>)
    ensures
        frac_fits(seg_scan(seg).coeff),
    decreases seg.len(),
{
    if seg.len() > 0 {
        lemma_seg_scan_fits(seg.drop_last());
        lemma_parse_dec_fits(seg_scan(seg.drop_last()).cstr);
    }
}

pub proof fn lemma_seg_term_fits(seg: Seq<char>)
    ensures
        frac_fits(seg_term(seg).coeff),
{
    lemma_seg_scan_fits(seg);
    lemma_parse_dec_fits(seg_scan(seg).cstr);
}

fn is_numlike_exec(c: char) -> (r: bool)
    ensures
        r == is_numlike(c),
{
    c == '.' || c == '0' || c == '1' || c == '2' || c == '3' || c == '4' || c == '5' || c == '6'
        || c == '7' || c == '8' || c == '9'
}

/// Scans one sign-free segment into its term: variable name, coefficient,
/// and whether the numeric text was malformed at a non-leading position.
#[verifier::loop_isolation(false)]
pub fn parse_segment(seg: &str) -> (r: (String, Rat, bool))
    ensures
        r.0@ == seg_term(seg@).vname,
        r.1.wf(),
        r.1@ == seg_term(seg@).coeff,
        r.2 == seg_term(seg@).bad,
{
    let n = seg.unicode_len();
    let mut cstr = String::new();
    let mut vname = String::new();
    let mut coeff = Rat::one();
    let mut bad = false;
    let mut i: usize = 0;
    while i < n
        invariant
            i <= n,
            coeff.wf(),
            seg_scan(seg@.subrange(0, i as int)) == (ScanState {
                cstr: cstr@,
                vname: vname@,
                coeff: coeff@,
                bad: bad,
            }),
        decreases n - i,
    {
        proof {
            assert(seg@.subrange(0, (i + 1) as int).drop_last() =~= seg@.subrange(0, i as int));
        }
        let c = seg.get_char(i);
        if is_numlike_exec(c) {
            push_char(&mut cstr, c);
        } else {
            if i == 0 {
                coeff = Rat::one();
            } else {
                match parse_decimal(cstr.as_str()) {
                    Some(v) => {
                        coeff = v;
                    },
                    None => {
                        bad = true;
                    },
                }
            }
            push_char(&mut vname, c);
        }
        i = i + 1;
    }
    proof {
        assert(seg@.subrange(0, n as int) =~= seg@);
    }
    match parse_decimal(cstr.as_str()) {
        Some(v) => {
            coeff = v;
        },
        None => {},
    }
    (vname, coeff, bad)
}

/// State of the normalizer's fold over the segments of one expression.
pub ghost struct EqState {
    pub vars: Seq<Seq<char>>,
    pub coeffs: Seq<Frac>,
    pub ops: Seq<Operator>,
    pub constant: Frac,
    pub negative: bool,
    pub bad_seg: Option<int>,
    pub big: bool,
}

pub open spec fn eq_failed(st: EqState) -> bool {
    st.bad_seg is Some || st.big
}

/// The operator in front of a segment, recovered by searching the expression
/// for `+` or `-` immediately followed by the segment's text (`+` first).
pub open spec fn op_search(e: Seq<char>, seg: Seq<char>) -> Operator {
    if contains_seq(e, seq!['+'] + seg) {
        Operator::Add
    } else if contains_seq(e, seq!['-'] + seg) {
        Operator::Subtract
    } else {
        Operator::Absent
    }
}

pub open spec fn last_op(ops: Seq<Operator>) -> Operator {
    if ops.len() > 0 {
        ops.last()
    } else {
        Operator::Absent
    }
}

pub open spec fn pop_op(ops: Seq<Operator>) -> Seq<Operator> {
    if ops.len() > 0 {
        ops.drop_last()
    } else {
        ops
    }
}

pub open spec fn has_var(vars: Seq<Seq<char>>, v: Seq<char>) -> bool {
    exists|k: int| 0 <= k < vars.len() && vars[k] == v
}

pub open spec fn var_index(vars: Seq<Seq<char>>, v: Seq<char>) -> int {
    choose|k: int| 0 <= k < vars.len() && vars[k] == v
}

/// Applies one scanned term to the fold state: a malformed segment records
/// the error; a pure-constant segment is folded into the constant with its
/// sign flipped (it moves to the other side of the equation); a variable term
/// is signed by the pending leading-minus flag and the recovered operator,
/// then accumulated into an existing entry or appended as a new one.
pub open spec fn eq_apply_term(st: EqState, t: TermSpec, seg_idx: int, seg: Seq<char>) -> EqState {
    if t.bad {
        EqState { bad_seg: Some(seg_idx), ..st }
    } else if t.vname.len() == 0 && seg.len() != 0 {
        let newc = if last_op(st.ops) == Operator::Subtract {
            frac_add(st.constant, t.coeff)
        } else {
            frac_sub(st.constant, t.coeff)
        };
        if !frac_fits(newc) {
            EqState { big: true, ..st }
        } else {
            EqState { constant: newc, ops: pop_op(st.ops), ..st }
        }
    } else {
        let c1 = if st.negative {
            frac_neg(t.coeff)
        } else {
            t.coeff
        };
        let ops1 = if st.negative {
            pop_op(st.ops)
        } else {
            st.ops
        };
        let c2 = if last_op(ops1) == Operator::Subtract {
            frac_neg(c1)
        } else {
            c1
        };
        let ops2 = pop_op(ops1);
        if has_var(st.vars, t.vname) {
            let k = var_index(st.vars, t.vname);
            let newc = frac_add(st.coeffs[k], c2);
            if !frac_fits(newc) {
                EqState { big: true, ..st }
            } else {
                EqState {
                    coeffs: st.coeffs.update(k, newc),
                    ops: ops2,
                    negative: false,
                    ..st
                }
            }
        } else {
            EqState {
                vars: st.vars.push(t.vname),
                coeffs: st.coeffs.push(c2),
                ops: ops2,
                negative: false,
                ..st
            }
        }
    }
}

/// One step of the fold: a later segment first has its operator recovered
/// and pushed (a term whose operator cannot be recovered is dropped); an
/// empty first segment marks a leading minus and emits nothing.
pub open spec fn eq_step(
    e: Seq<char>,
    seg0: Seq<char>,
    seg_idx: int,
    seg: Seq<char>,
    st: EqState,
) -> EqState {
    if eq_failed(st) {
        st
    } else if seg != seg0 {
        let op = op_search(e, seg);
        if op == Operator::Absent {
            st
        } else {
            eq_apply_term(EqState { ops: st.ops.push(op), ..st }, seg_term(seg), seg_idx, seg)
        }
    } else if seg.len() == 0 {
        EqState { negative: true, ..st }
    } else {
        eq_apply_term(st, seg_term(seg), seg_idx, seg)
    }
}

pub open spec fn eq_fold(e: Seq<char>, segs: Seq<Seq<char>>, k: int, init: EqState) -> EqState
    decreases k,
{
    if k <= 0 {
        init
    } else {
        eq_step(e, segs[0], k - 1, segs[k - 1], eq_fold(e, segs, k - 1, init))
    }
}

pub open spec fn init_state(c0: Frac) -> EqState {
    EqState {
        vars: Seq::empty(),
        coeffs: Seq::empty(),
        ops: Seq::empty(),
        constant: c0,
        negative: false,
        bad_seg: None,
        big: false,
    }
}

/// Side selection: without `=` the whole string is the expression and the
/// constant starts at 0; with `=`, whichever side parses as a bare number
/// becomes the starting constant and the other side the expression; if
/// neither parses, the original unsplit string is the expression.
pub open spec fn side_selection(raw: Seq<char>) -> (Frac, Seq<char>) {
    if !contains_char(raw, '=') {
        (frac_int(0), raw)
    } else {
        let parts = split_by(raw, eq_pred());
        if parts.len() >= 2 {
            match spec_parse_dec(trim_text(parts[0])) {
                Some(v) => (v, parts[1]),
                None => match spec_parse_dec(trim_text(parts[1])) {
                    Some(v) => (v, parts[0]),
                    None => (frac_int(0), raw),
                },
            }
        } else {
            (frac_int(0), raw)
        }
    }
}

/// The normalizer's result on a raw equation string, as a fold state.
pub open spec fn spec_parse(raw: Seq<char>) -> EqState {
    let sel = side_selection(raw);
    let e = strip_spaces(sel.1);
    let segs = split_by(e, sign_pred());
    eq_fold(e, segs, segs.len() as int, init_state(sel.0))
}

/// Well-formedness of a fold state: aligned lengths, distinct variables, and
/// every numeric value within the representable range.
pub open spec fn state_wf(st: EqState) -> bool {
    &&& st.vars.len() == st.coeffs.len()
    &&& forall|i: int, j: int| 0 <= i < j < st.vars.len() ==> st.vars[i] != st.vars[j]
    &&& forall|i: int| 0 <= i < st.coeffs.len() ==> frac_fits(#[trigger] st.coeffs[i])
    &&& frac_fits(st.constant)
}

/// Once a fold state records a failure, later steps leave it unchanged.
pub proof fn lemma_fold_frozen(e: Seq<char>, segs: Seq<Seq<char>>, j: int, k: int, init: EqState)
    requires
        0 <= j <= k,
        eq_failed(eq_fold(e, segs, j, init)),
    ensures
        eq_fold(e, segs, k, init) == eq_fold(e, segs, j, init),
    decreases k - j,
{
    if j < k {
        lemma_fold_frozen(e, segs, j, k - 1, init);
    }
}

impl Equation {
    /// Representation invariant: aligned lengths, distinct variable names,
    /// all scalars in range.
    pub open spec fn wf(self) -> bool {
        &&& self.variables@.len() == self.coefficients@.len()
        &&& forall|i: int, j: int|
            0 <= i < j < self.variables@.len() ==> self.variables@[i]@ != self.variables@[j]@
        &&& forall|i: int| 0 <= i < self.coefficients@.len() ==> (#[trigger] self.coefficients@[i]).wf()
        &&& self.constant.wf()
    }

    /// The variable names, as character sequences.
    pub open spec fn var_seq(self) -> Seq<Seq<char>> {
        self.variables@.map_values(|v: String| v@)
    }

    /// The coefficients, as mathematical rationals.
    pub open spec fn coeff_seq(self) -> Seq<Frac> {
        self.coefficients@.map_values(|c: Rat| c@)
    }
}

pub open spec fn matches_state(
    st: EqState,
    vars: Seq<String>,
    coeffs: Seq<Rat>,
    ops: Seq<Operator>,
    constant: Rat,
    negative: bool,
) -> bool {
    &&& !eq_failed(st)
    &&& vars.map_values(|v: String| v@) == st.vars
    &&& coeffs.map_values(|c: Rat| c@) == st.coeffs
    &&& ops == st.ops
    &&& constant@ == st.constant
    &&& negative == st.negative
}

/// Applies one term to the executable accumulator state, mirroring
/// `eq_apply_term`.
#[verifier::loop_isolation(false)]
fn apply_term(
    vars: &mut Vec<String>,
    coeffs: &mut Vec<Rat>,
    ops: &mut Vec<Operator>,
    constant: &mut Rat,
    negative: &mut bool,
    term_var: String,
    term_coeff: Rat,
    term_bad: bool,
    seg_empty: bool,
    seg_idx: usize,
    Ghost(st): Ghost<EqState>,
    Ghost(seg): Ghost<Seq<char>>,
) -> (r: Result<(), ParseError>)
    requires
        matches_state(
            st,
            old(vars)@,
            old(coeffs)@,
            old(ops)@,
            *old(constant),
            *old(negative),
        ),
        state_wf(st),
        term_coeff.wf(),
        seg_empty <==> seg.len() == 0,
    ensures
        ({
            let t = TermSpec { vname: term_var@, coeff: term_coeff@, bad: term_bad };
            let st2 = eq_apply_term(st, t, seg_idx as int, seg);
            &&& (r is Ok <==> !eq_failed(st2))
            &&& (r is Ok ==> matches_state(
                st2,
                final(vars)@,
                final(coeffs)@,
                final(ops)@,
                *final(constant),
                *final(negative),
            ) && state_wf(st2))
            &&& (r is Err ==> (st2.bad_seg == Some(seg_idx as int) && r == Err::<(), ParseError>(
                ParseError::MalformedCoefficient { segment: seg_idx },
            )) || (st2.big && r == Err::<(), ParseError>(ParseError::OutOfRange)))
        }),
{
    let ghost t = TermSpec { vname: term_var@, coeff: term_coeff@, bad: term_bad };
    let ghost st2 = eq_apply_term(st, t, seg_idx as int, seg);
    if term_bad {
        return Err(ParseError::MalformedCoefficient { segment: seg_idx });
    }
    if term_var.as_str().unicode_len() == 0 && !seg_empty {
        let sub = ops.len() > 0 && matches!(ops[ops.len() - 1], Operator::Subtract);
        proof {
            assert(sub == (last_op(st.ops) == Operator::Subtract));
        }
        let nc = if sub {
            constant.checked_add(&term_coeff)
        } else {
            constant.checked_sub(&term_coeff)
        };
        match nc {
            None => Err(ParseError::OutOfRange),
            Some(v) => {
                *constant = v;
                if ops.len() > 0 {
                    let _ = ops.pop();
                }
                proof {
                    assert(ops@ =~= pop_op(st.ops));
                }
                Ok(())
            },
        }
    } else {
        let mut c1 = term_coeff;
        if *negative {
            c1 = c1.neg();
            *negative = false;
            if ops.len() > 0 {
                let _ = ops.pop();
            }
        }
        let ghost ops1 = if st.negative {
            pop_op(st.ops)
        } else {
            st.ops
        };
        proof {
            assert(ops@ =~= ops1);
        }
        let sub = ops.len() > 0 && matches!(ops[ops.len() - 1], Operator::Subtract);
        proof {
            assert(sub == (last_op(ops1) == Operator::Subtract));
        }
        let c2 = if sub {
            c1.neg()
        } else {
            c1
        };
        if ops.len() > 0 {
            let _ = ops.pop();
        }
        proof {
            assert(ops@ =~= pop_op(ops1));
        }
        let mut k: usize = 0;
        let mut found = false;
        while k < vars.len() && !found
            invariant
                k <= vars.len(),
                !found ==> forall|j: int| 0 <= j < k ==> vars@[j]@ != term_var@,
                found ==> k < vars.len() && vars@[k as int]@ == term_var@,
            decreases vars.len() - k + (if found { 0int } else { 1int }),
        {
            if vars[k] == term_var {
                found = true;
            } else {
                k = k + 1;
            }
        }
        if found {
            proof {
                assert(st.vars[k as int] == term_var@);
                assert(has_var(st.vars, t.vname));
                let kk = var_index(st.vars, t.vname);
                assert(st.vars[kk] == t.vname);
                if kk != k as int {
                    assert(false);
                }
            }
            let nc = coeffs[k].checked_add(&c2);
            match nc {
                None => Err(ParseError::OutOfRange),
                Some(v) => {
                    coeffs[k] = v;
                    proof {
                        assert(coeffs@.map_values(|c: Rat| c@) =~= st.coeffs.update(
                            k as int,
                            frac_add(st.coeffs[k as int], c2@),
                        ));
                    }
                    Ok(())
                },
            }
        } else {
            proof {
                assert(!has_var(st.vars, t.vname)) by {
                    if has_var(st.vars, t.vname) {
                        let kk = var_index(st.vars, t.vname);
                        assert(st.vars[kk] == t.vname);
                        assert(vars@[kk]@ == term_var@);
                    }
                }
            }
            vars.push(term_var);
            coeffs.push(c2);
            proof {
                assert(vars@.map_values(|v: String| v@) =~= st.vars.push(t.vname));
                assert(coeffs@.map_values(|c: Rat| c@) =~= st.coeffs.push(c2@));
                assert(forall|i: int, j: int|
                    0 <= i < j < st2.vars.len() ==> st2.vars[i] != st2.vars[j]);
            }
            Ok(())
        }
    }
}

impl Equation {
    /// Normalizes one raw equation string.
    ///
    /// On success the result is exactly the state of the specification fold
    /// `spec_parse`: the distinct variables in first-seen order, the signed
    /// accumulated coefficient of each, the leftover recovered operators, and
    /// the sign-normalized constant. An error is returned exactly when the
    /// fold records one: a malformed coefficient with its segment index, or a
    /// value out of the representable range. (The bounded exact-rational
    /// model narrows the wire grammar there: literals over 18 digits, and
    /// accumulations past the range, are rejected rather than rounded.)
    #[verifier::loop_isolation(false)]
    pub fn parse_from_string(raw: String) -> (r: Result<Equation, ParseError>)
        ensures
            ({
                let st = spec_parse(raw@);
                &&& (r is Ok <==> !eq_failed(st))
                &&& (r matches Ok(eq) ==> eq.wf() && eq.raw@ == raw@ && eq.var_seq() == st.vars
                    && eq.coeff_seq() == st.coeffs && eq.operations@ == st.ops && eq.constant@
                    == st.constant)
                &&& (r matches Err(pe) ==> match pe {
                    ParseError::MalformedCoefficient { segment } => st.bad_seg == Some(
                        segment as int,
                    ),
                    ParseError::OutOfRange => st.big,
                })
            }),
    {
        let has_eq_ch = contains_char_str(raw.as_str(), '=');
        let mut constant = Rat::zero();
        let mut expr_raw = String::new();
        if !has_eq_ch {
            expr_raw = raw.clone();
        } else {
            let parts = split_eq(raw.as_str());
            proof {
                let i = choose|i: int| 0 <= i < raw@.len() && raw@[i] == '=';
                assert(eq_pred()(raw@[i]));
                lemma_split_by_sep(raw@, eq_pred());
            }
            let t0 = trim_str(parts[0].as_str());
            match parse_decimal(t0.as_str()) {
                Some(v) => {
                    constant = v;
                    expr_raw = parts[1].clone();
                },
                None => {
                    let t1 = trim_str(parts[1].as_str());
                    match parse_decimal(t1.as_str()) {
                        Some(v) => {
                            constant = v;
                            expr_raw = parts[0].clone();
                        },
                        None => {
                            expr_raw = raw.clone();
                        },
                    }
                },
            }
        }
        proof {
            assert(constant@ == side_selection(raw@).0);
            assert(expr_raw@ == side_selection(raw@).1);
        }
        let e = strip_spaces_str(expr_raw.as_str());
        let segs = split_signs(e.as_str());
        let ghost gsegs = split_by(e@, sign_pred());
        let ghost init = init_state(constant@);
        let mut variables: Vec<String> = Vec::new();
        let mut coefficients: Vec<Rat> = Vec::new();
        let mut operations: Vec<Operator> = Vec::new();
        let mut negative = false;
        proof {
            assert(variables@.map_values(|v: String| v@) =~= Seq::<Seq<char>>::empty());
            assert(coefficients@.map_values(|c: Rat| c@) =~= Seq::<Frac>::empty());
        }
        let mut idx: usize = 0;
        while idx < segs.len()
            invariant
                idx <= segs.len(),
                matches_state(
                    eq_fold(e@, gsegs, idx as int, init),
                    variables@,
                    coefficients@,
                    operations@,
                    constant,
                    negative,
                ),
                state_wf(eq_fold(e@, gsegs, idx as int, init)),
            decreases segs.len() - idx,
        {
            let ghost st_pre = eq_fold(e@, gsegs, idx as int, init);
            let ghost st_next = eq_fold(e@, gsegs, (idx + 1) as int, init);
            proof {
                assert(st_next == eq_step(e@, gsegs[0], idx as int, gsegs[idx as int], st_pre));
                lemma_seg_term_fits(gsegs[idx as int]);
            }
            let seg_is_first = segs[idx] == segs[0];
            let (term_var, term_coeff, term_bad) = parse_segment(segs[idx].as_str());
            let ghost t = seg_term(gsegs[idx as int]);
            proof {
                assert(t == TermSpec { vname: term_var@, coeff: term_coeff@, bad: term_bad });
            }
            let seg_len_zero = segs[idx].as_str().unicode_len() == 0;
            if !seg_is_first {
                let mut pat_plus = String::new();
                push_char(&mut pat_plus, '+');
                pat_plus.append(segs[idx].as_str());
                proof {
                    assert(pat_plus@ =~= seq!['+'] + gsegs[idx as int]);
                }
                let op: Operator;
                if contains_str(e.as_str(), pat_plus.as_str()) {
                    op = Operator::Add;
                } else {
                    let mut pat_minus = String::new();
                    push_char(&mut pat_minus, '-');
                    pat_minus.append(segs[idx].as_str());
                    proof {
                        assert(pat_minus@ =~= seq!['-'] + gsegs[idx as int]);
                    }
                    if contains_str(e.as_str(), pat_minus.as_str()) {
                        op = Operator::Subtract;
                    } else {
                        op = Operator::Absent;
                    }
                }
                proof {
                    assert(op == op_search(e@, gsegs[idx as int]));
                }
                if op == Operator::Absent {
                    // no operator recoverable for this segment: the term is dropped
                    proof {
                        assert(st_next == st_pre);
                    }
                } else {
                    operations.push(op);
                    let ghost st_pushed = EqState { ops: st_pre.ops.push(op), ..st_pre };
                    proof {
                        assert(matches_state(
                            st_pushed,
                            variables@,
                            coefficients@,
                            operations@,
                            constant,
                            negative,
                        ));
                    }
                    let res = apply_term(
                        &mut variables,
                        &mut coefficients,
                        &mut operations,
                        &mut constant,
                        &mut negative,
                        term_var,
                        term_coeff,
                        term_bad,
                        seg_len_zero,
                        idx,
                        Ghost(st_pushed),
                        Ghost(gsegs[idx as int]),
                    );
                    match res {
                        Ok(()) => {
                            proof {
                                assert(st_next == eq_apply_term(
                                    st_pushed,
                                    t,
                                    idx as int,
                                    gsegs[idx as int],
                                ));
                            }
                        },
                        Err(pe) => {
                            proof {
                                lemma_fold_frozen(
                                    e@,
                                    gsegs,
                                    (idx + 1) as int,
                                    gsegs.len() as int,
                                    init,
                                );
                            }
                            return Err(pe);
                        },
                    }
                }
            } else if seg_len_zero {
                negative = true;
                proof {
                    assert(st_next == EqState { negative: true, ..st_pre });
                }
            } else {
                let res = apply_term(
                    &mut variables,
                    &mut coefficients,
                    &mut operations,
                    &mut constant,
                    &mut negative,
                    term_var,
                    term_coeff,
                    term_bad,
                    seg_len_zero,
                    idx,
                    Ghost(st_pre),
                    Ghost(gsegs[idx as int]),
                );
                match res {
                    Ok(()) => {
                        proof {
                            assert(st_next == eq_apply_term(
                                st_pre,
                                t,
                                idx as int,
                                gsegs[idx as int],
                            ));
                        }
                    },
                    Err(pe) => {
                        proof {
                            lemma_fold_frozen(e@, gsegs, (idx + 1) as int, gsegs.len() as int, init);
                        }
                        return Err(pe);
                    },
                }
            }
            idx = idx + 1;
        }
        proof {
            let stf = eq_fold(e@, gsegs, gsegs.len() as int, init);
            assert(idx as int == gsegs.len());
            assert(spec_parse(raw@) == stf);
            assert(forall|i: int|
                0 <= i < coefficients@.len() ==> (#[trigger] coefficients@[i]).wf()) by {
                assert(forall|i: int|
                    0 <= i < coefficients@.len() ==> (#[trigger] coefficients@[i])@
                        == stf.coeffs[i]);
            }
            assert(forall|i: int, j: int|
                0 <= i < j < variables@.len() ==> variables@[i]@ != variables@[j]@) by {
                assert(forall|i: int|
                    0 <= i < variables@.len() ==> (#[trigger] variables@[i])@ == stf.vars[i]);
            }
        }
        let eq = Equation {
            raw,
            variables,
            coefficients,
            operations,
            constant,
        };
        Ok(eq)
    }
}

/// The operator's symbol.
pub open spec fn op_symbol(o: Operator) -> Seq<char> {
    match o {
        Operator::Add => "+"@,
        Operator::Subtract => "-"@,
        Operator::Absent => Seq::empty(),
    }
}

impl Operator {
    /// The symbol of a present operator; `Absent` has none.
    pub fn to_string(&self) -> (s: String)
        requires
            !(self is Absent),
        ensures
            s@ == op_symbol(*self),
    {
        match self {
            Operator::Add => String::from_str("+"),
            Operator::Subtract => String::from_str("-"),
            Operator::Absent => String::new(),
        }
    }
}

pub open spec fn op_name(o: Operator) -> Seq<char> {
    match o {
        Operator::Absent => "Absent"@,
        Operator::Add => "Add"@,
        Operator::Subtract => "Subtract"@,
    }
}

pub open spec fn ops_list_text(ops: Seq<Operator>) -> Seq<char>
    decreases ops.len(),
{
    if ops.len() == 0 {
        Seq::empty()
    } else if ops.len() == 1 {
        op_name(ops[0])
    } else {
        ops_list_text(ops.drop_last()) + ", "@ + op_name(ops.last())
    }
}

/// One term after another (`coefficient` then `variable` then a space), in
/// first-seen order.
pub open spec fn render_terms(vars: Seq<String>, coeffs: Seq<Rat>) -> Seq<char>
    decreases vars.len(),
{
    if vars.len() == 0 || coeffs.len() == 0 {
        Seq::empty()
    } else {
        render_terms(vars.drop_last(), coeffs.drop_last()) + crate::render::rat_text(coeffs.last())
            + vars.last()@ + seq![' ']
    }
}

/// The equation's display text: its terms, the leftover operators in list
/// form, and `= constant`.
pub open spec fn render_equation(eq: Equation) -> Seq<char> {
    render_terms(eq.variables@, eq.coefficients@) + "["@ + ops_list_text(eq.operations@) + "] "@
        + "= "@ + crate::render::rat_text(eq.constant)
}

fn op_name_str(o: &Operator) -> (s: String)
    ensures
        s@ == op_name(*o),
{
    match o {
        Operator::Absent => String::from_str("Absent"),
        Operator::Add => String::from_str("Add"),
        Operator::Subtract => String::from_str("Subtract"),
    }
}

impl Equation {
    /// Renders the equation for display.
    #[verifier::loop_isolation(false)]
    pub fn to_string(&self) -> (s: String)
        requires
            self.wf(),
        ensures
            s@ == render_equation(*self),
    {
        let mut s = String::new();
        let mut i: usize = 0;
        while i < self.variables.len()
            invariant
                i <= self.variables@.len(),
                s@ == render_terms(
                    self.variables@.subrange(0, i as int),
                    self.coefficients@.subrange(0, i as int),
                ),
            decreases self.variables@.len() - i,
        {
            proof {
                assert(self.variables@.subrange(0, (i + 1) as int).drop_last() =~= self.variables@
                    .subrange(0, i as int));
                assert(self.coefficients@.subrange(0, (i + 1) as int).drop_last()
                    =~= self.coefficients@.subrange(0, i as int));
            }
            let c = crate::render::rat_to_string(&self.coefficients[i]);
            s.append(c.as_str());
            s.append(self.variables[i].as_str());
            push_char(&mut s, ' ');
            proof {
                assert(s@ =~= render_terms(
                    self.variables@.subrange(0, (i + 1) as int),
                    self.coefficients@.subrange(0, (i + 1) as int),
                ));
            }
            i = i + 1;
        }
        proof {
            assert(self.variables@.subrange(0, i as int) =~= self.variables@);
            assert(self.coefficients@.subrange(0, i as int) =~= self.coefficients@);
        }
        s.append("[");
        let mut j: usize = 0;
        while j < self.operations.len()
            invariant
                j <= self.operations@.len(),
                s@ == render_terms(self.variables@, self.coefficients@) + "["@ + ops_list_text(
                    self.operations@.subrange(0, j as int),
                ),
            decreases self.operations@.len() - j,
        {
            proof {
                assert(self.operations@.subrange(0, (j + 1) as int).drop_last() =~= self.operations@
                    .subrange(0, j as int));
            }
            if j > 0 {
                s.append(", ");
            }
            let nm = op_name_str(&self.operations[j]);
            s.append(nm.as_str());
            proof {
                assert(s@ =~= render_terms(self.variables@, self.coefficients@) + "["@
                    + ops_list_text(self.operations@.subrange(0, (j + 1) as int)));
            }
            j = j + 1;
        }
        proof {
            assert(self.operations@.subrange(0, j as int) =~= self.operations@);
        }
        s.append("] ");
        s.append("= ");
        let c = crate::render::rat_to_string(&self.constant);
        s.append(c.as_str());
        proof {
            assert(s@ =~= render_equation(*self));
        }
        s
    }
}

/// Whether a segment folds into the constant: it is non-empty and carries no
/// variable character.
pub open spec fn seg_folds(seg: Seq<char>) -> bool {
    seg.len() != 0 && seg_term(seg).vname.len() == 0
}

proof fn lemma_fold_constant(e: Seq<char>, segs: Seq<Seq<char>>, k: int, init: EqState)
    requires
        0 <= k <= segs.len(),
        forall|i: int| 0 <= i < segs.len() ==> !seg_folds(#[trigger] segs[i]),
    ensures
        eq_fold(e, segs, k, init).constant == init.constant,
    decreases k,
{
    if k > 0 {
        lemma_fold_constant(e, segs, k - 1, init);
    }
}

/// For an equation without `=` whose expression folds no constant terms, the
/// normalizer's constant is zero (an equation such as `x+5` does fold `5`,
/// and is excluded).
pub proof fn lemma_no_equals_constant_zero(raw: Seq<char>)
    requires
        !contains_char(raw, '='),
        forall|i: int|
            0 <= i < split_by(strip_spaces(raw), sign_pred()).len() ==> !seg_folds(
                #[trigger] split_by(strip_spaces(raw), sign_pred())[i],
            ),
    ensures
        spec_parse(raw).constant == frac_int(0),
{
    let e = strip_spaces(raw);
    let segs = split_by(e, sign_pred());
    lemma_fold_constant(e, segs, segs.len() as int, init_state(frac_int(0)));
}

/// With `=` present, whichever side parses as a bare number becomes the
/// starting constant, and the other side becomes the expression.
pub proof fn lemma_selected_constant(raw: Seq<char>)
    requires
        contains_char(raw, '='),
    ensures
        ({
            let parts = split_by(raw, eq_pred());
            &&& parts.len() >= 2
            &&& (spec_parse_dec(trim_text(parts[0])) matches Some(v) ==> side_selection(raw) == (
                v,
                parts[1],
            ))
            &&& (spec_parse_dec(trim_text(parts[0])) is None ==> match spec_parse_dec(
                trim_text(parts[1]),
            ) {
                Some(v) => side_selection(raw) == (v, parts[0]),
                None => side_selection(raw) == (frac_int(0), raw),
            })
        }),
{
    let i = choose|i: int| 0 <= i < raw.len() && raw[i] == '=';
    assert(eq_pred()(raw[i]));
    crate::scan::lemma_split_by_sep(raw, eq_pred());
}

/// The side a bare number stands on does not matter: with exactly one
/// numeric side, swapping the two sides of `=` yields the same parse, sign
/// of the constant included.
pub proof fn lemma_constant_side_symmetric(a: Seq<char>, b: Seq<char>)
    requires
        !contains_char(a, '='),
        !contains_char(b, '='),
        spec_parse_dec(trim_text(a)) is Some,
        spec_parse_dec(trim_text(b)) is None,
    ensures
        spec_parse(a + seq!['='] + b) == spec_parse(b + seq!['='] + a),
{
    let raw1 = a + seq!['='] + b;
    let raw2 = b + seq!['='] + a;
    assert(raw1[a.len() as int] == '=');
    assert(contains_char(raw1, '='));
    assert(raw2[b.len() as int] == '=');
    assert(contains_char(raw2, '='));
    assert(forall|i: int| 0 <= i < a.len() ==> !(eq_pred()(a[i]))) by {
        assert(forall|i: int| 0 <= i < a.len() ==> a[i] != '=');
    }
    assert(forall|i: int| 0 <= i < b.len() ==> !(eq_pred()(b[i]))) by {
        assert(forall|i: int| 0 <= i < b.len() ==> b[i] != '=');
    }
    crate::scan::lemma_split_by_nosep(a, eq_pred());
    crate::scan::lemma_split_by_push_sep(a, '=', eq_pred());
    assert(a.push('=') =~= a + seq!['=']);
    crate::scan::lemma_split_by_append_nosep(a + seq!['='], b, eq_pred());
    assert(split_by(a + seq!['='], eq_pred()) =~~= seq![a, Seq::<char>::empty()]);
    assert(Seq::<char>::empty() + b =~= b);
    assert(split_by(raw1, eq_pred()) =~~= seq![a, b]);
    crate::scan::lemma_split_by_nosep(b, eq_pred());
    crate::scan::lemma_split_by_push_sep(b, '=', eq_pred());
    assert(b.push('=') =~= b + seq!['=']);
    crate::scan::lemma_split_by_append_nosep(b + seq!['='], a, eq_pred());
    assert(split_by(b + seq!['='], eq_pred()) =~~= seq![b, Seq::<char>::empty()]);
    assert(Seq::<char>::empty() + a =~= a);
    assert(split_by(raw2, eq_pred()) =~~= seq![b, a]);
    assert(side_selection(raw1) == side_selection(raw2));
}

/// A one-character segment that is a bare variable has the implicit
/// coefficient 1.
pub proof fn lemma_implicit_coefficient(seg: Seq<char>)
    requires
        seg.len() == 1,
        !is_numlike(seg[0]),
    ensures
        seg_term(seg).vname == seq![seg[0]],
        seg_term(seg).coeff == frac_int(1),
        !seg_term(seg).bad,
{
    assert(seg.drop_last() =~= Seq::<char>::empty());
    assert(seg.last() == seg[0]);
    assert(seg_scan(Seq::<char>::empty()) == (ScanState {
        cstr: Seq::<char>::empty(),
        vname: Seq::<char>::empty(),
        coeff: frac_int(1),
        bad: false,
    }));
    assert(seg_scan(seg).vname =~= seq![seg[0]]);
    assert(seg_scan(seg).cstr =~= Seq::<char>::empty());
    assert(crate::scan::dec_scan(Seq::<char>::empty()).digits == 0);
    assert(spec_parse_dec(seg_scan(seg).cstr) is None);
}

/// A leading minus on a bare variable negates its implicit coefficient: the
/// equation `-c` (for a single variable character `c`) parses to the one
/// variable `c` with coefficient -1 and constant 0.
pub proof fn lemma_leading_minus(c: char)
    requires
        !is_numlike(c),
        c != '+',
        c != '-',
        c != '=',
        c != ' ',
    ensures
        ({
            let st = spec_parse(seq!['-', c]);
            &&& !eq_failed(st)
            &&& st.vars == seq![seq![c]]
            &&& st.coeffs == seq![frac_int(-1)]
            &&& st.constant == frac_int(0)
        }),
{
    let raw = seq!['-', c];
    assert(!contains_char(raw, '=')) by {
        if contains_char(raw, '=') {
            let i = choose|i: int| 0 <= i < raw.len() && raw[i] == '=';
            assert(i == 0 || i == 1);
        }
    }
    let e = strip_spaces(raw);
    assert(raw.drop_last() =~= seq!['-']);
    assert(seq!['-'].drop_last() =~= Seq::<char>::empty());
    assert(strip_spaces(Seq::<char>::empty()) =~= Seq::<char>::empty());
    assert(strip_spaces(seq!['-']) =~= seq!['-']);
    assert(e =~= raw);
    let segs = split_by(e, sign_pred());
    assert(segs =~~= seq![Seq::<char>::empty(), seq![c]]) by {
        assert(e.drop_last() =~= seq!['-']);
        assert(split_by(seq!['-'], sign_pred()) =~~= seq![
            Seq::<char>::empty(),
            Seq::<char>::empty(),
        ]) by {
            assert(seq!['-'].drop_last() =~= Seq::<char>::empty());
            assert(split_by(Seq::<char>::empty(), sign_pred()) =~~= seq![Seq::<char>::empty()]);
            assert(sign_pred()('-'));
        }
        assert(!(sign_pred()(c)));
    }
    let init = init_state(frac_int(0));
    let st0 = eq_fold(e, segs, 0, init);
    assert(st0 == init);
    let st1 = eq_fold(e, segs, 1, init);
    assert(st1 == eq_step(e, segs[0], 0, segs[0], st0));
    assert(st1 == EqState { negative: true, ..st0 });
    let st2 = eq_fold(e, segs, 2, init);
    assert(st2 == eq_step(e, segs[0], 1, segs[1], st1));
    assert(segs[1] != segs[0]);
    let plus_pat = seq!['+'] + seq![c];
    let minus_pat = seq!['-'] + seq![c];
    assert(!contains_seq(e, plus_pat)) by {
        if contains_seq(e, plus_pat) {
            let i = choose|i: int|
                0 <= i && i + plus_pat.len() <= e.len() && #[trigger] e.subrange(
                    i,
                    i + plus_pat.len(),
                ) == plus_pat;
            assert(i == 0);
            assert(e.subrange(0, 2)[0] == '-');
            assert(plus_pat[0] == '+');
        }
    }
    assert(contains_seq(e, minus_pat)) by {
        assert(e.subrange(0int, 0int + minus_pat.len() as int) =~= minus_pat);
    }
    assert(op_search(e, segs[1]) == Operator::Subtract);
    lemma_implicit_coefficient(segs[1]);
    let t = seg_term(segs[1]);
    assert(t.vname.len() == 1);
    let pushed = EqState { ops: st1.ops.push(Operator::Subtract), ..st1 };
    assert(st2 == eq_apply_term(pushed, t, 1, segs[1]));
    assert(pop_op(pushed.ops) =~= Seq::<Operator>::empty());
    assert(!has_var(pushed.vars, t.vname));
    assert(st2.vars =~~= seq![seq![c]]);
    assert(st2.coeffs =~= seq![frac_neg(frac_int(1))]);
    assert(frac_neg(frac_int(1)) == frac_int(-1));
    assert(st2.coeffs =~= seq![frac_int(-1)]);
    assert(spec_parse(raw) == st2);
}

/// A term whose variable already occurred in the same equation accumulates
/// into the existing entry: the variables are unchanged and that entry's
/// coefficient grows by the term's signed coefficient.
pub proof fn lemma_duplicate_variable_accumulates(
    st: EqState,
    t: TermSpec,
    seg_idx: int,
    seg: Seq<char>,
    k: int,
)
    requires
        !eq_failed(st),
        state_wf(st),
        !t.bad,
        t.vname.len() > 0,
        !st.negative,
        0 <= k < st.vars.len(),
        st.vars[k] == t.vname,
        frac_fits(
            frac_add(
                st.coeffs[k],
                if last_op(st.ops) == Operator::Subtract {
                    frac_neg(t.coeff)
                } else {
                    t.coeff
                },
            ),
        ),
    ensures
        ({
            let c2 = if last_op(st.ops) == Operator::Subtract {
                frac_neg(t.coeff)
            } else {
                t.coeff
            };
            let st2 = eq_apply_term(st, t, seg_idx, seg);
            &&& st2.vars == st.vars
            &&& st2.coeffs == st.coeffs.update(k, frac_add(st.coeffs[k], c2))
            &&& st2.constant == st.constant
            &&& !eq_failed(st2)
        }),
{
    assert(has_var(st.vars, t.vname));
    let kk = var_index(st.vars, t.vname);
    assert(st.vars[kk] == t.vname);
    if kk != k {
        assert(false);
    }
}

} // verus!