//! Numerical evaluation without substitution, and the evaluation context.
//!
//! Named constants become doubles, every part of an expression is evaluated,
//! sums, products and powers are rebuilt canonically, and functions take their
//! exact special values. Raising zero to a negative number is a division by
//! zero. Powers with a floating-point operand are kept as powers here: their
//! value is floating-point arithmetic, which this library does not perform.

use crate::arith::{abs, power};
use crate::construct::{spec_add, spec_mul, spec_pow};
use crate::error::{result_model, vec_result_model, ErrorModel, MathError};
use crate::expr::{
    int_model, lemma_view_pieces, lemma_view_rows, lemma_view_seq, view_pieces, view_rows, view_seq,
    ComplexData, ExprModel, Expression, IntervalData, MathConstant, MatrixData, PiecewiseData,
    RelationData, RelationType,
};
use crate::number::{is_number_negative, number_negative, number_zero, Number, NumberModel};
use crate::simplify::{evaluate_function_dispatch, spec_dispatch};
use crate::subst::VarMap;
use crate::value::{
    all_polynomial, is_polynomial, law_add_keeps_value, law_mul_keeps_value, law_pow_keeps_value,
    lemma_add_polynomial, lemma_mul_polynomial, lemma_pow_polynomial, lemma_product_congruent,
    lemma_sum_congruent, value,
};
use vstd::prelude::*;

verus! {

/// Bit pattern of the double nearest to π.
pub const PI_BITS: u64 = 0x4009_21fb_5444_2d18u64;

/// Bit pattern of the double nearest to e.
pub const E_BITS: u64 = 0x4005_bf0a_8b14_5769u64;

/// Bit pattern of the double nearest to the golden ratio.
pub const GOLDEN_RATIO_BITS: u64 = 0x3ff9_e377_9b97_f4a8u64;

/// Bit pattern of the double nearest to the Euler–Mascheroni constant.
pub const EULER_GAMMA_BITS: u64 = 0x3fe2_788c_fc6f_b619u64;

/// Bit pattern of the double nearest to the tribonacci constant.
pub const TRIBONACCI_BITS: u64 = 0x3ffd_6db7_f2d9_c5c1u64;

/// Numerical evaluation of an expression, without substitution.
pub trait EvalNumeric {
    /// The expression in numerical form, computed with `precision` bits where
    /// floating-point arithmetic is involved.
    fn eval_numeric(&self, precision: u32) -> Result<Expression, MathError>;
}

/// How an evaluation under a context proceeds: which variables are replaced,
/// whether the result is simplified first, and whether it is converted
/// numerically (with `precision` bits).
#[derive(Debug)]
pub struct EvalContext {
    /// Values of variables, by name, substituted before evaluation.
    pub variables: VarMap,
    /// Whether to convert the result numerically.
    pub numeric: bool,
    /// Bits of precision for floating-point work.
    pub precision: u32,
    /// Whether to simplify before the numerical conversion.
    pub simplify_first: bool,
}

impl EvalContext {
    /// Symbolic evaluation: no variables, no numerical conversion, 53 bits, no
    /// simplification first.
    pub fn symbolic() -> (r: EvalContext)
        ensures
            r.variables@ == Map::<Seq<char>, ExprModel>::empty(),
            !r.numeric,
            r.precision == 53,
            !r.simplify_first,
    {
        EvalContext { variables: VarMap::new(), numeric: false, precision: 53, simplify_first: false }
    }

    /// Numerical evaluation with the given variables: numerical conversion, 53
    /// bits, simplification first.
    pub fn numeric(variables: VarMap) -> (r: EvalContext)
        ensures
            r.variables@ == variables@,
            r.numeric,
            r.precision == 53,
            r.simplify_first,
    {
        EvalContext { variables, numeric: true, precision: 53, simplify_first: true }
    }

    /// The same context with `precision` bits.
    pub fn with_precision(self, precision: u32) -> (r: EvalContext)
        ensures
            r.variables@ == self.variables@,
            r.numeric == self.numeric,
            r.precision == precision,
            r.simplify_first == self.simplify_first,
    {
        let mut c = self;
        c.precision = precision;
        c
    }

    /// The same context, simplifying first or not as `simplify` says.
    pub fn with_simplify(self, simplify: bool) -> (r: EvalContext)
        ensures
            r.variables@ == self.variables@,
            r.numeric == self.numeric,
            r.precision == self.precision,
            r.simplify_first == simplify,
    {
        let mut c = self;
        c.simplify_first = simplify;
        c
    }
}

impl Clone for EvalContext {
    /// A copy of the context.
    fn clone(&self) -> (r: EvalContext)
        ensures
            r.variables@ == self.variables@,
            r.numeric == self.numeric,
            r.precision == self.precision,
            r.simplify_first == self.simplify_first,
    {
        EvalContext {
            variables: self.variables.clone(),
            numeric: self.numeric,
            precision: self.precision,
            simplify_first: self.simplify_first,
        }
    }
}

impl Default for EvalContext {
    /// The symbolic context.
    fn default() -> (r: EvalContext)
        ensures
            r.variables@ == Map::<Seq<char>, ExprModel>::empty(),
            !r.numeric,
            r.precision == 53,
            !r.simplify_first,
    {
        EvalContext::symbolic()
    }
}

/// The numerical value of a named constant: a double for π, e, the golden
/// ratio, the Euler–Mascheroni and the tribonacci constants; the constant
/// itself for `i`, the infinities and `undefined`.
pub open spec fn constant_value(c: MathConstant) -> ExprModel {
    match c {
        MathConstant::Pi => ExprModel::Number(NumberModel::Float(PI_BITS)),
        MathConstant::E => ExprModel::Number(NumberModel::Float(E_BITS)),
        MathConstant::GoldenRatio => ExprModel::Number(NumberModel::Float(GOLDEN_RATIO_BITS)),
        MathConstant::EulerGamma => ExprModel::Number(NumberModel::Float(EULER_GAMMA_BITS)),
        MathConstant::TribonacciConstant => ExprModel::Number(NumberModel::Float(TRIBONACCI_BITS)),
        _ => ExprModel::Constant(c),
    }
}

/// The expression is a number equal to zero.
pub open spec fn is_zero_model(m: ExprModel) -> bool {
    match m {
        ExprModel::Number(n) => number_zero(n),
        _ => false,
    }
}

/// The expression is a number below zero.
pub open spec fn is_negative_model(m: ExprModel) -> bool {
    match m {
        ExprModel::Number(n) => number_negative(n),
        _ => false,
    }
}

/// Numerical evaluation of the members of `ts` in order; the first error stops it.
pub open spec fn numeric_seq(ts: Seq<ExprModel>) -> Result<Seq<ExprModel>, ErrorModel>
    decreases ts, 0nat,
{
    if ts.len() == 0 {
        Ok(Seq::empty())
    } else {
        match numeric_seq(ts.subrange(0, ts.len() - 1)) {
            Err(x) => Err(x),
            Ok(p) => match spec_eval_numeric(ts[ts.len() - 1]) {
                Err(x) => Err(x),
                Ok(v) => Ok(p.push(v)),
            },
        }
    }
}

/// Numerical evaluation of the rows of a matrix in order.
pub open spec fn numeric_rows(rows: Seq<Seq<ExprModel>>) -> Result<Seq<Seq<ExprModel>>, ErrorModel>
    decreases rows, 0nat,
{
    if rows.len() == 0 {
        Ok(Seq::empty())
    } else {
        match numeric_rows(rows.subrange(0, rows.len() - 1)) {
            Err(x) => Err(x),
            Ok(p) => match numeric_seq(rows[rows.len() - 1]) {
                Err(x) => Err(x),
                Ok(v) => Ok(p.push(v)),
            },
        }
    }
}

/// Numerical evaluation of the values of the pieces in order; the conditions
/// are kept as they are.
pub open spec fn numeric_pieces(p: Seq<(ExprModel, ExprModel)>) -> Result<Seq<(ExprModel, ExprModel)>, ErrorModel>
    decreases p, 0nat,
{
    if p.len() == 0 {
        Ok(Seq::empty())
    } else {
        match numeric_pieces(p.subrange(0, p.len() - 1)) {
            Err(x) => Err(x),
            Ok(q) => match spec_eval_numeric(p[p.len() - 1].0) {
                Err(x) => Err(x),
                Ok(v) => Ok(q.push((v, p[p.len() - 1].1))),
            },
        }
    }
}

/// Numerical evaluation (see the module documentation). Numbers, variables and
/// derivatives are kept; a constant takes its [`constant_value`]; every other
/// kind of expression is rebuilt from its evaluated parts, left to right, and
/// the first error of a part is the error of the whole.
pub open spec fn spec_eval_numeric(m: ExprModel) -> Result<ExprModel, ErrorModel>
    decreases m, 1nat,
{
    match m {
        ExprModel::Constant(c) => Ok(constant_value(c)),
        ExprModel::Add(ts) => match numeric_seq(ts) {
            Ok(vs) => Ok(spec_add(vs)),
            Err(x) => Err(x),
        },
        ExprModel::Mul(ts) => match numeric_seq(ts) {
            Ok(vs) => Ok(spec_mul(vs)),
            Err(x) => Err(x),
        },
        ExprModel::Pow(b, e) => match spec_eval_numeric(*b) {
            Err(x) => Err(x),
            Ok(bv) => match spec_eval_numeric(*e) {
                Err(x) => Err(x),
                Ok(ev) => if is_zero_model(bv) && is_negative_model(ev) {
                    Err(ErrorModel::DivisionByZero)
                } else {
                    Ok(spec_pow(bv, ev))
                },
            },
        },
        ExprModel::Function(name, args) => match numeric_seq(args) {
            Err(x) => Err(x),
            Ok(a) => match spec_dispatch(name, a) {
                Some(v) => Ok(v),
                None => Ok(ExprModel::Function(name, a)),
            },
        },
        ExprModel::Matrix(rows) => match numeric_rows(rows) {
            Ok(r) => Ok(ExprModel::Matrix(r)),
            Err(x) => Err(x),
        },
        ExprModel::FiniteSet(ts) => match numeric_seq(ts) {
            Ok(vs) => Ok(ExprModel::FiniteSet(vs)),
            Err(x) => Err(x),
        },
        ExprModel::Complex(a, b) => match spec_eval_numeric(*a) {
            Err(x) => Err(x),
            Ok(av) => match spec_eval_numeric(*b) {
                Err(x) => Err(x),
                Ok(bv) => Ok(ExprModel::Complex(Box::new(av), Box::new(bv))),
            },
        },
        ExprModel::Interval(a, b, i1, i2) => match spec_eval_numeric(*a) {
            Err(x) => Err(x),
            Ok(av) => match spec_eval_numeric(*b) {
                Err(x) => Err(x),
                Ok(bv) => Ok(ExprModel::Interval(Box::new(av), Box::new(bv), i1, i2)),
            },
        },
        ExprModel::Piecewise(p, d) => match numeric_pieces(p) {
            Err(x) => Err(x),
            Ok(q) => match d {
                None => Ok(ExprModel::Piecewise(q, None)),
                Some(x) => match spec_eval_numeric(*x) {
                    Err(y) => Err(y),
                    Ok(dv) => Ok(ExprModel::Piecewise(q, Some(Box::new(dv)))),
                },
            },
        },
        ExprModel::Relation(a, b, t) => match spec_eval_numeric(*a) {
            Err(x) => Err(x),
            Ok(av) => match spec_eval_numeric(*b) {
                Err(x) => Err(x),
                Ok(bv) => Ok(ExprModel::Relation(Box::new(av), Box::new(bv), t)),
            },
        },
        _ => Ok(m),
    }
}

/// One more member evaluated.
proof fn lemma_numeric_seq_step(ts: Seq<ExprModel>, i: int)
    requires
        0 <= i < ts.len(),
    ensures
        numeric_seq(ts.take(i + 1)) == match numeric_seq(ts.take(i)) {
            Err(x) => Err(x),
            Ok(p) => match spec_eval_numeric(ts[i]) {
                Err(x) => Err(x),
                Ok(v) => Ok(p.push(v)),
            },
        },
{
    assert(ts.take(i + 1).subrange(0, i) =~= ts.take(i));
}

/// Once a prefix fails, the whole sequence fails with the same error.
proof fn lemma_numeric_seq_err(ts: Seq<ExprModel>, k: int)
    requires
        0 <= k <= ts.len(),
        numeric_seq(ts.take(k)) is Err,
    ensures
        numeric_seq(ts) == numeric_seq(ts.take(k)),
    decreases ts.len() - k,
{
    if k == ts.len() {
        assert(ts.take(k) =~= ts);
    } else {
        lemma_numeric_seq_step(ts, k);
        lemma_numeric_seq_err(ts, k + 1);
    }
}

/// One more row evaluated.
proof fn lemma_numeric_rows_step(rows: Seq<Seq<ExprModel>>, i: int)
    requires
        0 <= i < rows.len(),
    ensures
        numeric_rows(rows.take(i + 1)) == match numeric_rows(rows.take(i)) {
            Err(x) => Err(x),
            Ok(p) => match numeric_seq(rows[i]) {
                Err(x) => Err(x),
                Ok(v) => Ok(p.push(v)),
            },
        },
{
    assert(rows.take(i + 1).subrange(0, i) =~= rows.take(i));
}

/// Once a prefix of the rows fails, the whole matrix fails with the same error.
proof fn lemma_numeric_rows_err(rows: Seq<Seq<ExprModel>>, k: int)
    requires
        0 <= k <= rows.len(),
        numeric_rows(rows.take(k)) is Err,
    ensures
        numeric_rows(rows) == numeric_rows(rows.take(k)),
    decreases rows.len() - k,
{
    if k == rows.len() {
        assert(rows.take(k) =~= rows);
    } else {
        lemma_numeric_rows_step(rows, k);
        lemma_numeric_rows_err(rows, k + 1);
    }
}

/// One more piece evaluated.
proof fn lemma_numeric_pieces_step(p: Seq<(ExprModel, ExprModel)>, i: int)
    requires
        0 <= i < p.len(),
    ensures
        numeric_pieces(p.take(i + 1)) == match numeric_pieces(p.take(i)) {
            Err(x) => Err(x),
            Ok(q) => match spec_eval_numeric(p[i].0) {
                Err(x) => Err(x),
                Ok(v) => Ok(q.push((v, p[i].1))),
            },
        },
{
    assert(p.take(i + 1).subrange(0, i) =~= p.take(i));
}

/// Once a prefix of the pieces fails, the whole definition fails with the same error.
proof fn lemma_numeric_pieces_err(p: Seq<(ExprModel, ExprModel)>, k: int)
    requires
        0 <= k <= p.len(),
        numeric_pieces(p.take(k)) is Err,
    ensures
        numeric_pieces(p) == numeric_pieces(p.take(k)),
    decreases p.len() - k,
{
    if k == p.len() {
        assert(p.take(k) =~= p);
    } else {
        lemma_numeric_pieces_step(p, k);
        lemma_numeric_pieces_err(p, k + 1);
    }
}

/// Whether the expression is a number equal to zero.
pub fn is_zero_number(e: &Expression) -> (r: bool)
    ensures
        r == is_zero_model(e@),
{
    match e {
        Expression::Number(n) => n.is_zero(),
        _ => false,
    }
}

/// Whether the expression is a number below zero.
pub fn is_negative_number(e: &Expression) -> (r: bool)
    ensures
        r == is_negative_model(e@),
{
    match e {
        Expression::Number(n) => is_number_negative(n),
        _ => false,
    }
}

/// The numerical value of a named constant (see [`constant_value`]).
pub fn constant_numeric(c: MathConstant) -> (r: Expression)
    ensures
        r@ == constant_value(c),
{
    match c {
        MathConstant::Pi => Expression::float_bits(PI_BITS),
        MathConstant::E => Expression::float_bits(E_BITS),
        MathConstant::GoldenRatio => Expression::float_bits(GOLDEN_RATIO_BITS),
        MathConstant::EulerGamma => Expression::float_bits(EULER_GAMMA_BITS),
        MathConstant::TribonacciConstant => Expression::float_bits(TRIBONACCI_BITS),
        _ => Expression::Constant(c),
    }
}

/// Each part evaluated numerically, when every part evaluates.
pub open spec fn numeric_parts(ts: Seq<ExprModel>) -> Seq<ExprModel> {
    ts.map_values(|t: ExprModel| spec_eval_numeric(t)->Ok_0)
}

/// Every part evaluates numerically.
pub open spec fn all_numeric(ts: Seq<ExprModel>) -> bool {
    forall|i: int| 0 <= i < ts.len() ==> #[trigger] spec_eval_numeric(ts[i]) is Ok
}

/// When every part evaluates, the parts evaluate to their results in order.
proof fn lemma_numeric_seq_all(ts: Seq<ExprModel>)
    requires
        all_numeric(ts),
    ensures
        numeric_seq(ts) == Ok::<Seq<ExprModel>, ErrorModel>(numeric_parts(ts)),
    decreases ts.len(),
{
    if ts.len() > 0 {
        let d = ts.subrange(0, ts.len() - 1);
        assert forall|i: int| 0 <= i < d.len() implies #[trigger] spec_eval_numeric(d[i]) is Ok by {
            assert(d[i] == ts[i]);
        }
        lemma_numeric_seq_all(d);
        assert(spec_eval_numeric(ts[ts.len() - 1]) is Ok);
        assert(numeric_parts(d).push(spec_eval_numeric(ts[ts.len() - 1])->Ok_0) =~= numeric_parts(ts));
    } else {
        assert(numeric_parts(ts) =~= Seq::<ExprModel>::empty());
    }
}

/// When every entry of every row evaluates, the rows evaluate entry by entry.
proof fn lemma_numeric_rows_all(rows: Seq<Seq<ExprModel>>)
    requires
        forall|i: int| 0 <= i < rows.len() ==> all_numeric(#[trigger] rows[i]),
    ensures
        numeric_rows(rows) == Ok::<Seq<Seq<ExprModel>>, ErrorModel>(
            rows.map_values(|row: Seq<ExprModel>| numeric_parts(row)),
        ),
    decreases rows.len(),
{
    if rows.len() > 0 {
        let d = rows.subrange(0, rows.len() - 1);
        assert forall|i: int| 0 <= i < d.len() implies all_numeric(#[trigger] d[i]) by {
            assert(d[i] == rows[i]);
        }
        lemma_numeric_rows_all(d);
        lemma_numeric_seq_all(rows[rows.len() - 1]);
        assert(d.map_values(|row: Seq<ExprModel>| numeric_parts(row)).push(
            numeric_parts(rows[rows.len() - 1]),
        ) =~= rows.map_values(|row: Seq<ExprModel>| numeric_parts(row)));
    } else {
        assert(rows.map_values(|row: Seq<ExprModel>| numeric_parts(row)) =~= Seq::<Seq<ExprModel>>::empty());
    }
}

/// The expression is a positive double within half a unit in the last place
/// of `num / den`: the double nearest that number.
pub open spec fn nearest_double_to(m: ExprModel, num: int, den: int) -> bool {
    match m {
        ExprModel::Number(NumberModel::Float(b)) => {
            let eb = b / 0x10_0000_0000_0000;
            let mantissa = b % 0x10_0000_0000_0000 + 0x10_0000_0000_0000;
            &&& 0 < eb < 1075
            &&& den > 0
            &&& abs(2 * mantissa * den - power(2, (1076 - eb) as nat) * num) < den
        },
        _ => false,
    }
}

/// Numerical evaluation gives each named real constant as the double nearest
/// it (its value taken to 35 decimal places): π, e, the golden ratio, the
/// Euler–Mascheroni constant and the tribonacci constant.
pub proof fn law_constants_are_nearest_doubles()
    ensures
        nearest_double_to(
            constant_value(MathConstant::Pi),
            314159265358979323846264338327950288,
            100000000000000000000000000000000000,
        ),
        nearest_double_to(
            constant_value(MathConstant::E),
            271828182845904523536028747135266250,
            100000000000000000000000000000000000,
        ),
        nearest_double_to(
            constant_value(MathConstant::GoldenRatio),
            161803398874989484820458683436563812,
            100000000000000000000000000000000000,
        ),
        nearest_double_to(
            constant_value(MathConstant::EulerGamma),
            57721566490153286060651209008240243,
            100000000000000000000000000000000000,
        ),
        nearest_double_to(
            constant_value(MathConstant::TribonacciConstant),
            183928675521416113255185256465328660,
            100000000000000000000000000000000000,
        ),
{
    assert(power(2, 51) == 0x8_0000_0000_0000) by {
        reveal_with_fuel(power, 52);
    }
    assert(power(2, 52) == 0x10_0000_0000_0000);
    assert(power(2, 53) == 0x20_0000_0000_0000);
}

/// Numerical evaluation rebuilds a finite set from its evaluated members when
/// every member evaluates.
pub proof fn law_numeric_rebuilds_set(ts: Seq<ExprModel>)
    requires
        all_numeric(ts),
    ensures
        spec_eval_numeric(ExprModel::FiniteSet(ts)) == Ok::<ExprModel, ErrorModel>(
            ExprModel::FiniteSet(numeric_parts(ts)),
        ),
{
    lemma_numeric_seq_all(ts);
}

/// Numerical evaluation rebuilds a matrix of the same shape when every entry
/// evaluates: the entry at row `i` and column `j` is the result for that entry.
pub proof fn law_numeric_rebuilds_matrix(rows: Seq<Seq<ExprModel>>)
    requires
        forall|i: int| 0 <= i < rows.len() ==> all_numeric(#[trigger] rows[i]),
    ensures
        spec_eval_numeric(ExprModel::Matrix(rows)) == Ok::<ExprModel, ErrorModel>(
            ExprModel::Matrix(rows.map_values(|row: Seq<ExprModel>| numeric_parts(row))),
        ),
{
    lemma_numeric_rows_all(rows);
}

/// Numerical evaluation rebuilds a complex number, an interval and a relation
/// from its two evaluated parts when both evaluate, keeping the interval's end
/// flags and the relation's type.
pub proof fn law_numeric_rebuilds_pairs(a: ExprModel, b: ExprModel, i1: bool, i2: bool, t: RelationType)
    requires
        spec_eval_numeric(a) is Ok,
        spec_eval_numeric(b) is Ok,
    ensures
        spec_eval_numeric(ExprModel::Complex(Box::new(a), Box::new(b))) == Ok::<ExprModel, ErrorModel>(
            ExprModel::Complex(Box::new(spec_eval_numeric(a)->Ok_0), Box::new(spec_eval_numeric(b)->Ok_0)),
        ),
        spec_eval_numeric(ExprModel::Interval(Box::new(a), Box::new(b), i1, i2)) == Ok::<
            ExprModel,
            ErrorModel,
        >(
            ExprModel::Interval(
                Box::new(spec_eval_numeric(a)->Ok_0),
                Box::new(spec_eval_numeric(b)->Ok_0),
                i1,
                i2,
            ),
        ),
        spec_eval_numeric(ExprModel::Relation(Box::new(a), Box::new(b), t)) == Ok::<ExprModel, ErrorModel>(
            ExprModel::Relation(Box::new(spec_eval_numeric(a)->Ok_0), Box::new(spec_eval_numeric(b)->Ok_0), t),
        ),
{
}

/// Numerical evaluation of a polynomial never fails and keeps its value: the
/// result is a polynomial with the same value for every assignment of integers
/// to the variables (in particular, no variable is replaced).
pub proof fn law_eval_numeric_keeps_value(m: ExprModel, env: spec_fn(ExprModel) -> int)
    requires
        is_polynomial(m),
    ensures
        spec_eval_numeric(m) is Ok,
        is_polynomial(spec_eval_numeric(m)->Ok_0),
        value(spec_eval_numeric(m)->Ok_0, env) == value(m, env),
    decreases m, 1nat,
{
    match m {
        ExprModel::Add(ts) => {
            lemma_numeric_members(ts, env);
            let xs = numeric_seq(ts)->Ok_0;
            lemma_sum_congruent(xs, ts, env, env);
            law_add_keeps_value(xs, env);
            lemma_add_polynomial(xs);
        },
        ExprModel::Mul(ts) => {
            lemma_numeric_members(ts, env);
            let xs = numeric_seq(ts)->Ok_0;
            lemma_product_congruent(xs, ts, env, env);
            law_mul_keeps_value(xs, env);
            lemma_mul_polynomial(xs);
        },
        ExprModel::Pow(b, e) => {
            law_eval_numeric_keeps_value(*b, env);
            let bv = spec_eval_numeric(*b)->Ok_0;
            let k = e->Number_0->Integer_0;
            assert(*e == int_model(k));
            assert(spec_eval_numeric(*e) == Ok::<ExprModel, ErrorModel>(*e));
            law_pow_keeps_value(bv, int_model(k), env);
            lemma_pow_polynomial(bv, k);
        },
        _ => {},
    }
}

/// The numerical evaluation of a list of polynomials succeeds member by member,
/// keeping each value.
proof fn lemma_numeric_members(ts: Seq<ExprModel>, env: spec_fn(ExprModel) -> int)
    requires
        all_polynomial(ts),
    ensures
        numeric_seq(ts) is Ok,
        numeric_seq(ts)->Ok_0.len() == ts.len(),
        all_polynomial(numeric_seq(ts)->Ok_0),
        forall|i: int| 0 <= i < ts.len() ==> #[trigger] value(numeric_seq(ts)->Ok_0[i], env) == value(ts[i], env),
    decreases ts, 0nat,
{
    if ts.len() == 0 {
        assert(all_polynomial(Seq::<ExprModel>::empty()));
    } else {
        let t = ts.subrange(0, ts.len() - 1);
        lemma_numeric_members(t, env);
        law_eval_numeric_keeps_value(ts[ts.len() - 1], env);
        let p = numeric_seq(t)->Ok_0;
        let v = spec_eval_numeric(ts[ts.len() - 1])->Ok_0;
        let xs = p.push(v);
        assert(numeric_seq(ts) == Ok::<Seq<ExprModel>, ErrorModel>(xs));
        assert forall|i: int| 0 <= i < ts.len() implies #[trigger] value(xs[i], env) == value(ts[i], env) by {
            if i < ts.len() - 1 {
                assert(t[i] == ts[i]);
            }
        }
        assert(xs.subrange(0, xs.len() - 1) =~= p);
    }
}

/// Numerical evaluation of the members of `v`, in order.
fn numeric_vec(v: &Vec<Expression>, precision: u32) -> (r: Result<Vec<Expression>, MathError>)
    ensures
        vec_result_model(r) == numeric_seq(view_seq(v@)),
    decreases v, 0nat,
{
    let ghost ts = view_seq(v@);
    proof {
        lemma_view_seq(v@);
    }
    let mut out: Vec<Expression> = Vec::new();
    proof {
        assert(ts.take(0) =~= Seq::<ExprModel>::empty());
        lemma_view_seq(out@);
        assert(view_seq(out@) =~= Seq::<ExprModel>::empty());
    }
    let mut i: usize = 0;
    while i < v.len()
        invariant
            i <= v.len(),
            ts == view_seq(v@),
            ts.len() == v.len(),
            forall|j: int| 0 <= j < v.len() ==> #[trigger] ts[j] == v@[j]@,
            out@.len() == i,
            numeric_seq(ts.take(i as int)) == Ok::<Seq<ExprModel>, ErrorModel>(view_seq(out@)),
        decreases v.len() - i,
    {
        proof {
            vstd::std_specs::vec::axiom_vec_index_decreases(*v, i as int);
            lemma_numeric_seq_step(ts, i as int);
        }
        match v[i].eval_numeric(precision) {
            Ok(x) => {
                let ghost before = out@;
                out.push(x);
                proof {
                    lemma_view_seq(out@);
                    lemma_view_seq(before);
                    assert(view_seq(out@) =~= view_seq(before).push(out@[i as int]@));
                }
            },
            Err(x) => {
                proof {
                    lemma_numeric_seq_err(ts, i + 1);
                }
                return Err(x);
            },
        }
        i = i + 1;
    }
    assert(ts.take(v.len() as int) =~= ts);
    Ok(out)
}

impl EvalNumeric for Expression {
    /// Numerical evaluation (see [`spec_eval_numeric`]); the result does not
    /// depend on `precision`.
    fn eval_numeric(&self, precision: u32) -> (r: Result<Expression, MathError>)
        ensures
            result_model(r) == spec_eval_numeric(self@),
        decreases self, 1nat,
    {
        match self {
            Expression::Constant(c) => Ok(constant_numeric(*c)),
            Expression::Add(ts) => match numeric_vec(ts, precision) {
                Ok(vs) => Ok(Expression::add(vs)),
                Err(x) => Err(x),
            },
            Expression::Mul(ts) => match numeric_vec(ts, precision) {
                Ok(vs) => Ok(Expression::mul(vs)),
                Err(x) => Err(x),
            },
            Expression::Pow(b, e) => {
                let bv = match b.eval_numeric(precision) {
                    Ok(v) => v,
                    Err(x) => {
                        return Err(x);
                    },
                };
                let ev = match e.eval_numeric(precision) {
                    Ok(v) => v,
                    Err(x) => {
                        return Err(x);
                    },
                };
                if is_zero_number(&bv) && is_negative_number(&ev) {
                    return Err(MathError::DivisionByZero);
                }
                Ok(Expression::pow(bv, ev))
            },
            Expression::Function { name, args } => {
                let a = match numeric_vec(args, precision) {
                    Ok(a) => a,
                    Err(x) => {
                        return Err(x);
                    },
                };
                match evaluate_function_dispatch(name, &a) {
                    Some(v) => Ok(v),
                    None => Ok(Expression::Function { name: name.clone(), args: a }),
                }
            },
            Expression::Matrix(m) => {
                let ghost rs = view_rows(m.rows@);
                proof {
                    lemma_view_rows(m.rows@);
                }
                let mut rows: Vec<Vec<Expression>> = Vec::new();
                proof {
                    assert(rs.take(0) =~= Seq::<Seq<ExprModel>>::empty());
                    lemma_view_rows(rows@);
                    assert(view_rows(rows@) =~= Seq::<Seq<ExprModel>>::empty());
                }
                let mut i: usize = 0;
                #[verifier::loop_isolation(false)]
                while i < m.rows.len()
                    invariant
                        i <= m.rows.len(),
                        rs == view_rows(m.rows@),
                        rows@.len() == i,
                        numeric_rows(rs.take(i as int)) == Ok::<Seq<Seq<ExprModel>>, ErrorModel>(view_rows(rows@)),
                    decreases m.rows.len() - i,
                {
                    proof {
                        vstd::std_specs::vec::axiom_vec_index_decreases(m.rows, i as int);
                        assert(decreases_to!(self => m.rows));
                        lemma_numeric_rows_step(rs, i as int);
                    }
                    match numeric_vec(&m.rows[i], precision) {
                        Ok(row) => {
                            let ghost before = rows@;
                            rows.push(row);
                            proof {
                                lemma_view_rows(rows@);
                                lemma_view_rows(before);
                                assert(view_rows(rows@) =~= view_rows(before).push(view_seq(rows@[i as int]@)));
                            }
                        },
                        Err(x) => {
                            proof {
                                lemma_numeric_rows_err(rs, i + 1);
                            }
                            return Err(x);
                        },
                    }
                    i = i + 1;
                }
                assert(rs.take(m.rows.len() as int) =~= rs);
                Ok(Expression::Matrix(Box::new(MatrixData { rows })))
            },
            Expression::FiniteSet(ts) => match numeric_vec(ts, precision) {
                Ok(vs) => Ok(Expression::FiniteSet(vs)),
                Err(x) => Err(x),
            },
            Expression::Complex(c) => {
                let re = match c.real.eval_numeric(precision) {
                    Ok(v) => v,
                    Err(x) => {
                        return Err(x);
                    },
                };
                let im = match c.imag.eval_numeric(precision) {
                    Ok(v) => v,
                    Err(x) => {
                        return Err(x);
                    },
                };
                Ok(Expression::Complex(Box::new(ComplexData { real: re, imag: im })))
            },
            Expression::Interval(iv) => {
                let start = match iv.start.eval_numeric(precision) {
                    Ok(v) => v,
                    Err(x) => {
                        return Err(x);
                    },
                };
                let end = match iv.end.eval_numeric(precision) {
                    Ok(v) => v,
                    Err(x) => {
                        return Err(x);
                    },
                };
                Ok(
                    Expression::Interval(
                        Box::new(
                            IntervalData {
                                start,
                                end,
                                start_inclusive: iv.start_inclusive,
                                end_inclusive: iv.end_inclusive,
                            },
                        ),
                    ),
                )
            },
            Expression::Piecewise(p) => {
                let ghost ps = view_pieces(p.pieces@);
                proof {
                    lemma_view_pieces(p.pieces@);
                }
                let mut pieces: Vec<(Expression, Expression)> = Vec::new();
                proof {
                    assert(ps.take(0) =~= Seq::<(ExprModel, ExprModel)>::empty());
                    lemma_view_pieces(pieces@);
                    assert(view_pieces(pieces@) =~= Seq::<(ExprModel, ExprModel)>::empty());
                }
                let mut i: usize = 0;
                #[verifier::loop_isolation(false)]
                while i < p.pieces.len()
                    invariant
                        i <= p.pieces.len(),
                        ps == view_pieces(p.pieces@),
                        pieces@.len() == i,
                        numeric_pieces(ps.take(i as int)) == Ok::<Seq<(ExprModel, ExprModel)>, ErrorModel>(view_pieces(pieces@)),
                    decreases p.pieces.len() - i,
                {
                    proof {
                        vstd::std_specs::vec::axiom_vec_index_decreases(p.pieces, i as int);
                        assert(decreases_to!(self => p.pieces));
                        lemma_numeric_pieces_step(ps, i as int);
                    }
                    match p.pieces[i].0.eval_numeric(precision) {
                        Ok(v) => {
                            let c = p.pieces[i].1.deep_clone();
                            let ghost before = pieces@;
                            pieces.push((v, c));
                            proof {
                                lemma_view_pieces(pieces@);
                                lemma_view_pieces(before);
                                assert(view_pieces(pieces@) =~= view_pieces(before).push(
                                    (pieces@[i as int].0@, pieces@[i as int].1@),
                                ));
                            }
                        },
                        Err(x) => {
                            proof {
                                lemma_numeric_pieces_err(ps, i + 1);
                            }
                            return Err(x);
                        },
                    }
                    i = i + 1;
                }
                assert(ps.take(p.pieces.len() as int) =~= ps);
                let default = match &p.default {
                    Some(d) => match d.eval_numeric(precision) {
                        Ok(v) => Some(v),
                        Err(x) => {
                            return Err(x);
                        },
                    },
                    None => None,
                };
                Ok(Expression::Piecewise(Box::new(PiecewiseData { pieces, default })))
            },
            Expression::Relation(r) => {
                let left = match r.left.eval_numeric(precision) {
                    Ok(v) => v,
                    Err(x) => {
                        return Err(x);
                    },
                };
                let right = match r.right.eval_numeric(precision) {
                    Ok(v) => v,
                    Err(x) => {
                        return Err(x);
                    },
                };
                Ok(Expression::Relation(Box::new(RelationData { left, right, relation_type: r.relation_type })))
            },
            _ => Ok(self.deep_clone()),
        }
    }
}

} // verus!
