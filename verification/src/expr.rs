//! The expression tree and its mathematical model.

use crate::bigint::{big_to_i64, BigInteger};
use crate::number::{Number, NumberModel};
use vstd::prelude::*;

verus! {

/// A named variable.
#[derive(Debug, PartialEq, Eq)]
pub struct Symbol {
    pub name: String,
}

impl Symbol {
    /// The variable called `name`.
    pub fn new(name: &str) -> (r: Symbol)
        ensures
            r.name@ == name@,
    {
        Symbol { name: name.to_owned() }
    }

    /// Whether two variables have the same name.
    pub fn same(&self, other: &Symbol) -> (r: bool)
        ensures
            r == (self.name@ == other.name@),
    {
        self.name == other.name
    }
}

impl Clone for Symbol {
    fn clone(&self) -> (r: Self)
        ensures
            r.name@ == self.name@,
    {
        Symbol { name: self.name.clone() }
    }
}

/// Named mathematical constants.
#[derive(Debug, Clone, Copy, PartialEq, Eq, Structural)]
pub enum MathConstant {
    Pi,
    E,
    I,
    Infinity,
    NegativeInfinity,
    Undefined,
    GoldenRatio,
    EulerGamma,
    TribonacciConstant,
}

/// The comparison of a relation.
#[derive(Debug, Clone, Copy, PartialEq, Eq, Structural)]
pub enum RelationType {
    Equal,
    NotEqual,
    Less,
    LessEqual,
    Greater,
    GreaterEqual,
}

/// A matrix, row by row.
#[derive(Debug, PartialEq)]
pub struct MatrixData {
    pub rows: Vec<Vec<Expression>>,
}

/// A complex number `real + imag·i`.
#[derive(Debug, PartialEq)]
pub struct ComplexData {
    pub real: Expression,
    pub imag: Expression,
}

/// An interval between two end points.
#[derive(Debug, PartialEq)]
pub struct IntervalData {
    pub start: Expression,
    pub end: Expression,
    pub start_inclusive: bool,
    pub end_inclusive: bool,
}

/// A piecewise definition: `(value, condition)` pieces and an optional default.
#[derive(Debug, PartialEq)]
pub struct PiecewiseData {
    pub pieces: Vec<(Expression, Expression)>,
    pub default: Option<Expression>,
}

/// A relation `left ⋈ right`.
#[derive(Debug, PartialEq)]
pub struct RelationData {
    pub left: Expression,
    pub right: Expression,
    pub relation_type: RelationType,
}

/// An unevaluated calculus operation.
#[derive(Debug, PartialEq)]
pub enum CalculusData {
    Derivative { expression: Expression, variable: Symbol, order: u32 },
}

/// A symbolic expression.
#[derive(Debug, PartialEq)]
pub enum Expression {
    Number(Number),
    Symbol(Symbol),
    Constant(MathConstant),
    Add(Vec<Expression>),
    Mul(Vec<Expression>),
    Pow(Box<Expression>, Box<Expression>),
    Function { name: String, args: Vec<Expression> },
    Matrix(Box<MatrixData>),
    FiniteSet(Vec<Expression>),
    Complex(Box<ComplexData>),
    Interval(Box<IntervalData>),
    Piecewise(Box<PiecewiseData>),
    Relation(Box<RelationData>),
    Calculus(Box<CalculusData>),
}

/// The mathematical content of an [`Expression`]: the same tree, with names as
/// character sequences and children as sequences.
pub enum ExprModel {
    Number(NumberModel),
    Symbol(Seq<char>),
    Constant(MathConstant),
    Add(Seq<ExprModel>),
    Mul(Seq<ExprModel>),
    Pow(Box<ExprModel>, Box<ExprModel>),
    Function(Seq<char>, Seq<ExprModel>),
    Matrix(Seq<Seq<ExprModel>>),
    FiniteSet(Seq<ExprModel>),
    Complex(Box<ExprModel>, Box<ExprModel>),
    Interval(Box<ExprModel>, Box<ExprModel>, bool, bool),
    Piecewise(Seq<(ExprModel, ExprModel)>, Option<Box<ExprModel>>),
    Relation(Box<ExprModel>, Box<ExprModel>, RelationType),
    Derivative(Box<ExprModel>, Seq<char>, u32),
}

/// Model of the `i`-th expression of `v`.
pub open spec fn view_at(v: Seq<Expression>, i: int) -> ExprModel
    decreases v, 0nat,
{
    if 0 <= i < v.len() {
        v[i].model()
    } else {
        ExprModel::Constant(MathConstant::Undefined)
    }
}

/// Models of a sequence of expressions.
pub open spec fn view_seq(v: Seq<Expression>) -> Seq<ExprModel>
    decreases v, 1nat,
{
    Seq::new(v.len(), |i: int| view_at(v, i))
}

/// Model of the `i`-th row of a matrix.
pub open spec fn row_at(rows: Seq<Vec<Expression>>, i: int) -> Seq<ExprModel>
    decreases rows, 0nat,
{
    if 0 <= i < rows.len() {
        view_seq(rows[i]@)
    } else {
        Seq::empty()
    }
}

/// Models of the rows of a matrix.
pub open spec fn view_rows(rows: Seq<Vec<Expression>>) -> Seq<Seq<ExprModel>>
    decreases rows, 1nat,
{
    Seq::new(rows.len(), |i: int| row_at(rows, i))
}

/// Model of the `i`-th piece of a piecewise definition.
pub open spec fn piece_at(p: Seq<(Expression, Expression)>, i: int) -> (ExprModel, ExprModel)
    decreases p, 0nat,
{
    if 0 <= i < p.len() {
        (p[i].0.model(), p[i].1.model())
    } else {
        (ExprModel::Constant(MathConstant::Undefined), ExprModel::Constant(MathConstant::Undefined))
    }
}

/// Models of the pieces of a piecewise definition.
pub open spec fn view_pieces(p: Seq<(Expression, Expression)>) -> Seq<(ExprModel, ExprModel)>
    decreases p, 1nat,
{
    Seq::new(p.len(), |i: int| piece_at(p, i))
}

impl View for Expression {
    type V = ExprModel;

    open spec fn view(&self) -> ExprModel {
        self.model()
    }
}

impl Expression {
    /// The model of this expression (the same as `@`).
    pub open spec fn model(&self) -> ExprModel
        decreases self, 2nat,
    {
        match self {
            Expression::Number(n) => ExprModel::Number(n@),
            Expression::Symbol(s) => ExprModel::Symbol(s.name@),
            Expression::Constant(c) => ExprModel::Constant(*c),
            Expression::Add(v) => ExprModel::Add(view_seq(v@)),
            Expression::Mul(v) => ExprModel::Mul(view_seq(v@)),
            Expression::Pow(b, e) => ExprModel::Pow(Box::new(b.model()), Box::new(e.model())),
            Expression::Function { name, args } => ExprModel::Function(name@, view_seq(args@)),
            Expression::Matrix(m) => ExprModel::Matrix(view_rows(m.rows@)),
            Expression::FiniteSet(v) => ExprModel::FiniteSet(view_seq(v@)),
            Expression::Complex(c) => ExprModel::Complex(
                Box::new(c.real.model()),
                Box::new(c.imag.model()),
            ),
            Expression::Interval(iv) => ExprModel::Interval(
                Box::new(iv.start.model()),
                Box::new(iv.end.model()),
                iv.start_inclusive,
                iv.end_inclusive,
            ),
            Expression::Piecewise(p) => ExprModel::Piecewise(
                view_pieces(p.pieces@),
                match &p.default {
                    Some(d) => Some(Box::new(d.model())),
                    None => None,
                },
            ),
            Expression::Relation(r) => ExprModel::Relation(
                Box::new(r.left.model()),
                Box::new(r.right.model()),
                r.relation_type,
            ),
            Expression::Calculus(c) => match &**c {
                CalculusData::Derivative { expression, variable, order } => ExprModel::Derivative(
                    Box::new(expression.model()),
                    variable.name@,
                    *order,
                ),
            },
        }
    }
}


/// Length and entries of `view_seq`.
pub proof fn lemma_view_seq(v: Seq<Expression>)
    ensures
        view_seq(v).len() == v.len(),
        forall|i: int| 0 <= i < v.len() ==> #[trigger] view_seq(v)[i] == v[i]@,
{
    assert forall|i: int| 0 <= i < v.len() implies #[trigger] view_seq(v)[i] == v[i]@ by {
        assert(view_at(v, i) == v[i].model());
    }
}

/// Length and entries of `view_rows`.
pub proof fn lemma_view_rows(rows: Seq<Vec<Expression>>)
    ensures
        view_rows(rows).len() == rows.len(),
        forall|i: int| 0 <= i < rows.len() ==> #[trigger] view_rows(rows)[i] == view_seq(rows[i]@),
{
    assert forall|i: int| 0 <= i < rows.len() implies #[trigger] view_rows(rows)[i] == view_seq(rows[i]@) by {
        assert(row_at(rows, i) == view_seq(rows[i]@));
    }
}

/// Length and entries of `view_pieces`.
pub proof fn lemma_view_pieces(p: Seq<(Expression, Expression)>)
    ensures
        view_pieces(p).len() == p.len(),
        forall|i: int| 0 <= i < p.len() ==> #[trigger] view_pieces(p)[i] == (p[i].0@, p[i].1@),
{
    assert forall|i: int| 0 <= i < p.len() implies #[trigger] view_pieces(p)[i] == (p[i].0@, p[i].1@) by {
        assert(piece_at(p, i) == (p[i].0.model(), p[i].1.model()));
    }
}

/// A copy of every expression of `v`.
pub fn clone_vec(v: &Vec<Expression>) -> (r: Vec<Expression>)
    ensures
        view_seq(r@) == view_seq(v@),
    decreases v, 0nat,
{
    let mut out: Vec<Expression> = Vec::new();
    let mut i: usize = 0;
    while i < v.len()
        invariant
            i <= v.len(),
            out@.len() == i,
            forall|j: int| 0 <= j < i ==> #[trigger] out@[j]@ == v@[j]@,
        decreases v.len() - i,
    {
        proof {
            vstd::std_specs::vec::axiom_vec_index_decreases(*v, i as int);
        }
        out.push(v[i].deep_clone());
        i = i + 1;
    }
    proof {
        lemma_view_seq(out@);
        lemma_view_seq(v@);
    }
    assert(view_seq(out@) =~= view_seq(v@));
    out
}

/// Whether two sequences of expressions have equal models.
pub fn same_vec(a: &Vec<Expression>, b: &Vec<Expression>) -> (r: bool)
    ensures
        r == (view_seq(a@) == view_seq(b@)),
    decreases a, 0nat,
{
    proof {
        lemma_view_seq(a@);
        lemma_view_seq(b@);
    }
    if a.len() != b.len() {
        return false;
    }
    let mut i: usize = 0;
    #[verifier::loop_isolation(false)]
    while i < a.len()
        invariant
            a.len() == b.len(),
            i <= a.len(),
            forall|j: int| 0 <= j < i ==> #[trigger] a@[j]@ == b@[j]@,
        decreases a.len() - i,
    {
        proof {
            vstd::std_specs::vec::axiom_vec_index_decreases(*a, i as int);
        }
        if !a[i].same(&b[i]) {
            assert(view_seq(a@)[i as int] != view_seq(b@)[i as int]);
            return false;
        }
        i = i + 1;
    }
    assert(view_seq(a@) =~= view_seq(b@));
    true
}

impl Expression {
    /// A copy of the expression.
    pub fn deep_clone(&self) -> (r: Expression)
        ensures
            r@ == self@,
        decreases self, 1nat,
    {
        match self {
            Expression::Number(n) => Expression::Number(n.clone()),
            Expression::Symbol(s) => Expression::Symbol(s.clone()),
            Expression::Constant(c) => Expression::Constant(*c),
            Expression::Add(v) => Expression::Add(clone_vec(v)),
            Expression::Mul(v) => Expression::Mul(clone_vec(v)),
            Expression::Pow(b, e) => Expression::Pow(Box::new(b.deep_clone()), Box::new(e.deep_clone())),
            Expression::Function { name, args } => Expression::Function {
                name: name.clone(),
                args: clone_vec(args),
            },
            Expression::Matrix(m) => {
                let mut rows: Vec<Vec<Expression>> = Vec::new();
                let mut i: usize = 0;
                #[verifier::loop_isolation(false)]
                while i < m.rows.len()
                    invariant
                        i <= m.rows.len(),
                        rows@.len() == i,
                        forall|j: int| 0 <= j < i ==> #[trigger] view_seq(rows@[j]@) == view_seq(m.rows@[j]@),
                    decreases m.rows.len() - i,
                {
                    proof {
                        vstd::std_specs::vec::axiom_vec_index_decreases(m.rows, i as int);
                        assert(decreases_to!(self => m.rows));
                    }
                    rows.push(clone_vec(&m.rows[i]));
                    i = i + 1;
                }
                proof {
                    lemma_view_rows(rows@);
                    lemma_view_rows(m.rows@);
                }
                assert(view_rows(rows@) =~= view_rows(m.rows@));
                Expression::Matrix(Box::new(MatrixData { rows }))
            },
            Expression::FiniteSet(v) => Expression::FiniteSet(clone_vec(v)),
            Expression::Complex(c) => Expression::Complex(Box::new(ComplexData {
                real: c.real.deep_clone(),
                imag: c.imag.deep_clone(),
            })),
            Expression::Interval(iv) => Expression::Interval(Box::new(IntervalData {
                start: iv.start.deep_clone(),
                end: iv.end.deep_clone(),
                start_inclusive: iv.start_inclusive,
                end_inclusive: iv.end_inclusive,
            })),
            Expression::Piecewise(p) => {
                let mut pieces: Vec<(Expression, Expression)> = Vec::new();
                let mut i: usize = 0;
                #[verifier::loop_isolation(false)]
                while i < p.pieces.len()
                    invariant
                        i <= p.pieces.len(),
                        pieces@.len() == i,
                        forall|j: int| 0 <= j < i ==> #[trigger] pieces@[j].0@ == p.pieces@[j].0@ && pieces@[j].1@ == p.pieces@[j].1@,
                    decreases p.pieces.len() - i,
                {
                    proof {
                        vstd::std_specs::vec::axiom_vec_index_decreases(p.pieces, i as int);
                        assert(decreases_to!(self => p.pieces));
                    }
                    let v = p.pieces[i].0.deep_clone();
                    let c = p.pieces[i].1.deep_clone();
                    pieces.push((v, c));
                    i = i + 1;
                }
                proof {
                    lemma_view_pieces(pieces@);
                    lemma_view_pieces(p.pieces@);
                }
                assert(view_pieces(pieces@) =~= view_pieces(p.pieces@));
                let default = match &p.default {
                    Some(d) => Some(d.deep_clone()),
                    None => None,
                };
                Expression::Piecewise(Box::new(PiecewiseData { pieces, default }))
            },
            Expression::Relation(r) => Expression::Relation(Box::new(RelationData {
                left: r.left.deep_clone(),
                right: r.right.deep_clone(),
                relation_type: r.relation_type,
            })),
            Expression::Calculus(c) => match &**c {
                CalculusData::Derivative { expression, variable, order } => Expression::Calculus(
                    Box::new(CalculusData::Derivative {
                        expression: expression.deep_clone(),
                        variable: variable.clone(),
                        order: *order,
                    }),
                ),
            },
        }
    }

    /// Whether two expressions have equal models (structural equality).
    pub fn same(&self, other: &Expression) -> (r: bool)
        ensures
            r == (self@ == other@),
        decreases self, 1nat,
    {
        match (self, other) {
            (Expression::Number(a), Expression::Number(b)) => a.same(b),
            (Expression::Symbol(a), Expression::Symbol(b)) => a.same(b),
            (Expression::Constant(a), Expression::Constant(b)) => *a == *b,
            (Expression::Add(a), Expression::Add(b)) => same_vec(a, b),
            (Expression::Mul(a), Expression::Mul(b)) => same_vec(a, b),
            (Expression::Pow(b1, e1), Expression::Pow(b2, e2)) => b1.same(b2) && e1.same(e2),
            (
                Expression::Function { name: n1, args: a1 },
                Expression::Function { name: n2, args: a2 },
            ) => *n1 == *n2 && same_vec(a1, a2),
            (Expression::Matrix(m1), Expression::Matrix(m2)) => {
                proof {
                    lemma_view_rows(m1.rows@);
                    lemma_view_rows(m2.rows@);
                }
                if m1.rows.len() != m2.rows.len() {
                    return false;
                }
                let mut i: usize = 0;
                #[verifier::loop_isolation(false)]
                while i < m1.rows.len()
                    invariant
                        m1.rows.len() == m2.rows.len(),
                        i <= m1.rows.len(),
                        forall|j: int| 0 <= j < i ==> #[trigger] view_seq(m1.rows@[j]@) == view_seq(m2.rows@[j]@),
                    decreases m1.rows.len() - i,
                {
                    proof {
                        vstd::std_specs::vec::axiom_vec_index_decreases(m1.rows, i as int);
                        assert(decreases_to!(self => m1.rows));
                    }
                    if !same_vec(&m1.rows[i], &m2.rows[i]) {
                        assert(view_rows(m1.rows@)[i as int] != view_rows(m2.rows@)[i as int]);
                        return false;
                    }
                    i = i + 1;
                }
                assert(view_rows(m1.rows@) =~= view_rows(m2.rows@));
                true
            },
            (Expression::FiniteSet(a), Expression::FiniteSet(b)) => same_vec(a, b),
            (Expression::Complex(c1), Expression::Complex(c2)) => c1.real.same(&c2.real)
                && c1.imag.same(&c2.imag),
            (Expression::Interval(i1), Expression::Interval(i2)) => i1.start.same(&i2.start)
                && i1.end.same(&i2.end) && i1.start_inclusive == i2.start_inclusive
                && i1.end_inclusive == i2.end_inclusive,
            (Expression::Piecewise(p1), Expression::Piecewise(p2)) => {
                let same_default = match (&p1.default, &p2.default) {
                    (Some(d1), Some(d2)) => d1.same(d2),
                    (None, None) => true,
                    _ => false,
                };
                if !same_default {
                    return false;
                }
                proof {
                    lemma_view_pieces(p1.pieces@);
                    lemma_view_pieces(p2.pieces@);
                }
                if p1.pieces.len() != p2.pieces.len() {
                    return false;
                }
                let mut i: usize = 0;
                #[verifier::loop_isolation(false)]
                while i < p1.pieces.len()
                    invariant
                        p1.pieces.len() == p2.pieces.len(),
                        i <= p1.pieces.len(),
                        forall|j: int| #![trigger p1.pieces@[j]] 0 <= j < i ==> p1.pieces@[j].0@ == p2.pieces@[j].0@ && p1.pieces@[j].1@ == p2.pieces@[j].1@,
                    decreases p1.pieces.len() - i,
                {
                    proof {
                        vstd::std_specs::vec::axiom_vec_index_decreases(p1.pieces, i as int);
                        assert(decreases_to!(self => p1.pieces));
                    }
                    let s0 = p1.pieces[i].0.same(&p2.pieces[i].0);
                    let s1 = p1.pieces[i].1.same(&p2.pieces[i].1);
                    if !s0 || !s1 {
                        assert(view_pieces(p1.pieces@)[i as int] != view_pieces(p2.pieces@)[i as int]);
                        return false;
                    }
                    i = i + 1;
                }
                assert(view_pieces(p1.pieces@) =~= view_pieces(p2.pieces@));
                true
            },
            (Expression::Relation(r1), Expression::Relation(r2)) => r1.left.same(&r2.left)
                && r1.right.same(&r2.right) && r1.relation_type == r2.relation_type,
            (Expression::Calculus(c1), Expression::Calculus(c2)) => match (&**c1, &**c2) {
                (
                    CalculusData::Derivative { expression: x1, variable: v1, order: o1 },
                    CalculusData::Derivative { expression: x2, variable: v2, order: o2 },
                ) => x1.same(x2) && v1.same(v2) && *o1 == *o2,
            },
            _ => false,
        }
    }
}

impl Clone for Expression {
    fn clone(&self) -> (r: Self)
        ensures
            r@ == self@,
    {
        self.deep_clone()
    }
}


/// The model of an integer of any size: a machine integer when it fits in `i64`.
pub open spec fn number_model_of(c: int) -> ExprModel {
    if i64::MIN <= c <= i64::MAX {
        ExprModel::Number(NumberModel::Integer(c))
    } else {
        ExprModel::Number(NumberModel::BigInteger(c))
    }
}

/// The model of the integer `n`.
pub open spec fn int_model(n: int) -> ExprModel {
    ExprModel::Number(NumberModel::Integer(n))
}

impl Expression {
    /// The integer `n`.
    pub fn integer(n: i64) -> (r: Expression)
        ensures
            r@ == int_model(n as int),
    {
        Expression::Number(Number::Integer(n))
    }

    /// The double whose IEEE-754 bit pattern is `bits`.
    pub fn float_bits(bits: u64) -> (r: Expression)
        ensures
            r@ == ExprModel::Number(NumberModel::Float(bits)),
    {
        Expression::Number(Number::Float(bits))
    }

    /// The integer `n`, as a machine integer when it fits in `i64`.
    pub fn big_integer(n: BigInteger) -> (r: Expression)
        ensures
            r@ == number_model_of(n@),
    {
        match big_to_i64(&n) {
            Some(v) => Expression::Number(Number::Integer(v)),
            None => Expression::Number(Number::BigInteger(n)),
        }
    }

    /// The variable `s`.
    pub fn symbol(s: Symbol) -> (r: Expression)
        ensures
            r@ == ExprModel::Symbol(s.name@),
    {
        Expression::Symbol(s)
    }

    /// The constant π.
    pub fn pi() -> (r: Expression)
        ensures
            r@ == ExprModel::Constant(MathConstant::Pi),
    {
        Expression::Constant(MathConstant::Pi)
    }

    /// The constant e.
    pub fn e() -> (r: Expression)
        ensures
            r@ == ExprModel::Constant(MathConstant::E),
    {
        Expression::Constant(MathConstant::E)
    }

    /// The imaginary unit.
    pub fn i() -> (r: Expression)
        ensures
            r@ == ExprModel::Constant(MathConstant::I),
    {
        Expression::Constant(MathConstant::I)
    }

    /// The application of the function `name` to `args`.
    pub fn function(name: &str, args: Vec<Expression>) -> (r: Expression)
        ensures
            r@ == ExprModel::Function(name@, view_seq(args@)),
    {
        Expression::Function { name: name.to_owned(), args }
    }

    /// The matrix with the given rows.
    pub fn matrix(rows: Vec<Vec<Expression>>) -> (r: Expression)
        ensures
            r@ == ExprModel::Matrix(view_rows(rows@)),
    {
        Expression::Matrix(Box::new(MatrixData { rows }))
    }

    /// The finite set of `elements`.
    pub fn set(elements: Vec<Expression>) -> (r: Expression)
        ensures
            r@ == ExprModel::FiniteSet(view_seq(elements@)),
    {
        Expression::FiniteSet(elements)
    }

    /// The complex number `real + imag·i`.
    pub fn complex(re: Expression, im: Expression) -> (r: Expression)
        ensures
            r@ == ExprModel::Complex(Box::new(re@), Box::new(im@)),
    {
        Expression::Complex(Box::new(ComplexData { real: re, imag: im }))
    }

    /// The interval from `start` to `end`.
    pub fn interval(start: Expression, end: Expression, start_inclusive: bool, end_inclusive: bool) -> (r: Expression)
        ensures
            r@ == ExprModel::Interval(Box::new(start@), Box::new(end@), start_inclusive, end_inclusive),
    {
        Expression::Interval(Box::new(IntervalData { start, end, start_inclusive, end_inclusive }))
    }

    /// The piecewise definition with `(value, condition)` pieces and a default.
    pub fn piecewise(pieces: Vec<(Expression, Expression)>, default: Option<Expression>) -> (r: Expression)
        ensures
            r@ == ExprModel::Piecewise(
                view_pieces(pieces@),
                match default {
                    Some(d) => Some(Box::new(d@)),
                    None => None,
                },
            ),
    {
        Expression::Piecewise(Box::new(PiecewiseData { pieces, default }))
    }

    /// The relation `left ⋈ right`.
    pub fn relation(left: Expression, right: Expression, relation_type: RelationType) -> (r: Expression)
        ensures
            r@ == ExprModel::Relation(Box::new(left@), Box::new(right@), relation_type),
    {
        Expression::Relation(Box::new(RelationData { left, right, relation_type }))
    }

    /// The `order`-th derivative of `expression` with respect to `variable`.
    pub fn derivative(expression: Expression, variable: Symbol, order: u32) -> (r: Expression)
        ensures
            r@ == ExprModel::Derivative(Box::new(expression@), variable.name@, order),
    {
        Expression::Calculus(Box::new(CalculusData::Derivative { expression, variable, order }))
    }
}

impl MatrixData {
    /// Number of rows, and number of entries of the first row.
    pub fn dimensions(&self) -> (r: (usize, usize))
        ensures
            r.0 == self.rows.len(),
            r.1 == (if self.rows.len() > 0 { self.rows@[0].len() } else { 0 }),
    {
        if self.rows.len() > 0 {
            (self.rows.len(), self.rows[0].len())
        } else {
            (0, 0)
        }
    }

    /// A copy of the entry in row `i`, column `j`.
    pub fn get_element(&self, i: usize, j: usize) -> (r: Expression)
        requires
            i < self.rows.len(),
            j < self.rows@[i as int].len(),
        ensures
            r@ == self.rows@[i as int]@[j as int]@,
    {
        self.rows[i][j].deep_clone()
    }
}

} // verus!
