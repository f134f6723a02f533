//! Common factor extraction and division by a factor.

use crate::arith::{abs, gcd, power};
use crate::bigint::{big_gcd, big_mul, BigInteger};
use crate::construct::{non_consts, prod_consts, spec_mul, spec_pow};
use crate::expr::{int_model, lemma_view_seq, number_model_of, view_seq, ExprModel, Expression};
use crate::number::{Number, NumberModel};
use crate::value::{
    law_mul_keeps_value, law_pow_keeps_value, lemma_power_adds, lemma_product_split, product_values,
    value,
};
use vstd::prelude::*;

verus! {

/// The factors read off an expression: a non-trivial integer, a variable, the
/// factors of a product, the base of a power, or the expression itself.
pub open spec fn spec_extract_factors(m: ExprModel) -> Seq<ExprModel> {
    match m {
        ExprModel::Number(NumberModel::Integer(n)) => if n != 0 && n != 1 {
            seq![m]
        } else {
            Seq::empty()
        },
        ExprModel::Symbol(_) => seq![m],
        ExprModel::Mul(fs) => fs,
        ExprModel::Pow(base, _) => seq![*base],
        _ => seq![m],
    }
}

/// The members of `s1` matched, in order, against the members of `s2`, each
/// member of `s2` matching at most once (the first equal one not matched yet);
/// and the members of `s2` left unmatched.
pub open spec fn match_members(s1: Seq<ExprModel>, s2: Seq<ExprModel>) -> (Seq<ExprModel>, Seq<ExprModel>)
    decreases s1.len(),
{
    if s1.len() == 0 {
        (Seq::empty(), s2)
    } else {
        let (c, r) = match_members(s1.drop_last(), s2);
        match first_index_of(r, s1.last()) {
            Some(i) => (c.push(s1.last()), r.remove(i)),
            None => (c, r),
        }
    }
}

/// The members of `s1` that also occur in `s2`, in order, counted with their
/// multiplicity in both.
pub open spec fn common_members(s1: Seq<ExprModel>, s2: Seq<ExprModel>) -> Seq<ExprModel> {
    match_members(s1, s2).0
}

/// The expression is a machine integer.
pub open spec fn is_machine_integer(m: ExprModel) -> bool {
    m matches ExprModel::Number(NumberModel::Integer(_))
}

/// The members of `s` that are not machine integers, in order.
pub open spec fn drop_integers(s: Seq<ExprModel>) -> Seq<ExprModel>
    decreases s.len(),
{
    if s.len() == 0 {
        Seq::empty()
    } else if is_machine_integer(s.last()) {
        drop_integers(s.drop_last())
    } else {
        drop_integers(s.drop_last()).push(s.last())
    }
}

/// The first machine integer among the factors.
pub open spec fn first_integer(s: Seq<ExprModel>) -> Option<int>
    decreases s.len(),
{
    if s.len() == 0 {
        None
    } else {
        match s[0] {
            ExprModel::Number(NumberModel::Integer(n)) => Some(n),
            _ => first_integer(s.drop_first()),
        }
    }
}

/// The intersection of two factor lists: the shared members of the first; when
/// both lists hold integers whose first ones have a gcd other than one, the
/// shared members that are not integers followed by that gcd.
pub open spec fn spec_intersect(s1: Seq<ExprModel>, s2: Seq<ExprModel>) -> Seq<ExprModel> {
    let common = common_members(s1, s2);
    match (first_integer(s1), first_integer(s2)) {
        (Some(n1), Some(n2)) => {
            let g = gcd(abs(n1), abs(n2)) as int;
            if g != 1 {
                drop_integers(common).push(number_model_of(g))
            } else {
                common
            }
        },
        _ => common,
    }
}

/// The factors shared by all the terms, intersected from the first term on.
pub open spec fn common_factor_list(ts: Seq<ExprModel>) -> Seq<ExprModel>
    decreases ts.len(),
{
    if ts.len() <= 1 {
        if ts.len() == 0 {
            Seq::empty()
        } else {
            spec_extract_factors(ts[0])
        }
    } else {
        spec_intersect(common_factor_list(ts.drop_last()), spec_extract_factors(ts.last()))
    }
}

/// The common factor of the terms: one when they share none, else their product.
pub open spec fn spec_common_factor(ts: Seq<ExprModel>) -> ExprModel {
    let c = common_factor_list(ts);
    if ts.len() == 0 || c.len() == 0 {
        int_model(1)
    } else {
        spec_mul(c)
    }
}

impl Expression {
    /// Extract factors from an expression.
    pub fn extract_factors(&self, expr: &Expression) -> (r: Vec<Expression>)
        ensures
            view_seq(r@) == spec_extract_factors(expr@),
    {
        let r = match expr {
            Expression::Number(Number::Integer(n)) => {
                if *n != 0 && *n != 1 {
                    vec![expr.clone()]
                } else {
                    vec![]
                }
            },
            Expression::Symbol(_) => vec![expr.clone()],
            Expression::Mul(factors) => crate::expr::clone_vec(factors),
            Expression::Pow(base, _exp) => vec![(**base).clone()],
            _ => vec![expr.clone()],
        };
        proof {
            lemma_view_seq(r@);
            assert(view_seq(r@) =~= spec_extract_factors(expr@));
        }
        r
    }

    /// Extract the first machine-integer factor, as a big integer.
    pub fn extract_numeric_factor(&self, factors: &[Expression]) -> (r: Option<BigInteger>)
        ensures
            r is Some <==> first_integer(view_seq(factors@)) is Some,
            r matches Some(b) ==> first_integer(view_seq(factors@)) == Some(b@),
    {
        let ghost fs = view_seq(factors@);
        proof {
            lemma_view_seq(factors@);
        }
        let mut i: usize = 0;
        assert(fs.subrange(0, fs.len() as int) =~= fs);
        while i < factors.len()
            invariant
                i <= factors.len(),
                fs == view_seq(factors@),
                fs.len() == factors.len(),
                forall|j: int| 0 <= j < factors.len() ==> #[trigger] fs[j] == factors@[j]@,
                first_integer(fs) == first_integer(fs.subrange(i as int, fs.len() as int)),
            decreases factors.len() - i,
        {
            let ghost sub = fs.subrange(i as int, fs.len() as int);
            assert(sub.drop_first() =~= fs.subrange(i + 1, fs.len() as int));
            assert(sub[0] == factors@[i as int]@);
            if let Expression::Number(Number::Integer(n)) = &factors[i] {
                return Some(BigInteger::from_i64(*n));
            }
            i = i + 1;
        }
        assert(fs.subrange(i as int, fs.len() as int).len() == 0);
        None
    }

    /// The members of `factors1` that also occur in `factors2`, each member of
    /// `factors2` matched once (see [`match_members`]).
    fn shared_members(factors1: &[Expression], factors2: &[Expression]) -> (r: Vec<Expression>)
        ensures
            view_seq(r@) == common_members(view_seq(factors1@), view_seq(factors2@)),
    {
        let ghost s1 = view_seq(factors1@);
        let ghost s2 = view_seq(factors2@);
        proof {
            lemma_view_seq(factors1@);
            lemma_view_seq(factors2@);
        }
        let mut common: Vec<Expression> = Vec::new();
        let mut remaining: Vec<Expression> = Vec::new();
        let mut k: usize = 0;
        while k < factors2.len()
            invariant
                k <= factors2.len(),
                s2 == view_seq(factors2@),
                s2.len() == factors2.len(),
                forall|j: int| 0 <= j < factors2.len() ==> #[trigger] s2[j] == factors2@[j]@,
                remaining@.len() == k,
                forall|j: int| 0 <= j < k ==> #[trigger] remaining@[j]@ == s2[j],
            decreases factors2.len() - k,
        {
            remaining.push(factors2[k].clone());
            k = k + 1;
        }
        proof {
            lemma_view_seq(remaining@);
            lemma_view_seq(common@);
            assert(view_seq(remaining@) =~= s2);
            assert(view_seq(common@) =~= Seq::<ExprModel>::empty());
            assert(s1.take(0) =~= Seq::<ExprModel>::empty());
        }
        let mut i: usize = 0;
        while i < factors1.len()
            invariant
                i <= factors1.len(),
                s1 == view_seq(factors1@),
                s2 == view_seq(factors2@),
                s1.len() == factors1.len(),
                forall|j: int| 0 <= j < factors1.len() ==> #[trigger] s1[j] == factors1@[j]@,
                (view_seq(common@), view_seq(remaining@)) == match_members(s1.take(i as int), s2),
            decreases factors1.len() - i,
        {
            assert(s1.take(i + 1).drop_last() =~= s1.take(i as int));
            assert(s1.take(i + 1).last() == s1[i as int]);
            match position_of(&remaining, &factors1[i]) {
                Some(j) => {
                    let ghost old_common = common@;
                    let ghost old_remaining = remaining@;
                    common.push(factors1[i].clone());
                    remaining.remove(j);
                    proof {
                        lemma_view_seq(common@);
                        lemma_view_seq(old_common);
                        lemma_view_seq(remaining@);
                        lemma_view_seq(old_remaining);
                        assert(view_seq(common@) =~= view_seq(old_common).push(s1[i as int]));
                        assert(view_seq(remaining@) =~= view_seq(old_remaining).remove(j as int));
                    }
                },
                None => {},
            }
            i = i + 1;
        }
        assert(s1.take(factors1.len() as int) =~= s1);
        common
    }

    /// The members of `v` that are not machine integers.
    fn without_integers(v: Vec<Expression>) -> (r: Vec<Expression>)
        ensures
            view_seq(r@) == drop_integers(view_seq(v@)),
    {
        let ghost s = view_seq(v@);
        proof {
            lemma_view_seq(v@);
        }
        let mut out: Vec<Expression> = Vec::new();
        let mut i: usize = 0;
        proof {
            lemma_view_seq(out@);
            assert(view_seq(out@) =~= Seq::<ExprModel>::empty());
            assert(s.take(0) =~= Seq::<ExprModel>::empty());
        }
        while i < v.len()
            invariant
                i <= v.len(),
                s == view_seq(v@),
                s.len() == v.len(),
                forall|j: int| 0 <= j < v.len() ==> #[trigger] s[j] == v@[j]@,
                view_seq(out@) == drop_integers(s.take(i as int)),
            decreases v.len() - i,
        {
            assert(s.take(i + 1).drop_last() =~= s.take(i as int));
            assert(s.take(i + 1).last() == s[i as int]);
            let integer = match &v[i] {
                Expression::Number(Number::Integer(_)) => true,
                _ => false,
            };
            if !integer {
                let ghost before = out@;
                out.push(v[i].clone());
                proof {
                    lemma_view_seq(out@);
                    lemma_view_seq(before);
                    assert(view_seq(out@) =~= view_seq(before).push(s[i as int]));
                }
            }
            i = i + 1;
        }
        assert(s.take(v.len() as int) =~= s);
        out
    }

    /// Find intersection of two factor lists.
    pub fn intersect_factors(&self, factors1: &[Expression], factors2: &[Expression]) -> (r: Vec<Expression>)
        ensures
            view_seq(r@) == spec_intersect(view_seq(factors1@), view_seq(factors2@)),
    {
        let mut common = Self::shared_members(factors1, factors2);
        let num1 = self.extract_numeric_factor(factors1);
        let num2 = self.extract_numeric_factor(factors2);
        match (num1, num2) {
            (Some(n1), Some(n2)) => {
                let gcd_num = big_gcd(&n1, &n2);
                if !gcd_num.is_one() {
                    common = Self::without_integers(common);
                    let ghost old_common = common@;
                    common.push(Expression::big_integer(gcd_num));
                    proof {
                        lemma_view_seq(common@);
                        lemma_view_seq(old_common);
                        assert(view_seq(common@) =~= view_seq(old_common).push(
                            number_model_of(gcd(abs(n1@), abs(n2@)) as int),
                        ));
                    }
                }
            },
            _ => {},
        }
        common
    }

    /// Find the common factor of a list of terms (one when there is none).
    pub fn find_common_factor_in_terms(&self, terms: &[Expression]) -> (r: Expression)
        ensures
            r@ == spec_common_factor(view_seq(terms@)),
    {
        let ghost ts = view_seq(terms@);
        proof {
            lemma_view_seq(terms@);
        }
        if terms.len() == 0 {
            return Expression::integer(1);
        }
        let mut common = self.extract_factors(&terms[0]);
        proof {
            assert(ts.take(1).len() == 1);
            assert(ts.take(1)[0] == ts[0]);
        }
        let mut i: usize = 1;
        while i < terms.len()
            invariant
                1 <= i <= terms.len(),
                ts == view_seq(terms@),
                ts.len() == terms.len(),
                forall|j: int| 0 <= j < terms.len() ==> #[trigger] ts[j] == terms@[j]@,
                view_seq(common@) == common_factor_list(ts.take(i as int)),
            decreases terms.len() - i,
        {
            assert(ts.take(i + 1).drop_last() =~= ts.take(i as int));
            assert(ts.take(i + 1).last() == ts[i as int]);
            let term_factors = self.extract_factors(&terms[i]);
            common = self.intersect_factors(&common, &term_factors);
            if common.len() == 0 {
                proof {
                    lemma_view_seq(common@);
                    lemma_common_list_stays_empty(ts, i + 1);
                }
                return Expression::integer(1);
            }
            i = i + 1;
        }
        assert(ts.take(terms.len() as int) =~= ts);
        proof {
            lemma_view_seq(common@);
        }
        if common.len() == 0 {
            Expression::integer(1)
        } else {
            Expression::mul(common)
        }
    }
}

/// Once the shared factors of the first terms run out, they stay out.
proof fn lemma_common_list_stays_empty(ts: Seq<ExprModel>, i: int)
    requires
        2 <= i <= ts.len(),
        common_factor_list(ts.take(i)).len() == 0,
    ensures
        common_factor_list(ts).len() == 0,
    decreases ts.len() - i,
{
    if i == ts.len() {
        assert(ts.take(i) =~= ts);
    } else {
        let next = ts.take(i + 1);
        assert(next.drop_last() =~= ts.take(i));
        assert(common_members(Seq::<ExprModel>::empty(), spec_extract_factors(next.last())).len() == 0);
        assert(first_integer(Seq::<ExprModel>::empty()) is None);
        lemma_common_list_stays_empty(ts, i + 1);
    }
}

/// Whether some member of `v` equals `x`.
fn contains_expr(v: &[Expression], x: &Expression) -> (r: bool)
    ensures
        r == view_seq(v@).contains(x@),
{
    proof {
        lemma_view_seq(v@);
    }
    let mut i: usize = 0;
    while i < v.len()
        invariant
            i <= v.len(),
            view_seq(v@).len() == v.len(),
            forall|j: int| 0 <= j < v.len() ==> #[trigger] view_seq(v@)[j] == v@[j]@,
            forall|j: int| 0 <= j < i ==> v@[j]@ != x@,
        decreases v.len() - i,
    {
        if v[i].same(x) {
            assert(view_seq(v@)[i as int] == x@);
            return true;
        }
        i = i + 1;
    }
    assert(!view_seq(v@).contains(x@)) by {
        if view_seq(v@).contains(x@) {
            let j = choose|j: int| 0 <= j < view_seq(v@).len() && view_seq(v@)[j] == x@;
            assert(v@[j]@ == x@);
        }
    }
    false
}


/// Is `c` a power `baseᵏ` whose base the factor divides (the factor being that
/// base, or a power of it)?
pub open spec fn spec_power_of_same_base(c: ExprModel, f: ExprModel) -> bool {
    match c {
        ExprModel::Pow(cbase, _) => match f {
            ExprModel::Pow(fbase, _) => fbase == cbase,
            _ => *cbase == f,
        },
        _ => false,
    }
}

/// The exponent a power division takes out: one for the bare base, `m` for
/// `baseᵐ`; nothing when the factor is neither.
pub open spec fn divided_out_exponent(base: ExprModel, f: ExprModel) -> Option<int> {
    if base == f {
        Some(1)
    } else {
        match f {
            ExprModel::Pow(fbase, fexp) => if *fbase == base {
                int_literal(*fexp)
            } else {
                None
            },
            _ => None,
        }
    }
}

/// `xⁿ ÷ x = xⁿ⁻¹` and `xⁿ ÷ xᵐ = xⁿ⁻ᵐ`; any other power is left untouched.
pub open spec fn spec_divide_power(e: ExprModel, f: ExprModel) -> ExprModel {
    match e {
        ExprModel::Pow(base, exp) => match int_literal(*exp) {
            Some(n) => match divided_out_exponent(*base, f) {
                Some(o) => if o <= 0 || o > n {
                    e
                } else {
                    spec_pow(*base, int_model(n - o))
                },
                None => e,
            },
            None => e,
        },
        _ => e,
    }
}

/// Index of the first member of `s` equal to `x`.
pub open spec fn first_index_of(s: Seq<ExprModel>, x: ExprModel) -> Option<int>
    decreases s.len(),
{
    if s.len() == 0 {
        None
    } else if s[0] == x {
        Some(0)
    } else {
        match first_index_of(s.drop_first(), x) {
            Some(i) => Some(i + 1),
            None => None,
        }
    }
}

/// Index of the first member of `s` that is a power of the factor's base.
pub open spec fn first_power_index(s: Seq<ExprModel>, f: ExprModel) -> Option<int>
    decreases s.len(),
{
    if s.len() == 0 {
        None
    } else if spec_power_of_same_base(s[0], f) {
        Some(0)
    } else {
        match first_power_index(s.drop_first(), f) {
            Some(i) => Some(i + 1),
            None => None,
        }
    }
}

/// What is left of a product: one, a single factor, or the product of the rest.
pub open spec fn collapse_remaining(rs: Seq<ExprModel>) -> ExprModel {
    if rs.len() == 0 {
        int_model(1)
    } else if rs.len() == 1 {
        rs[0]
    } else {
        spec_mul(rs)
    }
}

/// The quotient `a / b` rounded toward zero, as Rust's `/` computes it.
pub open spec fn trunc_quotient(a: int, b: int) -> int {
    if (a < 0) == (b < 0) {
        (abs(a) / abs(b)) as int
    } else {
        -((abs(a) / abs(b)) as int)
    }
}

/// The value of a machine-integer literal.
pub open spec fn int_literal(m: ExprModel) -> Option<int> {
    match m {
        ExprModel::Number(NumberModel::Integer(n)) => Some(n),
        _ => None,
    }
}

/// Division by a factor that is not itself a product.
pub open spec fn spec_divide_atom(e: ExprModel, f: ExprModel) -> ExprModel {
    match e {
        ExprModel::Number(NumberModel::Integer(a)) => match f {
            ExprModel::Number(NumberModel::Integer(b)) => if b != 0 && abs(a) % abs(b) == 0 {
                int_model(trunc_quotient(a, b))
            } else {
                e
            },
            _ => e,
        },
        ExprModel::Symbol(s1) => match f {
            ExprModel::Symbol(s2) => if s1 == s2 {
                int_model(1)
            } else {
                e
            },
            _ => e,
        },
        ExprModel::Pow(_, _) => spec_divide_power(e, f),
        ExprModel::Mul(fs) => match first_index_of(fs, f) {
            Some(p) => collapse_remaining(fs.remove(p)),
            None => match first_power_index(fs, f) {
                Some(p) => collapse_remaining(fs.update(p, spec_divide_power(fs[p], f))),
                None => e,
            },
        },
        _ => e,
    }
}

/// Division by a factor; a product factor divides by each of its components in turn.
pub open spec fn spec_divide(e: ExprModel, f: ExprModel) -> ExprModel
    decreases f, 1nat,
{
    match f {
        ExprModel::Mul(cs) => divide_by_each(e, cs),
        _ => spec_divide_atom(e, f),
    }
}

/// `e` divided by each of `cs`, first to last.
pub open spec fn divide_by_each(e: ExprModel, cs: Seq<ExprModel>) -> ExprModel
    decreases cs, 0nat,
{
    if cs.len() == 0 {
        e
    } else {
        spec_divide(divide_by_each(e, cs.drop_last()), cs.last())
    }
}

/// The division reaches `i64::MIN ÷ -1`, whose remainder overflows.
pub open spec fn spec_divide_overflows(e: ExprModel, f: ExprModel) -> bool
    decreases f, 1nat,
{
    match f {
        ExprModel::Mul(cs) => each_overflows(e, cs),
        _ => e == int_model(i64::MIN as int) && f == int_model(-1),
    }
}

/// Some step of dividing `e` by each of `cs` overflows.
pub open spec fn each_overflows(e: ExprModel, cs: Seq<ExprModel>) -> bool
    decreases cs, 0nat,
{
    if cs.len() == 0 {
        false
    } else {
        each_overflows(e, cs.drop_last()) || spec_divide_overflows(
            divide_by_each(e, cs.drop_last()),
            cs.last(),
        )
    }
}

/// No step of a prefix overflows when no step of the whole overflows.
proof fn lemma_each_overflows_prefix(e: ExprModel, cs: Seq<ExprModel>, i: int)
    requires
        0 <= i <= cs.len(),
        !each_overflows(e, cs),
    ensures
        !each_overflows(e, cs.take(i)),
    decreases cs.len() - i,
{
    if i == cs.len() {
        assert(cs.take(i) =~= cs);
    } else {
        lemma_each_overflows_prefix(e, cs, i + 1);
        assert(cs.take(i + 1).drop_last() =~= cs.take(i));
    }
}

/// Is `candidate` a power `baseᵏ` divisible by `factor`, i.e. a `Pow` whose base
/// is the thing `factor` divides (`factor` itself a `Symbol`/`Pow` of that base)?
fn power_of_same_base(candidate: &Expression, factor: &Expression) -> (r: bool)
    ensures
        r == spec_power_of_same_base(candidate@, factor@),
{
    let cbase = match candidate {
        Expression::Pow(cbase, _) => cbase,
        _ => {
            return false;
        },
    };
    match factor {
        Expression::Pow(fbase, _) => fbase.same(cbase),
        other => cbase.same(other),
    }
}

/// The exact quotient `a / b` of machine integers when `b` divides `a`.
fn exact_div_i64(a: i64, b: i64) -> (r: Option<i64>)
    requires
        !(a == i64::MIN && b == -1),
    ensures
        r is Some <==> (b != 0 && abs(a as int) % abs(b as int) == 0),
        r matches Some(q) ==> q == trunc_quotient(a as int, b as int),
{
    if b == 0 {
        return None;
    }
    let aa: i128 = if a < 0 { -(a as i128) } else { a as i128 };
    let ab: i128 = if b < 0 { -(b as i128) } else { b as i128 };
    assert(aa == abs(a as int) && ab == abs(b as int));
    if aa % ab != 0 {
        return None;
    }
    let q = aa / ab;
    proof {
        if a == i64::MIN {
            assert(ab >= 2 || ab == 1);
            if ab >= 2 {
                vstd::arithmetic::div_mod::lemma_div_is_ordered_by_denominator(aa as int, 2, ab as int);
            }
        } else {
            vstd::arithmetic::div_mod::lemma_div_is_ordered_by_denominator(aa as int, 1, ab as int);
        }
    }
    let qs: i128 = if (a < 0) == (b < 0) { q } else { -q };
    Some(qs as i64)
}

/// The value of a machine-integer literal.
fn literal(e: &Expression) -> (r: Option<i64>)
    ensures
        r is Some <==> int_literal(e@) is Some,
        r matches Some(n) ==> int_literal(e@) == Some(n as int),
{
    match e {
        Expression::Number(Number::Integer(n)) => Some(*n),
        _ => None,
    }
}

/// `xⁿ ÷ x = xⁿ⁻¹` and `xⁿ ÷ xᵐ = xⁿ⁻ᵐ` (same base); otherwise the power unchanged.
fn divide_power(expr: &Expression, factor: &Expression) -> (r: Expression)
    ensures
        r@ == spec_divide_power(expr@, factor@),
{
    let (base, exp) = match expr {
        Expression::Pow(base, exp) => (base, exp),
        _ => {
            return expr.clone();
        },
    };
    assert(expr@ == ExprModel::Pow(Box::new((**base)@), Box::new((**exp)@)));
    let n = match literal(exp) {
        Some(n) => n,
        None => {
            return expr.clone();
        },
    };
    let out: i64 = if base.same(factor) {
        1
    } else {
        match factor {
            Expression::Pow(fbase, fexp) => {
                assert(factor@ == ExprModel::Pow(Box::new((**fbase)@), Box::new((**fexp)@)));
                if fbase.same(base) {
                    match literal(fexp) {
                        Some(m) => m,
                        None => {
                            return expr.clone();
                        },
                    }
                } else {
                    return expr.clone();
                }
            },
            _ => {
                return expr.clone();
            },
        }
    };
    if out <= 0 || out > n {
        return expr.clone();
    }
    Expression::pow((**base).clone(), Expression::integer(n - out))
}

/// First index of a member of `v` equal to `x`.
fn position_of(v: &Vec<Expression>, x: &Expression) -> (r: Option<usize>)
    ensures
        r is Some <==> first_index_of(view_seq(v@), x@) is Some,
        r matches Some(i) ==> first_index_of(view_seq(v@), x@) == Some(i as int),
        r matches Some(i) ==> i < v.len(),
{
    let ghost s = view_seq(v@);
    proof {
        lemma_view_seq(v@);
    }
    let mut i: usize = 0;
    assert(s.subrange(0, s.len() as int) =~= s);
    while i < v.len()
        invariant
            i <= v.len(),
            s == view_seq(v@),
            s.len() == v.len(),
            forall|j: int| 0 <= j < v.len() ==> #[trigger] s[j] == v@[j]@,
            first_index_of(s, x@) == (match first_index_of(s.subrange(i as int, s.len() as int), x@) {
                Some(k) => Some(k + i),
                None => None,
            }),
        decreases v.len() - i,
    {
        let ghost sub = s.subrange(i as int, s.len() as int);
        assert(sub.drop_first() =~= s.subrange(i + 1, s.len() as int));
        assert(sub[0] == v@[i as int]@);
        if v[i].same(x) {
            return Some(i);
        }
        i = i + 1;
    }
    None
}

/// First index of a member of `v` that is a power of the factor's base.
fn position_of_power(v: &Vec<Expression>, f: &Expression) -> (r: Option<usize>)
    ensures
        r is Some <==> first_power_index(view_seq(v@), f@) is Some,
        r matches Some(i) ==> first_power_index(view_seq(v@), f@) == Some(i as int),
        r matches Some(i) ==> i < v.len(),
{
    let ghost s = view_seq(v@);
    proof {
        lemma_view_seq(v@);
    }
    let mut i: usize = 0;
    assert(s.subrange(0, s.len() as int) =~= s);
    while i < v.len()
        invariant
            i <= v.len(),
            s == view_seq(v@),
            s.len() == v.len(),
            forall|j: int| 0 <= j < v.len() ==> #[trigger] s[j] == v@[j]@,
            first_power_index(s, f@) == (match first_power_index(s.subrange(i as int, s.len() as int), f@) {
                Some(k) => Some(k + i),
                None => None,
            }),
        decreases v.len() - i,
    {
        let ghost sub = s.subrange(i as int, s.len() as int);
        assert(sub.drop_first() =~= s.subrange(i + 1, s.len() as int));
        assert(sub[0] == v@[i as int]@);
        if power_of_same_base(&v[i], f) {
            return Some(i);
        }
        i = i + 1;
    }
    None
}

/// What is left of a product's factors: one, the single factor, or their product.
fn collapse(remaining: Vec<Expression>) -> (r: Expression)
    ensures
        r@ == collapse_remaining(view_seq(remaining@)),
{
    proof {
        lemma_view_seq(remaining@);
    }
    if remaining.len() == 0 {
        Expression::integer(1)
    } else if remaining.len() == 1 {
        remaining[0].clone()
    } else {
        Expression::mul(remaining)
    }
}

/// Division by a factor that is not a product.
fn divide_atom(expr: &Expression, factor: &Expression) -> (r: Expression)
    requires
        !(expr@ == int_model(i64::MIN as int) && factor@ == int_model(-1)),
    ensures
        r@ == spec_divide_atom(expr@, factor@),
{
    match expr {
        Expression::Number(Number::Integer(a)) => match factor {
            Expression::Number(Number::Integer(b)) => match exact_div_i64(*a, *b) {
                Some(q) => Expression::integer(q),
                None => expr.clone(),
            },
            _ => expr.clone(),
        },
        Expression::Symbol(s1) => match factor {
            Expression::Symbol(s2) => if s1.same(s2) {
                Expression::integer(1)
            } else {
                expr.clone()
            },
            _ => expr.clone(),
        },
        Expression::Pow(_, _) => divide_power(expr, factor),
        Expression::Mul(factors) => {
            let mut remaining = crate::expr::clone_vec(factors);
            let ghost fs = view_seq(factors@);
            match position_of(&remaining, factor) {
                Some(pos) => {
                    let ghost before = remaining@;
                    remaining.remove(pos);
                    proof {
                        lemma_view_seq(remaining@);
                        lemma_view_seq(before);
                        assert(view_seq(remaining@) =~= fs.remove(pos as int));
                    }
                    collapse(remaining)
                },
                None => match position_of_power(&remaining, factor) {
                    Some(pos) => {
                        proof {
                            lemma_view_seq(remaining@);
                        }
                        let reduced = divide_power(&remaining[pos], factor);
                        let ghost before = remaining@;
                        remaining.set(pos, reduced);
                        proof {
                            lemma_view_seq(remaining@);
                            lemma_view_seq(before);
                            assert(view_seq(remaining@) =~= fs.update(pos as int, spec_divide_power(fs[pos as int], factor@)));
                        }
                        collapse(remaining)
                    },
                    None => expr.clone(),
                },
            }
        },
        _ => expr.clone(),
    }
}

impl Expression {
    /// Divide an expression by a factor (simplified division). A product factor
    /// divides by each of its components in turn.
    pub fn divide_by_factor(&self, expr: &Expression, factor: &Expression) -> (r: Expression)
        requires
            !spec_divide_overflows(expr@, factor@),
        ensures
            r@ == spec_divide(expr@, factor@),
            divides_exactly(expr@, factor@) ==> keeps_product(r@, factor@, expr@),
            !(factor@ is Mul) && canonical_product(expr@) && r@ != expr@ ==> keeps_product(
                r@,
                factor@,
                expr@,
            ),
        decreases factor,
    {
        if let Expression::Mul(components) = factor {
            let ghost cs = view_seq(components@);
            proof {
                lemma_view_seq(components@);
            }
            let mut acc = expr.clone();
            let mut i: usize = 0;
            #[verifier::loop_isolation(false)]
            while i < components.len()
                invariant
                    i <= components.len(),
                    cs == view_seq(components@),
                    cs.len() == components.len(),
                    forall|j: int| 0 <= j < components.len() ==> #[trigger] cs[j] == components@[j]@,
                    !each_overflows(expr@, cs),
                    acc@ == divide_by_each(expr@, cs.take(i as int)),
                decreases components.len() - i,
            {
                proof {
                    assert(cs.take(i + 1).drop_last() =~= cs.take(i as int));
                    lemma_each_overflows_prefix(expr@, cs, i + 1);
                    vstd::std_specs::vec::axiom_vec_index_decreases(*components, i as int);
                }
                acc = self.divide_by_factor(&acc, &components[i]);
                i = i + 1;
            }
            assert(cs.take(components.len() as int) =~= cs);
            proof {
                lemma_quotient_keeps_product(expr@, factor@);
            }
            return acc;
        }
        let r = divide_atom(expr, factor);
        proof {
            lemma_quotient_keeps_product(expr@, factor@);
        }
        r
    }

    /// Whether dividing `expr` by `factor` would reach `i64::MIN ÷ -1`.
    pub fn divide_overflows(&self, expr: &Expression, factor: &Expression) -> (r: bool)
        ensures
            r == spec_divide_overflows(expr@, factor@),
        decreases factor,
    {
        if let Expression::Mul(components) = factor {
            let ghost cs = view_seq(components@);
            proof {
                lemma_view_seq(components@);
            }
            let mut acc = expr.clone();
            let mut i: usize = 0;
            #[verifier::loop_isolation(false)]
            while i < components.len()
                invariant
                    i <= components.len(),
                    cs == view_seq(components@),
                    cs.len() == components.len(),
                    forall|j: int| 0 <= j < components.len() ==> #[trigger] cs[j] == components@[j]@,
                    !each_overflows(expr@, cs.take(i as int)),
                    acc@ == divide_by_each(expr@, cs.take(i as int)),
                decreases components.len() - i,
            {
                proof {
                    assert(cs.take(i + 1).drop_last() =~= cs.take(i as int));
                    vstd::std_specs::vec::axiom_vec_index_decreases(*components, i as int);
                }
                if self.divide_overflows(&acc, &components[i]) {
                    proof {
                        lemma_each_overflows_extends(expr@, cs, i + 1);
                    }
                    return true;
                }
                acc = self.divide_by_factor(&acc, &components[i]);
                i = i + 1;
            }
            assert(cs.take(components.len() as int) =~= cs);
            return false;
        }
        match (expr, factor) {
            (Expression::Number(Number::Integer(a)), Expression::Number(Number::Integer(b))) => *a
                == i64::MIN && *b == -1,
            _ => false,
        }
    }

    /// Factor out the numeric coefficient: the product of the integer factors, and
    /// what remains.
    pub fn factor_numeric_coefficient(&self) -> (r: (BigInteger, Expression))
        ensures
            r.0@ == spec_coefficient(self@),
            r.1@ == spec_coefficient_rest(self@),
    {
        match self {
            Expression::Number(Number::Integer(n)) => (BigInteger::from_i64(*n), Expression::integer(1)),
            Expression::Number(Number::BigInteger(n)) => (n.clone(), Expression::integer(1)),
            Expression::Mul(factors) => {
                let ghost fs = view_seq(factors@);
                proof {
                    lemma_view_seq(factors@);
                }
                let mut coefficient = BigInteger::from_i64(1);
                let mut non_numeric_factors: Vec<Expression> = Vec::new();
                let mut i: usize = 0;
                while i < factors.len()
                    invariant
                        i <= factors.len(),
                        fs == view_seq(factors@),
                        fs.len() == factors.len(),
                        forall|j: int| 0 <= j < factors.len() ==> #[trigger] fs[j] == factors@[j]@,
                        coefficient@ == prod_consts(fs.take(i as int)),
                        view_seq(non_numeric_factors@) == non_consts(fs.take(i as int)),
                    decreases factors.len() - i,
                {
                    assert(fs.take(i + 1).drop_last() =~= fs.take(i as int));
                    assert(fs.take(i + 1).last() == fs[i as int]);
                    match &factors[i] {
                        Expression::Number(Number::Integer(n)) => {
                            coefficient = big_mul(&coefficient, &BigInteger::from_i64(*n));
                        },
                        Expression::Number(Number::BigInteger(n)) => {
                            coefficient = big_mul(&coefficient, n);
                        },
                        _ => {
                            let ghost before = non_numeric_factors@;
                            non_numeric_factors.push(factors[i].clone());
                            proof {
                                lemma_view_seq(non_numeric_factors@);
                                lemma_view_seq(before);
                                assert(view_seq(non_numeric_factors@) =~= view_seq(before).push(fs[i as int]));
                            }
                        },
                    }
                    i = i + 1;
                }
                assert(fs.take(factors.len() as int) =~= fs);
                (coefficient, collapse(non_numeric_factors))
            },
            _ => (BigInteger::from_i64(1), self.clone()),
        }
    }
}

/// The numeric coefficient of an expression: an integer itself, the product of a
/// product's integer factors, otherwise one.
pub open spec fn spec_coefficient(m: ExprModel) -> int {
    match m {
        ExprModel::Number(NumberModel::Integer(n)) => n,
        ExprModel::Number(NumberModel::BigInteger(n)) => n,
        ExprModel::Mul(fs) => prod_consts(fs),
        _ => 1,
    }
}

/// What remains once the numeric coefficient is factored out.
pub open spec fn spec_coefficient_rest(m: ExprModel) -> ExprModel {
    match m {
        ExprModel::Number(NumberModel::Integer(_)) => int_model(1),
        ExprModel::Number(NumberModel::BigInteger(_)) => int_model(1),
        ExprModel::Mul(fs) => collapse_remaining(non_consts(fs)),
        _ => m,
    }
}

/// An overflowing step stays an overflow of every longer run of divisions.
proof fn lemma_each_overflows_extends(e: ExprModel, cs: Seq<ExprModel>, i: int)
    requires
        1 <= i <= cs.len(),
        each_overflows(e, cs.take(i)),
    ensures
        each_overflows(e, cs),
    decreases cs.len() - i,
{
    if i == cs.len() {
        assert(cs.take(i) =~= cs);
    } else {
        assert(cs.take(i + 1).drop_last() =~= cs.take(i));
        lemma_each_overflows_extends(e, cs, i + 1);
    }
}

/// A power division takes out a positive exponent no larger than the power's own.
pub open spec fn power_divides(e: ExprModel, f: ExprModel) -> bool {
    match e {
        ExprModel::Pow(base, exp) => match int_literal(*exp) {
            Some(n) => match divided_out_exponent(*base, f) {
                Some(o) => 0 < o <= n,
                None => false,
            },
            None => false,
        },
        _ => false,
    }
}

/// Division by a factor that is not a product is exact: the quotient times the
/// factor gives the expression back.
pub open spec fn atom_divides(e: ExprModel, f: ExprModel) -> bool {
    match e {
        ExprModel::Number(NumberModel::Integer(a)) => match f {
            ExprModel::Number(NumberModel::Integer(b)) => b != 0 && abs(a) % abs(b) == 0,
            _ => false,
        },
        ExprModel::Symbol(s1) => match f {
            ExprModel::Symbol(s2) => s1 == s2,
            _ => false,
        },
        ExprModel::Pow(_, _) => power_divides(e, f),
        ExprModel::Mul(fs) => match first_index_of(fs, f) {
            Some(_) => true,
            None => match first_power_index(fs, f) {
                Some(p) => power_divides(fs[p], f),
                None => false,
            },
        },
        _ => false,
    }
}

/// Every step of the division of `e` by `f` is exact.
pub open spec fn divides_exactly(e: ExprModel, f: ExprModel) -> bool
    decreases f, 1nat,
{
    match f {
        ExprModel::Mul(cs) => each_divides(e, cs),
        _ => atom_divides(e, f),
    }
}

/// Every step of dividing `e` by each of `cs` in turn is exact.
pub open spec fn each_divides(e: ExprModel, cs: Seq<ExprModel>) -> bool
    decreases cs, 0nat,
{
    if cs.len() == 0 {
        true
    } else {
        each_divides(e, cs.drop_last()) && divides_exactly(divide_by_each(e, cs.drop_last()), cs.last())
    }
}

/// Where `first_index_of` points, the member equals what was sought.
pub(crate) proof fn lemma_first_index_of(s: Seq<ExprModel>, x: ExprModel)
    requires
        first_index_of(s, x) is Some,
    ensures
        0 <= first_index_of(s, x)->Some_0 < s.len(),
        s[first_index_of(s, x)->Some_0] == x,
    decreases s.len(),
{
    if s[0] != x {
        lemma_first_index_of(s.drop_first(), x);
    }
}

/// Where `first_power_index` points, the member is a power of the factor's base.
proof fn lemma_first_power_index(s: Seq<ExprModel>, f: ExprModel)
    requires
        first_power_index(s, f) is Some,
    ensures
        0 <= first_power_index(s, f)->Some_0 < s.len(),
        spec_power_of_same_base(s[first_power_index(s, f)->Some_0], f),
    decreases s.len(),
{
    if !spec_power_of_same_base(s[0], f) {
        lemma_first_power_index(s.drop_first(), f);
    }
}

/// A product splits into the member at `p` and the others.
pub(crate) proof fn lemma_product_remove(s: Seq<ExprModel>, p: int, env: spec_fn(ExprModel) -> int)
    requires
        0 <= p < s.len(),
    ensures
        product_values(s, env) == product_values(s.remove(p), env) * value(s[p], env),
    decreases s.len(),
{
    let t = s.subrange(0, s.len() - 1);
    if p == s.len() - 1 {
        assert(s.remove(p) =~= t);
    } else {
        lemma_product_remove(t, p, env);
        let r = s.remove(p);
        assert(r.subrange(0, r.len() - 1) =~= t.remove(p));
        assert(r[r.len() - 1] == s[s.len() - 1]);
        let a = product_values(t.remove(p), env);
        let b = value(s[p], env);
        let c = value(s[s.len() - 1], env);
        assert((a * b) * c == (a * c) * b) by (nonlinear_arith);
    }
}

/// What is left of a product has the product of the values of the rest.
proof fn lemma_collapse_remaining(rs: Seq<ExprModel>, env: spec_fn(ExprModel) -> int)
    ensures
        value(collapse_remaining(rs), env) == product_values(rs, env),
{
    if rs.len() == 0 {
        assert(product_values(rs, env) == 1);
    } else if rs.len() == 1 {
        assert(rs.subrange(0, 0) =~= Seq::<ExprModel>::empty());
        assert(product_values(Seq::<ExprModel>::empty(), env) == 1);
    } else {
        law_mul_keeps_value(rs, env);
    }
}

/// `a / b` rounded toward zero, times `b`, is `a` when `b` divides `a`.
proof fn lemma_trunc_quotient_exact(a: int, b: int)
    requires
        b != 0,
        abs(a) % abs(b) == 0,
    ensures
        trunc_quotient(a, b) * b == a,
{
    let q = (abs(a) / abs(b)) as int;
    let aa = abs(a) as int;
    let bb = abs(b) as int;
    vstd::arithmetic::div_mod::lemma_fundamental_div_mod(aa, bb);
    assert(aa == bb * q);
    if (a < 0) == (b < 0) {
        assert(q * b == a) by (nonlinear_arith)
            requires
                aa == bb * q,
                (a < 0) == (b < 0),
                aa == (if a < 0 { -a } else { a }),
                bb == (if b < 0 { -b } else { b }),
        ;
    } else {
        assert((-q) * b == a) by (nonlinear_arith)
            requires
                aa == bb * q,
                (a < 0) != (b < 0),
                aa == (if a < 0 { -a } else { a }),
                bb == (if b < 0 { -b } else { b }),
        ;
    }
}

/// An exact power division: the quotient times the factor is the power.
proof fn lemma_power_division(e: ExprModel, f: ExprModel, env: spec_fn(ExprModel) -> int)
    requires
        power_divides(e, f),
    ensures
        value(spec_divide_power(e, f), env) * value(f, env) == value(e, env),
{
    let base = e->Pow_0;
    let n = int_literal(*e->Pow_1)->Some_0;
    let o = divided_out_exponent(*base, f)->Some_0;
    let vb = value(*base, env);
    law_pow_keeps_value(*base, int_model(n - o), env);
    lemma_power_adds(vb, (n - o) as nat, o as nat);
    if *base == f {
        assert(power(vb, 1) == vb * power(vb, 0));
    }
}

/// Division keeps the product: when every step of dividing `e` by `f` is exact,
/// the quotient times `f` has the value of `e`, for every assignment of integers
/// to the atoms.
pub proof fn law_division_keeps_product(e: ExprModel, f: ExprModel, env: spec_fn(ExprModel) -> int)
    requires
        divides_exactly(e, f),
    ensures
        value(spec_divide(e, f), env) * value(f, env) == value(e, env),
    decreases f, 1nat,
{
    match f {
        ExprModel::Mul(cs) => {
            lemma_each_divides_keeps_product(e, cs, env);
        },
        _ => {
            match e {
                ExprModel::Number(NumberModel::Integer(a)) => {
                    let b = f->Number_0->Integer_0;
                    lemma_trunc_quotient_exact(a, b);
                },
                ExprModel::Pow(_, _) => {
                    lemma_power_division(e, f, env);
                },
                ExprModel::Mul(fs) => {
                    match first_index_of(fs, f) {
                        Some(p) => {
                            lemma_first_index_of(fs, f);
                            lemma_product_remove(fs, p, env);
                            lemma_collapse_remaining(fs.remove(p), env);
                        },
                        None => {
                            let p = first_power_index(fs, f)->Some_0;
                            lemma_first_power_index(fs, f);
                            let q = spec_divide_power(fs[p], f);
                            let u = fs.update(p, q);
                            lemma_power_division(fs[p], f, env);
                            lemma_product_remove(fs, p, env);
                            lemma_product_remove(u, p, env);
                            assert(u.remove(p) =~= fs.remove(p));
                            lemma_collapse_remaining(u, env);
                            let r = product_values(fs.remove(p), env);
                            let vq = value(q, env);
                            let vf = value(f, env);
                            assert((r * vq) * vf == r * (vq * vf)) by (nonlinear_arith);
                        },
                    }
                },
                _ => {},
            }
        },
    }
}

/// Dividing by each of `cs` in turn, exactly, keeps the product.
proof fn lemma_each_divides_keeps_product(e: ExprModel, cs: Seq<ExprModel>, env: spec_fn(ExprModel) -> int)
    requires
        each_divides(e, cs),
    ensures
        value(divide_by_each(e, cs), env) * product_values(cs, env) == value(e, env),
    decreases cs, 0nat,
{
    if cs.len() == 0 {
        assert(product_values(cs, env) == 1);
    } else {
        let t = cs.drop_last();
        assert(cs.subrange(0, cs.len() - 1) =~= t);
        lemma_each_divides_keeps_product(e, t, env);
        let q = divide_by_each(e, t);
        law_division_keeps_product(q, cs.last(), env);
        let a = value(spec_divide(q, cs.last()), env);
        let l = value(cs.last(), env);
        let p = product_values(t, env);
        assert(a * (p * l) == (a * l) * p) by (nonlinear_arith);
    }
}

/// The expression is no product, or a product of at least two factors that
/// is its own canonical form.
pub open spec fn canonical_product(e: ExprModel) -> bool {
    match e {
        ExprModel::Mul(fs) => fs.len() >= 2 && spec_mul(fs) == e,
        _ => true,
    }
}

/// A power that the factor does not divide is left as it is.
proof fn lemma_power_left(x: ExprModel, f: ExprModel)
    requires
        !power_divides(x, f),
    ensures
        spec_divide_power(x, f) == x,
{
}

/// The quotient `q` times the factor `f` has the value of `e`, for every
/// assignment of integers to the atoms.
pub open spec fn keeps_product(q: ExprModel, f: ExprModel, e: ExprModel) -> bool {
    forall|env: spec_fn(ExprModel) -> int| #[trigger] value(q, env) * value(f, env) == value(e, env)
}

/// What the contract of `divide_by_factor` states of the quotient's product.
proof fn lemma_quotient_keeps_product(e: ExprModel, f: ExprModel)
    ensures
        divides_exactly(e, f) ==> keeps_product(spec_divide(e, f), f, e),
        !(f is Mul) && canonical_product(e) && spec_divide(e, f) != e ==> keeps_product(
            spec_divide(e, f),
            f,
            e,
        ),
{
    if divides_exactly(e, f) {
        assert forall|env: spec_fn(ExprModel) -> int| #[trigger]
            value(spec_divide(e, f), env) * value(f, env) == value(e, env) by {
            law_division_keeps_product(e, f, env);
        }
    }
    if !(f is Mul) && canonical_product(e) && spec_divide(e, f) != e {
        assert forall|env: spec_fn(ExprModel) -> int| #[trigger]
            value(spec_divide(e, f), env) * value(f, env) == value(e, env) by {
            law_changed_quotient_is_exact(e, f, env);
        }
    }
}

/// Division by a factor that is not a product changes the expression only
/// when it is exact: then the quotient times the factor has the value of the
/// expression, for every assignment of integers to the atoms.
pub proof fn law_changed_quotient_is_exact(e: ExprModel, f: ExprModel, env: spec_fn(ExprModel) -> int)
    requires
        !(f is Mul),
        canonical_product(e),
        spec_divide(e, f) != e,
    ensures
        divides_exactly(e, f),
        value(spec_divide(e, f), env) * value(f, env) == value(e, env),
{
    match e {
        ExprModel::Mul(fs) => {
            if first_index_of(fs, f) is None {
                match first_power_index(fs, f) {
                    Some(p) => {
                        if !power_divides(fs[p], f) {
                            lemma_first_power_index(fs, f);
                            lemma_power_left(fs[p], f);
                            assert(fs.update(p, fs[p]) =~= fs);
                        }
                    },
                    None => {},
                }
            }
        },
        _ => {},
    }
    law_division_keeps_product(e, f, env);
}

/// Division by a product divides by its factors in turn; when each factor is
/// no product, each accumulator is in canonical form and each step changes it,
/// every step is exact and the quotient times the product has the value of the
/// expression, for every assignment of integers to the atoms.
pub proof fn law_changed_steps_are_exact(e: ExprModel, cs: Seq<ExprModel>, env: spec_fn(ExprModel) -> int)
    requires
        forall|k: int|
            0 <= k < cs.len() ==> {
                let acc = #[trigger] divide_by_each(e, cs.take(k));
                &&& !(cs[k] is Mul)
                &&& canonical_product(acc)
                &&& spec_divide(acc, cs[k]) != acc
            },
    ensures
        divides_exactly(e, ExprModel::Mul(cs)),
        value(spec_divide(e, ExprModel::Mul(cs)), env) * value(ExprModel::Mul(cs), env) == value(e, env),
{
    lemma_changed_steps(e, cs, env);
    law_division_keeps_product(e, ExprModel::Mul(cs), env);
}

/// Each changed step of a division by a product is exact.
proof fn lemma_changed_steps(e: ExprModel, cs: Seq<ExprModel>, env: spec_fn(ExprModel) -> int)
    requires
        forall|k: int|
            0 <= k < cs.len() ==> {
                let acc = #[trigger] divide_by_each(e, cs.take(k));
                &&& !(cs[k] is Mul)
                &&& canonical_product(acc)
                &&& spec_divide(acc, cs[k]) != acc
            },
    ensures
        each_divides(e, cs),
    decreases cs.len(),
{
    if cs.len() > 0 {
        let d = cs.drop_last();
        assert forall|k: int| 0 <= k < d.len() implies {
            let acc = #[trigger] divide_by_each(e, d.take(k));
            &&& !(d[k] is Mul)
            &&& canonical_product(acc)
            &&& spec_divide(acc, d[k]) != acc
        } by {
            assert(d.take(k) =~= cs.take(k));
            assert(d[k] == cs[k]);
            assert(divide_by_each(e, cs.take(k)) == divide_by_each(e, d.take(k)));
        }
        lemma_changed_steps(e, d, env);
        let last = cs.len() - 1;
        assert(cs.take(last) =~= d);
        assert(divide_by_each(e, cs.take(last)) == divide_by_each(e, d));
        law_changed_quotient_is_exact(divide_by_each(e, d), cs.last(), env);
    }
}

/// Factoring out the numeric coefficient keeps the value: the coefficient times
/// what remains has the value of the expression, for every assignment of
/// integers to the atoms.
pub proof fn law_coefficient_times_rest(m: ExprModel, env: spec_fn(ExprModel) -> int)
    ensures
        spec_coefficient(m) * value(spec_coefficient_rest(m), env) == value(m, env),
{
    match m {
        ExprModel::Mul(fs) => {
            lemma_product_split(fs, env);
            lemma_collapse_remaining(non_consts(fs), env);
            let a = product_values(non_consts(fs), env);
            let c = prod_consts(fs);
            assert(c * a == a * c) by (nonlinear_arith);
        },
        _ => {},
    }
}

/// Whether a power division takes out a positive exponent no larger than the
/// power's own.
fn power_divides_exec(expr: &Expression, factor: &Expression) -> (r: bool)
    ensures
        r == power_divides(expr@, factor@),
{
    let (base, exp) = match expr {
        Expression::Pow(base, exp) => (base, exp),
        _ => {
            return false;
        },
    };
    assert(expr@ == ExprModel::Pow(Box::new((**base)@), Box::new((**exp)@)));
    let n = match literal(exp) {
        Some(n) => n,
        None => {
            return false;
        },
    };
    let out: i64 = if base.same(factor) {
        1
    } else {
        match factor {
            Expression::Pow(fbase, fexp) => {
                assert(factor@ == ExprModel::Pow(Box::new((**fbase)@), Box::new((**fexp)@)));
                if fbase.same(base) {
                    match literal(fexp) {
                        Some(m) => m,
                        None => {
                            return false;
                        },
                    }
                } else {
                    return false;
                }
            },
            _ => {
                return false;
            },
        }
    };
    0 < out && out <= n
}

/// Whether division by a factor that is not a product is exact.
fn atom_divides_exec(expr: &Expression, factor: &Expression) -> (r: bool)
    ensures
        r == atom_divides(expr@, factor@),
{
    match expr {
        Expression::Number(Number::Integer(a)) => match factor {
            Expression::Number(Number::Integer(b)) => {
                if *b == 0 {
                    return false;
                }
                let aa: i128 = if *a < 0 { -(*a as i128) } else { *a as i128 };
                let ab: i128 = if *b < 0 { -(*b as i128) } else { *b as i128 };
                aa % ab == 0
            },
            _ => false,
        },
        Expression::Symbol(s1) => match factor {
            Expression::Symbol(s2) => s1.same(s2),
            _ => false,
        },
        Expression::Pow(_, _) => power_divides_exec(expr, factor),
        Expression::Mul(factors) => {
            let ghost fs = view_seq(factors@);
            proof {
                lemma_view_seq(factors@);
            }
            match position_of(factors, factor) {
                Some(_) => true,
                None => match position_of_power(factors, factor) {
                    Some(p) => power_divides_exec(&factors[p], factor),
                    None => false,
                },
            }
        },
        _ => false,
    }
}

impl Expression {
    /// Whether every step of dividing `expr` by `factor` is exact (see
    /// [`divides_exactly`]).
    pub fn divides_exactly(&self, expr: &Expression, factor: &Expression) -> (r: bool)
        requires
            !spec_divide_overflows(expr@, factor@),
        ensures
            r == divides_exactly(expr@, factor@),
        decreases factor,
    {
        if let Expression::Mul(components) = factor {
            let ghost cs = view_seq(components@);
            proof {
                lemma_view_seq(components@);
            }
            let mut acc = expr.clone();
            let mut i: usize = 0;
            #[verifier::loop_isolation(false)]
            while i < components.len()
                invariant
                    i <= components.len(),
                    cs == view_seq(components@),
                    cs.len() == components.len(),
                    forall|j: int| 0 <= j < components.len() ==> #[trigger] cs[j] == components@[j]@,
                    !each_overflows(expr@, cs),
                    each_divides(expr@, cs.take(i as int)),
                    acc@ == divide_by_each(expr@, cs.take(i as int)),
                decreases components.len() - i,
            {
                proof {
                    assert(cs.take(i + 1).drop_last() =~= cs.take(i as int));
                    lemma_each_overflows_prefix(expr@, cs, i + 1);
                    vstd::std_specs::vec::axiom_vec_index_decreases(*components, i as int);
                }
                if !self.divides_exactly(&acc, &components[i]) {
                    proof {
                        lemma_each_divides_prefix_fails(expr@, cs, i + 1);
                    }
                    return false;
                }
                acc = self.divide_by_factor(&acc, &components[i]);
                i = i + 1;
            }
            assert(cs.take(components.len() as int) =~= cs);
            return true;
        }
        atom_divides_exec(expr, factor)
    }
}

/// A failing step fails every longer run of divisions.
proof fn lemma_each_divides_prefix_fails(e: ExprModel, cs: Seq<ExprModel>, i: int)
    requires
        1 <= i <= cs.len(),
        !each_divides(e, cs.take(i)),
    ensures
        !each_divides(e, cs),
    decreases cs.len() - i,
{
    if i == cs.len() {
        assert(cs.take(i) =~= cs);
    } else {
        assert(cs.take(i + 1).drop_last() =~= cs.take(i));
        lemma_each_divides_prefix_fails(e, cs, i + 1);
    }
}

} // verus!
