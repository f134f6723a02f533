//! Expansion: products of sums are multiplied out into a sum of monomials, and
//! like monomials are collected.

use crate::bigint::{big_add, big_mul, BigInteger};
use crate::construct::{spec_add, spec_mul, spec_pow};
use crate::expr::{lemma_view_seq, number_model_of, view_seq, ExprModel, Expression};
use crate::number::{Number, NumberModel};
use crate::arith::power;
use crate::value::{
    law_add_keeps_value, law_mul_keeps_value, law_pow_keeps_value, lemma_power_adds,
    lemma_product_prepend, lemma_sum_push, product_values, sum_values, value,
};
use vstd::prelude::*;

verus! {

/// An integer coefficient times a product of powers `base^exponent`, each base
/// occurring once.
pub struct Monomial {
    pub coeff: int,
    pub powers: Seq<(ExprModel, int)>,
}

/// Index of the first power of `ps` with base `b`.
pub open spec fn base_index(ps: Seq<(ExprModel, int)>, b: ExprModel) -> Option<int>
    decreases ps.len(),
{
    if ps.len() == 0 {
        None
    } else if ps[0].0 == b {
        Some(0)
    } else {
        match base_index(ps.drop_first(), b) {
            Some(i) => Some(i + 1),
            None => None,
        }
    }
}

/// `ps` multiplied by `b^k`: the exponent of `b` grows by `k`, or the power is
/// appended when `b` is new.
pub open spec fn merge_power(ps: Seq<(ExprModel, int)>, b: ExprModel, k: int) -> Seq<(ExprModel, int)> {
    match base_index(ps, b) {
        Some(i) => ps.update(i, (b, ps[i].1 + k)),
        None => ps.push((b, k)),
    }
}

/// `ps` multiplied by each power of `qs` in turn.
pub open spec fn merge_powers(ps: Seq<(ExprModel, int)>, qs: Seq<(ExprModel, int)>) -> Seq<(ExprModel, int)>
    decreases qs.len(),
{
    if qs.len() == 0 {
        ps
    } else {
        merge_power(merge_powers(ps, qs.drop_last()), qs.last().0, qs.last().1)
    }
}

/// The product of two monomials.
pub open spec fn mono_product(a: Monomial, b: Monomial) -> Monomial {
    Monomial { coeff: a.coeff * b.coeff, powers: merge_powers(a.powers, b.powers) }
}

/// The first `n` monomials of `q`, each multiplied by `a` on the left.
pub open spec fn row_products(a: Monomial, q: Seq<Monomial>, n: nat) -> Seq<Monomial> {
    Seq::new(n, |j: int| mono_product(a, q[j]))
}

/// The product of two sums of monomials: each monomial of `p`, in order, times
/// each monomial of `q`, in order.
pub open spec fn poly_product(p: Seq<Monomial>, q: Seq<Monomial>) -> Seq<Monomial>
    decreases p.len(),
{
    if p.len() == 0 {
        Seq::empty()
    } else {
        poly_product(p.drop_last(), q) + row_products(p.last(), q, q.len())
    }
}

/// The monomial `1·m`.
pub open spec fn atom(m: ExprModel) -> Seq<Monomial> {
    seq![Monomial { coeff: 1, powers: seq![(m, 1int)] }]
}

/// The monomials of an expression, before like ones are collected: an integer
/// is a constant monomial, a sum gives the monomials of its terms in order, a
/// product the products of the monomials of its factors, and a power with a
/// positive integer exponent, like any other expression, is a single power.
pub open spec fn expand_terms(m: ExprModel) -> Seq<Monomial>
    decreases m, 1nat,
{
    match m {
        ExprModel::Number(NumberModel::Integer(c)) => seq![Monomial { coeff: c, powers: Seq::empty() }],
        ExprModel::Number(NumberModel::BigInteger(c)) => seq![Monomial { coeff: c, powers: Seq::empty() }],
        ExprModel::Add(ts) => sum_terms(ts),
        ExprModel::Mul(fs) => product_terms(fs),
        ExprModel::Pow(b, e) => match *e {
            ExprModel::Number(NumberModel::Integer(k)) => if k >= 1 {
                seq![Monomial { coeff: 1, powers: seq![(*b, k)] }]
            } else {
                atom(m)
            },
            _ => atom(m),
        },
        _ => atom(m),
    }
}

/// The monomials of the terms of a sum, in order.
pub open spec fn sum_terms(ts: Seq<ExprModel>) -> Seq<Monomial>
    decreases ts, 0nat,
{
    if ts.len() == 0 {
        Seq::empty()
    } else {
        sum_terms(ts.subrange(0, ts.len() - 1)) + expand_terms(ts[ts.len() - 1])
    }
}

/// The monomials of a product of factors, multiplied out from the first.
pub open spec fn product_terms(fs: Seq<ExprModel>) -> Seq<Monomial>
    decreases fs, 0nat,
{
    if fs.len() == 0 {
        seq![Monomial { coeff: 1, powers: Seq::empty() }]
    } else {
        poly_product(product_terms(fs.subrange(0, fs.len() - 1)), expand_terms(fs[fs.len() - 1]))
    }
}

/// Index of the first monomial of `acc` with exactly the powers `ps`.
pub open spec fn like_index(acc: Seq<Monomial>, ps: Seq<(ExprModel, int)>) -> Option<int>
    decreases acc.len(),
{
    if acc.len() == 0 {
        None
    } else if acc[0].powers == ps {
        Some(0)
    } else {
        match like_index(acc.drop_first(), ps) {
            Some(i) => Some(i + 1),
            None => None,
        }
    }
}

/// `acc` plus the monomial `m`: added to the coefficient of a like monomial, or
/// appended.
pub open spec fn add_like(acc: Seq<Monomial>, m: Monomial) -> Seq<Monomial> {
    match like_index(acc, m.powers) {
        Some(i) => acc.update(i, Monomial { coeff: acc[i].coeff + m.coeff, powers: m.powers }),
        None => acc.push(m),
    }
}

/// Like monomials collected, in order of first occurrence.
pub open spec fn collect(ms: Seq<Monomial>) -> Seq<Monomial>
    decreases ms.len(),
{
    if ms.len() == 0 {
        Seq::empty()
    } else {
        add_like(collect(ms.drop_last()), ms.last())
    }
}

/// The powers of a monomial as expressions.
pub open spec fn power_exprs(ps: Seq<(ExprModel, int)>) -> Seq<ExprModel> {
    Seq::new(ps.len(), |i: int| spec_pow(ps[i].0, number_model_of(ps[i].1)))
}

/// A monomial as an expression: the canonical product of its coefficient and
/// its powers.
pub open spec fn mono_expr(m: Monomial) -> ExprModel {
    spec_mul(seq![number_model_of(m.coeff)] + power_exprs(m.powers))
}

/// The monomials with a non-zero coefficient, as expressions.
pub open spec fn nonzero_exprs(ms: Seq<Monomial>) -> Seq<ExprModel>
    decreases ms.len(),
{
    if ms.len() == 0 {
        Seq::empty()
    } else if ms.last().coeff == 0 {
        nonzero_exprs(ms.drop_last())
    } else {
        nonzero_exprs(ms.drop_last()).push(mono_expr(ms.last()))
    }
}

/// The expanded form: the canonical sum of the collected non-zero monomials.
pub open spec fn spec_expand(m: ExprModel) -> ExprModel {
    spec_add(nonzero_exprs(collect(expand_terms(m))))
}

/// The value of a product of powers.
pub open spec fn powers_value(ps: Seq<(ExprModel, int)>, env: spec_fn(ExprModel) -> int) -> int
    decreases ps.len(),
{
    if ps.len() == 0 {
        1
    } else {
        powers_value(ps.drop_last(), env) * power(value(ps.last().0, env), ps.last().1 as nat)
    }
}

/// The value of a monomial.
pub open spec fn mono_value(m: Monomial, env: spec_fn(ExprModel) -> int) -> int {
    m.coeff * powers_value(m.powers, env)
}

/// The value of a sum of monomials.
pub open spec fn monos_value(ms: Seq<Monomial>, env: spec_fn(ExprModel) -> int) -> int
    decreases ms.len(),
{
    if ms.len() == 0 {
        0
    } else {
        monos_value(ms.drop_last(), env) + mono_value(ms.last(), env)
    }
}

/// Every exponent is positive.
pub open spec fn positive_powers(ps: Seq<(ExprModel, int)>) -> bool {
    forall|i: int| 0 <= i < ps.len() ==> #[trigger] ps[i].1 >= 1
}

/// Every monomial has positive exponents.
pub open spec fn all_positive(ms: Seq<Monomial>) -> bool {
    forall|i: int| #![trigger ms[i]] 0 <= i < ms.len() ==> positive_powers(ms[i].powers)
}

/// Where `base_index` points, the power has the sought base.
proof fn lemma_base_index(ps: Seq<(ExprModel, int)>, b: ExprModel)
    requires
        base_index(ps, b) is Some,
    ensures
        0 <= base_index(ps, b)->Some_0 < ps.len(),
        ps[base_index(ps, b)->Some_0].0 == b,
    decreases ps.len(),
{
    if ps[0].0 != b {
        lemma_base_index(ps.drop_first(), b);
    }
}

/// Where `like_index` points, the monomial has the sought powers.
proof fn lemma_like_index(acc: Seq<Monomial>, ps: Seq<(ExprModel, int)>)
    requires
        like_index(acc, ps) is Some,
    ensures
        0 <= like_index(acc, ps)->Some_0 < acc.len(),
        acc[like_index(acc, ps)->Some_0].powers == ps,
    decreases acc.len(),
{
    if acc[0].powers != ps {
        lemma_like_index(acc.drop_first(), ps);
    }
}

/// A product of powers splits into the power at `i` and the others.
proof fn lemma_powers_remove(ps: Seq<(ExprModel, int)>, i: int, env: spec_fn(ExprModel) -> int)
    requires
        0 <= i < ps.len(),
    ensures
        powers_value(ps, env) == powers_value(ps.remove(i), env) * power(value(ps[i].0, env), ps[i].1 as nat),
    decreases ps.len(),
{
    let t = ps.drop_last();
    if i == ps.len() - 1 {
        assert(ps.remove(i) =~= t);
    } else {
        lemma_powers_remove(t, i, env);
        let r = ps.remove(i);
        assert(r.drop_last() =~= t.remove(i));
        assert(r.last() == ps.last());
        let a = powers_value(t.remove(i), env);
        let b = power(value(ps[i].0, env), ps[i].1 as nat);
        let c = power(value(ps.last().0, env), ps.last().1 as nat);
        assert((a * b) * c == (a * c) * b) by (nonlinear_arith);
    }
}

/// A sum of monomials splits into the monomial at `i` and the others.
proof fn lemma_monos_remove(ms: Seq<Monomial>, i: int, env: spec_fn(ExprModel) -> int)
    requires
        0 <= i < ms.len(),
    ensures
        monos_value(ms, env) == monos_value(ms.remove(i), env) + mono_value(ms[i], env),
    decreases ms.len(),
{
    let t = ms.drop_last();
    if i == ms.len() - 1 {
        assert(ms.remove(i) =~= t);
    } else {
        lemma_monos_remove(t, i, env);
        let r = ms.remove(i);
        assert(r.drop_last() =~= t.remove(i));
        assert(r.last() == ms.last());
    }
}

/// Multiplying by one more power multiplies the value by it.
proof fn lemma_merge_power_value(ps: Seq<(ExprModel, int)>, b: ExprModel, k: int, env: spec_fn(ExprModel) -> int)
    requires
        positive_powers(ps),
        k >= 1,
    ensures
        positive_powers(merge_power(ps, b, k)),
        powers_value(merge_power(ps, b, k), env) == powers_value(ps, env) * power(value(b, env), k as nat),
{
    let vb = value(b, env);
    match base_index(ps, b) {
        Some(i) => {
            lemma_base_index(ps, b);
            let e = ps[i].1;
            let u = ps.update(i, (b, e + k));
            lemma_powers_remove(u, i, env);
            lemma_powers_remove(ps, i, env);
            assert(u.remove(i) =~= ps.remove(i));
            lemma_power_adds(vb, e as nat, k as nat);
            let r = powers_value(ps.remove(i), env);
            let pe = power(vb, e as nat);
            let pk = power(vb, k as nat);
            assert(r * (pe * pk) == (r * pe) * pk) by (nonlinear_arith);
            assert forall|j: int| 0 <= j < u.len() implies #[trigger] u[j].1 >= 1 by {
                if j != i {
                    assert(u[j] == ps[j]);
                }
            }
        },
        None => {
            let u = ps.push((b, k));
            assert(u.drop_last() =~= ps);
            assert forall|j: int| 0 <= j < u.len() implies #[trigger] u[j].1 >= 1 by {
                if j < ps.len() {
                    assert(u[j] == ps[j]);
                }
            }
        },
    }
}

/// Multiplying by a product of powers multiplies the values.
proof fn lemma_merge_powers_value(ps: Seq<(ExprModel, int)>, qs: Seq<(ExprModel, int)>, env: spec_fn(ExprModel) -> int)
    requires
        positive_powers(ps),
        positive_powers(qs),
    ensures
        positive_powers(merge_powers(ps, qs)),
        powers_value(merge_powers(ps, qs), env) == powers_value(ps, env) * powers_value(qs, env),
    decreases qs.len(),
{
    if qs.len() > 0 {
        let t = qs.drop_last();
        assert(positive_powers(t)) by {
            assert forall|j: int| 0 <= j < t.len() implies #[trigger] t[j].1 >= 1 by {
                assert(t[j] == qs[j]);
            }
        }
        lemma_merge_powers_value(ps, t, env);
        assert(qs.last().1 >= 1) by {
            assert(qs[qs.len() - 1].1 >= 1);
        }
        lemma_merge_power_value(merge_powers(ps, t), qs.last().0, qs.last().1, env);
        let a = powers_value(ps, env);
        let b = powers_value(t, env);
        let c = power(value(qs.last().0, env), qs.last().1 as nat);
        assert((a * b) * c == a * (b * c)) by (nonlinear_arith);
    }
}

/// The product of two monomials has the product of their values.
proof fn lemma_mono_product_value(a: Monomial, b: Monomial, env: spec_fn(ExprModel) -> int)
    requires
        positive_powers(a.powers),
        positive_powers(b.powers),
    ensures
        positive_powers(mono_product(a, b).powers),
        mono_value(mono_product(a, b), env) == mono_value(a, env) * mono_value(b, env),
{
    lemma_merge_powers_value(a.powers, b.powers, env);
    let pa = powers_value(a.powers, env);
    let pb = powers_value(b.powers, env);
    assert((a.coeff * b.coeff) * (pa * pb) == (a.coeff * pa) * (b.coeff * pb)) by (nonlinear_arith);
}

/// The value of two sums of monomials, one after the other.
proof fn lemma_monos_concat(xs: Seq<Monomial>, ys: Seq<Monomial>, env: spec_fn(ExprModel) -> int)
    ensures
        monos_value(xs + ys, env) == monos_value(xs, env) + monos_value(ys, env),
    decreases ys.len(),
{
    if ys.len() > 0 {
        lemma_monos_concat(xs, ys.drop_last(), env);
        assert((xs + ys).drop_last() =~= xs + ys.drop_last());
        assert((xs + ys).last() == ys.last());
    } else {
        assert(xs + ys =~= xs);
    }
}

/// The first `n` products of `a` with the monomials of `q`.
proof fn lemma_row_products_value(a: Monomial, q: Seq<Monomial>, n: nat, env: spec_fn(ExprModel) -> int)
    requires
        n <= q.len(),
        positive_powers(a.powers),
        all_positive(q),
    ensures
        all_positive(row_products(a, q, n)),
        monos_value(row_products(a, q, n), env) == mono_value(a, env) * monos_value(q.take(n as int), env),
    decreases n,
{
    let r = row_products(a, q, n);
    if n == 0 {
        assert(q.take(0) =~= Seq::<Monomial>::empty());
        assert(mono_value(a, env) * 0 == 0) by (nonlinear_arith);
    } else {
        let m = (n - 1) as nat;
        lemma_row_products_value(a, q, m, env);
        assert(r.drop_last() =~= row_products(a, q, m));
        assert(q.take(n as int).drop_last() =~= q.take(m as int));
        assert(positive_powers(q[m as int].powers));
        lemma_mono_product_value(a, q[m as int], env);
        let va = mono_value(a, env);
        let s = monos_value(q.take(m as int), env);
        let vq = mono_value(q[m as int], env);
        assert(va * s + va * vq == va * (s + vq)) by (nonlinear_arith);
        assert forall|i: int| 0 <= i < r.len() implies positive_powers(#[trigger] r[i].powers) by {
            assert(positive_powers(q[i].powers));
            lemma_mono_product_value(a, q[i], env);
        }
    }
}

/// The product of two sums of monomials has the product of their values.
proof fn lemma_poly_product_value(p: Seq<Monomial>, q: Seq<Monomial>, env: spec_fn(ExprModel) -> int)
    requires
        all_positive(p),
        all_positive(q),
    ensures
        all_positive(poly_product(p, q)),
        monos_value(poly_product(p, q), env) == monos_value(p, env) * monos_value(q, env),
    decreases p.len(),
{
    if p.len() == 0 {
        assert(0 * monos_value(q, env) == 0) by (nonlinear_arith);
    } else {
        let t = p.drop_last();
        assert(all_positive(t)) by {
            assert forall|i: int| 0 <= i < t.len() implies positive_powers(#[trigger] t[i].powers) by {
                assert(t[i] == p[i]);
            }
        }
        lemma_poly_product_value(t, q, env);
        assert(positive_powers(p[p.len() - 1].powers));
        lemma_row_products_value(p.last(), q, q.len(), env);
        assert(q.take(q.len() as int) =~= q);
        let left = poly_product(t, q);
        let row = row_products(p.last(), q, q.len());
        lemma_monos_concat(left, row, env);
        let vt = monos_value(t, env);
        let vl = mono_value(p.last(), env);
        let vq = monos_value(q, env);
        assert(vt * vq + vl * vq == (vt + vl) * vq) by (nonlinear_arith);
        let all = left + row;
        assert forall|i: int| 0 <= i < all.len() implies positive_powers(#[trigger] all[i].powers) by {
            if i < left.len() {
                assert(all[i] == left[i]);
            } else {
                assert(all[i] == row[i - left.len()]);
            }
        }
    }
}

/// The monomials of an expression have its value.
proof fn lemma_expand_terms_value(m: ExprModel, env: spec_fn(ExprModel) -> int)
    ensures
        all_positive(expand_terms(m)),
        monos_value(expand_terms(m), env) == value(m, env),
    decreases m, 1nat,
{
    let one = seq![Monomial { coeff: 1, powers: seq![(m, 1int)] }];
    match m {
        ExprModel::Number(NumberModel::Integer(c)) => {
            let ms = expand_terms(m);
            assert(ms.drop_last() =~= Seq::<Monomial>::empty());
            assert(monos_value(Seq::<Monomial>::empty(), env) == 0);
            assert(powers_value(Seq::<(ExprModel, int)>::empty(), env) == 1);
        },
        ExprModel::Number(NumberModel::BigInteger(c)) => {
            let ms = expand_terms(m);
            assert(ms.drop_last() =~= Seq::<Monomial>::empty());
            assert(monos_value(Seq::<Monomial>::empty(), env) == 0);
            assert(powers_value(Seq::<(ExprModel, int)>::empty(), env) == 1);
        },
        ExprModel::Add(ts) => {
            lemma_sum_terms_value(ts, env);
        },
        ExprModel::Mul(fs) => {
            lemma_product_terms_value(fs, env);
        },
        ExprModel::Pow(b, e) => {
            let ms = expand_terms(m);
            assert(ms.drop_last() =~= Seq::<Monomial>::empty());
            let ps = ms[0].powers;
            assert(ps.drop_last() =~= Seq::<(ExprModel, int)>::empty());
            assert(monos_value(Seq::<Monomial>::empty(), env) == 0);
            assert(powers_value(Seq::<(ExprModel, int)>::empty(), env) == 1);
            let v = value(m, env);
            assert(power(v, 1) == v * power(v, 0));
        },
        _ => {
            let ms = expand_terms(m);
            assert(ms == one);
            assert(ms.drop_last() =~= Seq::<Monomial>::empty());
            let ps = ms[0].powers;
            assert(ps.drop_last() =~= Seq::<(ExprModel, int)>::empty());
            assert(monos_value(Seq::<Monomial>::empty(), env) == 0);
            assert(powers_value(Seq::<(ExprModel, int)>::empty(), env) == 1);
            let v = value(m, env);
            assert(power(v, 1) == v * power(v, 0));
        },
    }
}

/// The monomials of the terms of a sum have the sum's value.
proof fn lemma_sum_terms_value(ts: Seq<ExprModel>, env: spec_fn(ExprModel) -> int)
    ensures
        all_positive(sum_terms(ts)),
        monos_value(sum_terms(ts), env) == sum_values(ts, env),
    decreases ts, 0nat,
{
    if ts.len() > 0 {
        let t = ts.subrange(0, ts.len() - 1);
        lemma_sum_terms_value(t, env);
        lemma_expand_terms_value(ts[ts.len() - 1], env);
        let a = sum_terms(t);
        let b = expand_terms(ts[ts.len() - 1]);
        lemma_monos_concat(a, b, env);
        let all = a + b;
        assert forall|i: int| 0 <= i < all.len() implies positive_powers(#[trigger] all[i].powers) by {
            if i < a.len() {
                assert(all[i] == a[i]);
            } else {
                assert(all[i] == b[i - a.len()]);
            }
        }
    }
}

/// The monomials of a product of factors have the product's value.
proof fn lemma_product_terms_value(fs: Seq<ExprModel>, env: spec_fn(ExprModel) -> int)
    ensures
        all_positive(product_terms(fs)),
        monos_value(product_terms(fs), env) == product_values(fs, env),
    decreases fs, 0nat,
{
    if fs.len() == 0 {
        let ms = product_terms(fs);
        assert(ms.drop_last() =~= Seq::<Monomial>::empty());
        assert(monos_value(Seq::<Monomial>::empty(), env) == 0);
        assert(powers_value(Seq::<(ExprModel, int)>::empty(), env) == 1);
        assert(product_values(fs, env) == 1);
    } else {
        let t = fs.subrange(0, fs.len() - 1);
        lemma_product_terms_value(t, env);
        lemma_expand_terms_value(fs[fs.len() - 1], env);
        lemma_poly_product_value(product_terms(t), expand_terms(fs[fs.len() - 1]), env);
    }
}

/// Collecting like monomials keeps the value.
proof fn lemma_collect_value(ms: Seq<Monomial>, env: spec_fn(ExprModel) -> int)
    requires
        all_positive(ms),
    ensures
        all_positive(collect(ms)),
        monos_value(collect(ms), env) == monos_value(ms, env),
    decreases ms.len(),
{
    if ms.len() > 0 {
        let t = ms.drop_last();
        assert(all_positive(t)) by {
            assert forall|i: int| 0 <= i < t.len() implies positive_powers(#[trigger] t[i].powers) by {
                assert(t[i] == ms[i]);
            }
        }
        lemma_collect_value(t, env);
        let acc = collect(t);
        let m = ms.last();
        assert(positive_powers(ms[ms.len() - 1].powers));
        match like_index(acc, m.powers) {
            Some(i) => {
                lemma_like_index(acc, m.powers);
                let x = Monomial { coeff: acc[i].coeff + m.coeff, powers: m.powers };
                let u = acc.update(i, x);
                lemma_monos_remove(u, i, env);
                lemma_monos_remove(acc, i, env);
                assert(u.remove(i) =~= acc.remove(i));
                let p = powers_value(m.powers, env);
                assert((acc[i].coeff + m.coeff) * p == acc[i].coeff * p + m.coeff * p) by (nonlinear_arith);
                assert forall|j: int| 0 <= j < u.len() implies positive_powers(#[trigger] u[j].powers) by {
                    if j != i {
                        assert(u[j] == acc[j]);
                    }
                }
            },
            None => {
                let u = acc.push(m);
                assert(u.drop_last() =~= acc);
                assert forall|j: int| 0 <= j < u.len() implies positive_powers(#[trigger] u[j].powers) by {
                    if j < acc.len() {
                        assert(u[j] == acc[j]);
                    }
                }
            },
        }
    }
}

/// The powers of a monomial, as expressions, multiply to its product of powers.
proof fn lemma_power_exprs_value(ps: Seq<(ExprModel, int)>, env: spec_fn(ExprModel) -> int)
    requires
        positive_powers(ps),
    ensures
        product_values(power_exprs(ps), env) == powers_value(ps, env),
    decreases ps.len(),
{
    if ps.len() > 0 {
        let t = ps.drop_last();
        assert(positive_powers(t)) by {
            assert forall|j: int| 0 <= j < t.len() implies #[trigger] t[j].1 >= 1 by {
                assert(t[j] == ps[j]);
            }
        }
        lemma_power_exprs_value(t, env);
        let pe = power_exprs(ps);
        assert(pe.subrange(0, pe.len() - 1) =~= power_exprs(t));
        let (b, k) = ps.last();
        assert(ps[ps.len() - 1].1 >= 1);
        law_pow_keeps_value(b, number_model_of(k), env);
    }
}

/// A monomial as an expression has the monomial's value.
proof fn lemma_mono_expr_value(m: Monomial, env: spec_fn(ExprModel) -> int)
    requires
        positive_powers(m.powers),
    ensures
        value(mono_expr(m), env) == mono_value(m, env),
{
    let all = seq![number_model_of(m.coeff)] + power_exprs(m.powers);
    law_mul_keeps_value(all, env);
    lemma_product_prepend(number_model_of(m.coeff), power_exprs(m.powers), env);
    lemma_power_exprs_value(m.powers, env);
}

/// The non-zero monomials, as expressions, sum to the value of all of them.
proof fn lemma_nonzero_value(ms: Seq<Monomial>, env: spec_fn(ExprModel) -> int)
    requires
        all_positive(ms),
    ensures
        sum_values(nonzero_exprs(ms), env) == monos_value(ms, env),
    decreases ms.len(),
{
    if ms.len() == 0 {
        assert(sum_values(Seq::<ExprModel>::empty(), env) == 0);
    } else {
        let t = ms.drop_last();
        assert(all_positive(t)) by {
            assert forall|i: int| 0 <= i < t.len() implies positive_powers(#[trigger] t[i].powers) by {
                assert(t[i] == ms[i]);
            }
        }
        lemma_nonzero_value(t, env);
        let m = ms.last();
        if m.coeff == 0 {
            assert(0 * powers_value(m.powers, env) == 0) by (nonlinear_arith);
        } else {
            assert(positive_powers(ms[ms.len() - 1].powers));
            lemma_mono_expr_value(m, env);
            lemma_sum_push(nonzero_exprs(t), mono_expr(m), env);
        }
    }
}

/// Expansion never changes the value: the expanded form has, for every
/// assignment of integers to the atoms, the value of the expression.
pub proof fn law_expand_keeps_value(m: ExprModel, env: spec_fn(ExprModel) -> int)
    ensures
        value(spec_expand(m), env) == value(m, env),
{
    lemma_expand_terms_value(m, env);
    lemma_collect_value(expand_terms(m), env);
    lemma_nonzero_value(collect(expand_terms(m)), env);
    law_add_keeps_value(nonzero_exprs(collect(expand_terms(m))), env);
}

/// A monomial under construction.
pub struct Term {
    pub coeff: BigInteger,
    pub powers: Vec<(Expression, BigInteger)>,
}

/// The model of a list of powers.
pub open spec fn powers_model(v: Seq<(Expression, BigInteger)>) -> Seq<(ExprModel, int)> {
    Seq::new(v.len(), |i: int| (v[i].0@, v[i].1@))
}

impl Term {
    /// The monomial that the term stands for.
    pub open spec fn model(&self) -> Monomial {
        Monomial { coeff: self.coeff@, powers: powers_model(self.powers@) }
    }
}

/// The monomials of a list of terms.
pub open spec fn terms_model(v: Seq<Term>) -> Seq<Monomial> {
    Seq::new(v.len(), |i: int| v[i].model())
}

/// Appending a term appends its monomial.
proof fn lemma_terms_model_push(v: Seq<Term>, t: Term)
    ensures
        terms_model(v.push(t)) == terms_model(v).push(t.model()),
{
    assert(terms_model(v.push(t)) =~= terms_model(v).push(t.model()));
}

/// The list holding the single term `t`.
fn one_term(t: Term) -> (r: Vec<Term>)
    ensures
        terms_model(r@) == seq![t.model()],
{
    let ghost tm = t.model();
    let mut v: Vec<Term> = Vec::new();
    v.push(t);
    assert(terms_model(v@) =~= seq![tm]);
    v
}

/// The list holding the single power `b^k`.
fn one_power(b: Expression, k: BigInteger) -> (r: Vec<(Expression, BigInteger)>)
    ensures
        powers_model(r@) == seq![(b@, k@)],
{
    let ghost bm = b@;
    let ghost km = k@;
    let mut v: Vec<(Expression, BigInteger)> = Vec::new();
    v.push((b, k));
    assert(powers_model(v@) =~= seq![(bm, km)]);
    v
}

/// A term with no powers.
fn constant_term(c: BigInteger) -> (r: Vec<Term>)
    ensures
        terms_model(r@) == seq![Monomial { coeff: c@, powers: Seq::empty() }],
{
    let powers: Vec<(Expression, BigInteger)> = Vec::new();
    assert(powers_model(powers@) =~= Seq::<(ExprModel, int)>::empty());
    one_term(Term { coeff: c, powers })
}

/// A copy of a list of powers.
fn copy_powers(ps: &Vec<(Expression, BigInteger)>) -> (r: Vec<(Expression, BigInteger)>)
    ensures
        powers_model(r@) == powers_model(ps@),
{
    let mut out: Vec<(Expression, BigInteger)> = Vec::new();
    let mut i: usize = 0;
    while i < ps.len()
        invariant
            i <= ps.len(),
            out@.len() == i,
            forall|j: int| 0 <= j < i ==> #[trigger] out@[j].0@ == ps@[j].0@ && out@[j].1@ == ps@[j].1@,
        decreases ps.len() - i,
    {
        let b = ps[i].0.deep_clone();
        let k = ps[i].1.duplicate();
        out.push((b, k));
        i = i + 1;
    }
    assert(powers_model(out@) =~= powers_model(ps@));
    out
}

/// A copy of a term.
fn copy_term(t: &Term) -> (r: Term)
    ensures
        r.model() == t.model(),
{
    Term { coeff: t.coeff.duplicate(), powers: copy_powers(&t.powers) }
}

/// Index of the first power of `ps` with base `b`.
fn find_base(ps: &Vec<(Expression, BigInteger)>, b: &Expression) -> (r: Option<usize>)
    ensures
        r is Some <==> base_index(powers_model(ps@), b@) is Some,
        r matches Some(i) ==> base_index(powers_model(ps@), b@) == Some(i as int) && i < ps.len(),
{
    let ghost s = powers_model(ps@);
    let mut i: usize = 0;
    assert(s.subrange(0, s.len() as int) =~= s);
    while i < ps.len()
        invariant
            i <= ps.len(),
            s == powers_model(ps@),
            base_index(s, b@) == (match base_index(s.subrange(i as int, s.len() as int), b@) {
                Some(k) => Some(k + i),
                None => None,
            }),
        decreases ps.len() - i,
    {
        let ghost sub = s.subrange(i as int, s.len() as int);
        assert(sub.drop_first() =~= s.subrange(i + 1, s.len() as int));
        if ps[i].0.same(b) {
            return Some(i);
        }
        i = i + 1;
    }
    None
}

/// `ps` multiplied by `b^k` (see [`merge_power`]).
fn merge_one(ps: Vec<(Expression, BigInteger)>, b: Expression, k: BigInteger) -> (r: Vec<(Expression, BigInteger)>)
    ensures
        powers_model(r@) == merge_power(powers_model(ps@), b@, k@),
{
    let mut ps = ps;
    let ghost s = powers_model(ps@);
    match find_base(&ps, &b) {
        Some(i) => {
            let sum = big_add(&ps[i].1, &k);
            let ghost bm = b@;
            let ghost km = sum@;
            ps.set(i, (b, sum));
            assert(powers_model(ps@) =~= s.update(i as int, (bm, km)));
            ps
        },
        None => {
            let ghost bm = b@;
            let ghost km = k@;
            ps.push((b, k));
            assert(powers_model(ps@) =~= s.push((bm, km)));
            ps
        },
    }
}

/// The product of two terms.
fn term_product(a: &Term, b: &Term) -> (r: Term)
    ensures
        r.model() == mono_product(a.model(), b.model()),
{
    let ghost qs = powers_model(b.powers@);
    let mut ps = copy_powers(&a.powers);
    let mut i: usize = 0;
    while i < b.powers.len()
        invariant
            i <= b.powers.len(),
            qs == powers_model(b.powers@),
            powers_model(ps@) == merge_powers(powers_model(a.powers@), qs.take(i as int)),
        decreases b.powers.len() - i,
    {
        assert(qs.take(i + 1).drop_last() =~= qs.take(i as int));
        let base = b.powers[i].0.deep_clone();
        let k = b.powers[i].1.duplicate();
        ps = merge_one(ps, base, k);
        i = i + 1;
    }
    assert(qs.take(b.powers.len() as int) =~= qs);
    Term { coeff: big_mul(&a.coeff, &b.coeff), powers: ps }
}

/// The product of two lists of terms (see [`poly_product`]).
fn terms_product(p: &Vec<Term>, q: &Vec<Term>) -> (r: Vec<Term>)
    ensures
        terms_model(r@) == poly_product(terms_model(p@), terms_model(q@)),
{
    let ghost pm = terms_model(p@);
    let ghost qm = terms_model(q@);
    let mut out: Vec<Term> = Vec::new();
    let mut i: usize = 0;
    assert(pm.take(0) =~= Seq::<Monomial>::empty());
    assert(terms_model(out@) =~= Seq::<Monomial>::empty());
    while i < p.len()
        invariant
            i <= p.len(),
            pm == terms_model(p@),
            qm == terms_model(q@),
            terms_model(out@) == poly_product(pm.take(i as int), qm),
        decreases p.len() - i,
    {
        let ghost before = terms_model(out@);
        let mut j: usize = 0;
        while j < q.len()
            invariant
                i < p.len(),
                j <= q.len(),
                pm == terms_model(p@),
                qm == terms_model(q@),
                terms_model(out@) == before + row_products(pm[i as int], qm, j as nat),
            decreases q.len() - j,
        {
            let ghost prev = out@;
            let t = term_product(&p[i], &q[j]);
            let ghost tm = t.model();
            out.push(t);
            proof {
                lemma_terms_model_push(prev, out@[prev.len() as int]);
                assert(out@ =~= prev.push(out@[prev.len() as int]));
                assert(row_products(pm[i as int], qm, (j + 1) as nat) =~= row_products(pm[i as int], qm, j as nat).push(tm));
                assert(terms_model(out@) =~= before + row_products(pm[i as int], qm, (j + 1) as nat));
            }
            j = j + 1;
        }
        assert(pm.take(i + 1).drop_last() =~= pm.take(i as int));
        assert(pm.take(i + 1).last() == pm[i as int]);
        assert(terms_model(out@) =~= poly_product(pm.take(i + 1), qm));
        i = i + 1;
    }
    assert(pm.take(p.len() as int) =~= pm);
    out
}

/// The single term `1·e`.
fn atom_term(e: &Expression) -> (r: Vec<Term>)
    ensures
        terms_model(r@) == atom(e@),
{
    let powers = one_power(e.deep_clone(), BigInteger::from_i64(1));
    one_term(Term { coeff: BigInteger::from_i64(1), powers })
}

/// The monomials of the terms of a sum (see [`sum_terms`]).
fn sum_vec(ts: &Vec<Expression>) -> (r: Vec<Term>)
    ensures
        terms_model(r@) == sum_terms(view_seq(ts@)),
    decreases ts, 0nat,
{
    let ghost s = view_seq(ts@);
    proof {
        lemma_view_seq(ts@);
    }
    let mut out: Vec<Term> = Vec::new();
    let mut i: usize = 0;
    assert(s.take(0) =~= Seq::<ExprModel>::empty());
    assert(terms_model(out@) =~= Seq::<Monomial>::empty());
    while i < ts.len()
        invariant
            i <= ts.len(),
            s == view_seq(ts@),
            s.len() == ts.len(),
            forall|j: int| 0 <= j < ts.len() ==> #[trigger] s[j] == ts@[j]@,
            terms_model(out@) == sum_terms(s.take(i as int)),
        decreases ts.len() - i,
    {
        proof {
            vstd::std_specs::vec::axiom_vec_index_decreases(*ts, i as int);
        }
        let more = expand_terms_of(&ts[i]);
        let ghost before = terms_model(out@);
        let mut k: usize = 0;
        while k < more.len()
            invariant
                k <= more.len(),
                terms_model(out@) == before + terms_model(more@).take(k as int),
            decreases more.len() - k,
        {
            let ghost prev = out@;
            out.push(copy_term(&more[k]));
            proof {
                lemma_terms_model_push(prev, out@[prev.len() as int]);
                assert(out@ =~= prev.push(out@[prev.len() as int]));
                assert(terms_model(more@).take(k + 1) =~= terms_model(more@).take(k as int).push(more@[k as int].model()));
                assert(terms_model(out@) =~= before + terms_model(more@).take(k + 1));
            }
            k = k + 1;
        }
        assert(terms_model(more@).take(more.len() as int) =~= terms_model(more@));
        assert(s.take(i + 1).subrange(0, i as int) =~= s.take(i as int));
        assert(terms_model(out@) =~= sum_terms(s.take(i + 1)));
        i = i + 1;
    }
    assert(s.take(ts.len() as int) =~= s);
    out
}

/// The monomials of a product of factors (see [`product_terms`]).
fn product_vec(fs: &Vec<Expression>) -> (r: Vec<Term>)
    ensures
        terms_model(r@) == product_terms(view_seq(fs@)),
    decreases fs, 0nat,
{
    let ghost s = view_seq(fs@);
    proof {
        lemma_view_seq(fs@);
    }
    let mut acc: Vec<Term> = constant_term(BigInteger::from_i64(1));
    let mut i: usize = 0;
    assert(s.take(0) =~= Seq::<ExprModel>::empty());
    while i < fs.len()
        invariant
            i <= fs.len(),
            s == view_seq(fs@),
            s.len() == fs.len(),
            forall|j: int| 0 <= j < fs.len() ==> #[trigger] s[j] == fs@[j]@,
            terms_model(acc@) == product_terms(s.take(i as int)),
        decreases fs.len() - i,
    {
        proof {
            vstd::std_specs::vec::axiom_vec_index_decreases(*fs, i as int);
        }
        let more = expand_terms_of(&fs[i]);
        acc = terms_product(&acc, &more);
        assert(s.take(i + 1).subrange(0, i as int) =~= s.take(i as int));
        i = i + 1;
    }
    assert(s.take(fs.len() as int) =~= s);
    acc
}

/// The monomials of an expression (see [`expand_terms`]).
fn expand_terms_of(e: &Expression) -> (r: Vec<Term>)
    ensures
        terms_model(r@) == expand_terms(e@),
    decreases e, 1nat,
{
    match e {
        Expression::Number(Number::Integer(c)) => {
            let r = constant_term(BigInteger::from_i64(*c));
            assert(expand_terms(e@) == seq![Monomial { coeff: *c as int, powers: Seq::empty() }]);
            r
        },
        Expression::Number(Number::BigInteger(c)) => {
            let r = constant_term(c.duplicate());
            assert(expand_terms(e@) == seq![Monomial { coeff: c@, powers: Seq::empty() }]);
            r
        },
        Expression::Add(ts) => sum_vec(ts),
        Expression::Mul(fs) => product_vec(fs),
        Expression::Pow(b, x) => {
            let k: Option<i64> = match &**x {
                Expression::Number(Number::Integer(k)) => if *k >= 1 {
                    Some(*k)
                } else {
                    None
                },
                _ => None,
            };
            match k {
                Some(k) => {
                    let powers = one_power(b.deep_clone(), BigInteger::from_i64(k));
                    let r = one_term(Term { coeff: BigInteger::from_i64(1), powers });
                    assert(x@ == ExprModel::Number(NumberModel::Integer(k as int)));
                    assert(e@ == ExprModel::Pow(Box::new(b@), Box::new(x@)));
                    assert(expand_terms(e@) == seq![Monomial { coeff: 1, powers: seq![(b@, k as int)] }]);
                    r
                },
                None => {
                    let r = atom_term(e);
                    assert(expand_terms(e@) == atom(e@));
                    r
                },
            }
        },
        _ => atom_term(e),
    }
}

/// Whether two lists of powers are equal.
fn same_powers(a: &Vec<(Expression, BigInteger)>, b: &Vec<(Expression, BigInteger)>) -> (r: bool)
    ensures
        r == (powers_model(a@) == powers_model(b@)),
{
    if a.len() != b.len() {
        assert(powers_model(a@).len() != powers_model(b@).len());
        return false;
    }
    let mut i: usize = 0;
    while i < a.len()
        invariant
            a.len() == b.len(),
            i <= a.len(),
            forall|j: int| 0 <= j < i ==> #[trigger] powers_model(a@)[j] == powers_model(b@)[j],
        decreases a.len() - i,
    {
        if !a[i].0.same(&b[i].0) || !a[i].1.same(&b[i].1) {
            assert(powers_model(a@)[i as int] != powers_model(b@)[i as int]);
            return false;
        }
        i = i + 1;
    }
    assert(powers_model(a@) =~= powers_model(b@));
    true
}

/// Index of the first term of `acc` with the powers `ps`.
fn find_like(acc: &Vec<Term>, ps: &Vec<(Expression, BigInteger)>) -> (r: Option<usize>)
    ensures
        r is Some <==> like_index(terms_model(acc@), powers_model(ps@)) is Some,
        r matches Some(i) ==> like_index(terms_model(acc@), powers_model(ps@)) == Some(i as int)
            && i < acc.len(),
{
    let ghost s = terms_model(acc@);
    let ghost p = powers_model(ps@);
    let mut i: usize = 0;
    assert(s.subrange(0, s.len() as int) =~= s);
    while i < acc.len()
        invariant
            i <= acc.len(),
            s == terms_model(acc@),
            p == powers_model(ps@),
            like_index(s, p) == (match like_index(s.subrange(i as int, s.len() as int), p) {
                Some(k) => Some(k + i),
                None => None,
            }),
        decreases acc.len() - i,
    {
        let ghost sub = s.subrange(i as int, s.len() as int);
        assert(sub.drop_first() =~= s.subrange(i + 1, s.len() as int));
        if same_powers(&acc[i].powers, ps) {
            return Some(i);
        }
        i = i + 1;
    }
    None
}

/// Like terms collected (see [`collect`]).
fn collect_terms(ms: &Vec<Term>) -> (r: Vec<Term>)
    ensures
        terms_model(r@) == collect(terms_model(ms@)),
{
    let ghost s = terms_model(ms@);
    let mut acc: Vec<Term> = Vec::new();
    let mut i: usize = 0;
    assert(s.take(0) =~= Seq::<Monomial>::empty());
    assert(terms_model(acc@) =~= Seq::<Monomial>::empty());
    while i < ms.len()
        invariant
            i <= ms.len(),
            s == terms_model(ms@),
            terms_model(acc@) == collect(s.take(i as int)),
        decreases ms.len() - i,
    {
        assert(s.take(i + 1).drop_last() =~= s.take(i as int));
        let ghost before = terms_model(acc@);
        let m = &ms[i];
        match find_like(&acc, &m.powers) {
            Some(j) => {
                let sum = big_add(&acc[j].coeff, &m.coeff);
                let t = Term { coeff: sum, powers: copy_powers(&m.powers) };
                let ghost tm = t.model();
                acc.set(j, t);
                assert(terms_model(acc@) =~= before.update(j as int, tm));
            },
            None => {
                let t = copy_term(m);
                let ghost tm = t.model();
                acc.push(t);
                assert(terms_model(acc@) =~= before.push(tm));
            },
        }
        i = i + 1;
    }
    assert(s.take(ms.len() as int) =~= s);
    acc
}

/// A term as an expression (see [`mono_expr`]).
fn term_expr(t: &Term) -> (r: Expression)
    ensures
        r@ == mono_expr(t.model()),
{
    let ghost ps = powers_model(t.powers@);
    let mut parts: Vec<Expression> = vec![Expression::big_integer(t.coeff.duplicate())];
    let ghost first = parts@[0]@;
    let mut i: usize = 0;
    while i < t.powers.len()
        invariant
            i <= t.powers.len(),
            ps == powers_model(t.powers@),
            first == number_model_of(t.coeff@),
            parts@.len() == i + 1,
            parts@[0]@ == first,
            forall|j: int| 0 <= j < i ==> #[trigger] parts@[j + 1]@ == spec_pow(ps[j].0, number_model_of(ps[j].1)),
        decreases t.powers.len() - i,
    {
        let b = t.powers[i].0.deep_clone();
        let k = Expression::big_integer(t.powers[i].1.duplicate());
        parts.push(Expression::pow(b, k));
        i = i + 1;
    }
    proof {
        lemma_view_seq(parts@);
        let target = seq![number_model_of(t.coeff@)] + power_exprs(ps);
        assert forall|j: int| 0 <= j < parts@.len() implies view_seq(parts@)[j] == target[j] by {
            if j > 0 {
                assert(parts@[(j - 1) + 1]@ == spec_pow(ps[j - 1].0, number_model_of(ps[j - 1].1)));
            }
        }
        assert(view_seq(parts@) =~= target);
    }
    Expression::mul(parts)
}

impl Expression {
    /// The expanded form of the expression (see [`spec_expand`]).
    pub fn expand(&self) -> (r: Expression)
        ensures
            r@ == spec_expand(self@),
    {
        let terms = expand_terms_of(self);
        let collected = collect_terms(&terms);
        let ghost cm = terms_model(collected@);
        let mut out: Vec<Expression> = Vec::new();
        let mut i: usize = 0;
        assert(cm.take(0) =~= Seq::<Monomial>::empty());
        proof {
            lemma_view_seq(out@);
        }
        assert(view_seq(out@) =~= Seq::<ExprModel>::empty());
        while i < collected.len()
            invariant
                i <= collected.len(),
                cm == terms_model(collected@),
                view_seq(out@) == nonzero_exprs(cm.take(i as int)),
            decreases collected.len() - i,
        {
            assert(cm.take(i + 1).drop_last() =~= cm.take(i as int));
            if !collected[i].coeff.is_zero() {
                let ghost before = out@;
                out.push(term_expr(&collected[i]));
                proof {
                    lemma_view_seq(out@);
                    lemma_view_seq(before);
                    assert(view_seq(out@) =~= view_seq(before).push(mono_expr(cm[i as int])));
                }
            }
            i = i + 1;
        }
        assert(cm.take(collected.len() as int) =~= cm);
        Expression::add(out)
    }
}

} // verus!
