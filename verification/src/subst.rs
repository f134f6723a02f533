//! Variable assignments and substitution of variables by expressions.

use crate::construct::{non_consts, prod_consts, spec_add, spec_mul, spec_pow, sum_consts};
use crate::expr::{
    int_model, number_model_of, lemma_view_pieces, lemma_view_rows, lemma_view_seq, view_pieces, view_rows, view_seq,
    ComplexData, ExprModel, Expression, IntervalData, MatrixData, PiecewiseData, RelationData,
};
use crate::value::{
    all_polynomial, is_polynomial, law_add_keeps_value, law_mul_keeps_value, law_pow_keeps_value,
    lemma_add_polynomial, lemma_all_polynomial, lemma_mul_polynomial, lemma_pow_polynomial,
    lemma_product_congruent, lemma_sum_congruent, value,
};
use vstd::prelude::*;

verus! {

/// A finite map from variable names to expressions, kept in insertion order.
#[derive(Debug)]
pub struct VarMap {
    entries: Vec<(String, Expression)>,
}

/// The map given by a list of `(name, value)` entries (a later entry for a name
/// wins, though the entries of a [`VarMap`] never repeat a name).
pub open spec fn map_of(s: Seq<(String, Expression)>) -> Map<Seq<char>, ExprModel>
    decreases s.len(),
{
    if s.len() == 0 {
        Map::empty()
    } else {
        map_of(s.drop_last()).insert(s.last().0@, s.last().1@)
    }
}

/// No two entries share a name.
pub open spec fn names_distinct(s: Seq<(String, Expression)>) -> bool {
    forall|i: int, j: int| 0 <= i < j < s.len() ==> s[i].0@ != s[j].0@
}

/// The names bound by `map_of(s)` are those of its entries, and each is bound to
/// the value of its (only) entry.
proof fn lemma_map_of(s: Seq<(String, Expression)>)
    requires
        names_distinct(s),
    ensures
        map_of(s).dom().finite(),
        map_of(s).dom().len() == s.len(),
        forall|k: Seq<char>| #[trigger]
            map_of(s).dom().contains(k) <==> exists|i: int| 0 <= i < s.len() && s[i].0@ == k,
        forall|i: int| 0 <= i < s.len() ==> #[trigger] map_of(s)[s[i].0@] == s[i].1@,
    decreases s.len(),
{
    if s.len() > 0 {
        let t = s.drop_last();
        assert(names_distinct(t));
        lemma_map_of(t);
        let last = s.last();
        assert(!map_of(t).dom().contains(last.0@)) by {
            if map_of(t).dom().contains(last.0@) {
                let i = choose|i: int| 0 <= i < t.len() && t[i].0@ == last.0@;
                assert(s[i].0@ == s[s.len() - 1].0@);
            }
        }
        assert forall|k: Seq<char>| #[trigger]
            map_of(s).dom().contains(k) <==> exists|i: int| 0 <= i < s.len() && s[i].0@ == k by {
            if map_of(s).dom().contains(k) && k != last.0@ {
                let i = choose|i: int| 0 <= i < t.len() && t[i].0@ == k;
                assert(s[i].0@ == k);
            }
            if exists|i: int| 0 <= i < s.len() && s[i].0@ == k {
                let i = choose|i: int| 0 <= i < s.len() && s[i].0@ == k;
                if i < s.len() - 1 {
                    assert(t[i].0@ == k);
                }
            }
        }
        assert forall|i: int| 0 <= i < s.len() implies #[trigger] map_of(s)[s[i].0@] == s[i].1@ by {
            if i < s.len() - 1 {
                assert(t[i] == s[i]);
                assert(s[i].0@ != last.0@);
            }
        }
    }
}

/// Replacing the value of the entry at `i` rebinds its name.
proof fn lemma_map_of_update(s: Seq<(String, Expression)>, i: int, e: (String, Expression))
    requires
        names_distinct(s),
        0 <= i < s.len(),
        e.0@ == s[i].0@,
    ensures
        names_distinct(s.update(i, e)),
        map_of(s.update(i, e)) == map_of(s).insert(e.0@, e.1@),
    decreases s.len(),
{
    let u = s.update(i, e);
    assert(names_distinct(u)) by {
        assert forall|a: int, b: int| 0 <= a < b < u.len() implies u[a].0@ != u[b].0@ by {
            assert(s[a].0@ != s[b].0@);
        }
    }
    if i == s.len() - 1 {
        assert(u.drop_last() =~= s.drop_last());
        assert(map_of(u) =~= map_of(s).insert(e.0@, e.1@));
    } else {
        let t = s.drop_last();
        assert(names_distinct(t));
        lemma_map_of_update(t, i, e);
        assert(u.drop_last() =~= t.update(i, e));
        assert(s.last().0@ != e.0@) by {
            assert(s[i].0@ != s[s.len() - 1].0@);
        }
        assert(map_of(u) =~= map_of(s).insert(e.0@, e.1@));
    }
}

/// Lists of entries with the same names and values, in the same order, give the
/// same map.
proof fn lemma_map_of_congruent(a: Seq<(String, Expression)>, b: Seq<(String, Expression)>)
    requires
        a.len() == b.len(),
        forall|i: int| 0 <= i < a.len() ==> #[trigger] a[i].0@ == b[i].0@ && a[i].1@ == b[i].1@,
    ensures
        map_of(a) == map_of(b),
    decreases a.len(),
{
    if a.len() > 0 {
        lemma_map_of_congruent(a.drop_last(), b.drop_last());
        assert(a.last().0@ == b.last().0@ && a.last().1@ == b.last().1@);
    }
}

impl View for VarMap {
    type V = Map<Seq<char>, ExprModel>;

    closed spec fn view(&self) -> Map<Seq<char>, ExprModel> {
        map_of(self.entries@)
    }
}

impl VarMap {
    #[verifier::type_invariant]
    spec fn distinct(self) -> bool {
        names_distinct(self.entries@)
    }

    /// The empty map.
    pub fn new() -> (r: VarMap)
        ensures
            r@ == Map::<Seq<char>, ExprModel>::empty(),
    {
        VarMap { entries: Vec::new() }
    }

    /// Binds `name` to `value`, replacing an earlier binding of `name`.
    pub fn insert(&mut self, name: String, value: Expression)
        ensures
            final(self)@ == old(self)@.insert(name@, value@),
    {
        proof {
            use_type_invariant(&*self);
        }
        let mut i: usize = 0;
        #[verifier::loop_isolation(false)]
        while i < self.entries.len()
            invariant
                i <= self.entries.len(),
                self.entries@ == old(self).entries@,
                names_distinct(self.entries@),
                forall|j: int| 0 <= j < i ==> #[trigger] self.entries@[j].0@ != name@,
            decreases self.entries.len() - i,
        {
            if self.entries[i].0 == name {
                let ghost before = self.entries@;
                let mut entries: Vec<(String, Expression)> = Vec::new();
                std::mem::swap(&mut entries, &mut self.entries);
                entries.set(i, (name, value));
                proof {
                    lemma_map_of_update(before, i as int, entries@[i as int]);
                    assert(entries@ =~= before.update(i as int, entries@[i as int]));
                }
                self.entries = entries;
                return;
            }
            i = i + 1;
        }
        let ghost before = self.entries@;
        let mut entries: Vec<(String, Expression)> = Vec::new();
        std::mem::swap(&mut entries, &mut self.entries);
        entries.push((name, value));
        proof {
            assert(entries@.drop_last() =~= before);
            assert(names_distinct(entries@)) by {
                assert forall|a: int, b: int| 0 <= a < b < entries@.len() implies entries@[a].0@
                    != entries@[b].0@ by {
                    if b < before.len() {
                        assert(before[a].0@ != before[b].0@);
                    } else {
                        assert(before[a].0@ != entries@[b].0@);
                    }
                }
            }
        }
        self.entries = entries;
    }

    /// The number of bound names.
    pub fn len(&self) -> (r: usize)
        ensures
            r == self@.len(),
    {
        proof {
            use_type_invariant(self);
            lemma_map_of(self.entries@);
        }
        self.entries.len()
    }

    /// Whether no name is bound.
    pub fn is_empty(&self) -> (r: bool)
        ensures
            r == (self@.len() == 0),
            r == (self@ == Map::<Seq<char>, ExprModel>::empty()),
    {
        proof {
            use_type_invariant(self);
            lemma_map_of(self.entries@);
            if self.entries@.len() > 0 {
                assert(self@.dom().contains(self.entries@[0].0@));
            } else {
                assert(self@ =~= Map::<Seq<char>, ExprModel>::empty());
            }
        }
        self.entries.len() == 0
    }

    /// The value bound to `name`, if any.
    pub fn get(&self, name: &String) -> (r: Option<&Expression>)
        ensures
            r is Some <==> self@.dom().contains(name@),
            r matches Some(v) ==> v@ == self@[name@],
    {
        proof {
            use_type_invariant(self);
            lemma_map_of(self.entries@);
        }
        let mut i: usize = 0;
        #[verifier::loop_isolation(false)]
        while i < self.entries.len()
            invariant
                i <= self.entries.len(),
                forall|j: int| 0 <= j < i ==> #[trigger] self.entries@[j].0@ != name@,
            decreases self.entries.len() - i,
        {
            if self.entries[i].0 == *name {
                assert(self.entries@[i as int].0@ == name@);
                return Some(&self.entries[i].1);
            }
            i = i + 1;
        }
        None
    }
}

impl Clone for VarMap {
    /// A copy of the map.
    fn clone(&self) -> (r: Self)
        ensures
            r@ == self@,
    {
        proof {
            use_type_invariant(self);
        }
        let mut entries: Vec<(String, Expression)> = Vec::new();
        let mut i: usize = 0;
        while i < self.entries.len()
            invariant
                i <= self.entries.len(),
                entries@.len() == i,
                names_distinct(self.entries@),
                forall|j: int| 0 <= j < i ==> #[trigger] entries@[j].0@ == self.entries@[j].0@
                    && entries@[j].1@ == self.entries@[j].1@,
            decreases self.entries.len() - i,
        {
            let name = self.entries[i].0.clone();
            let value = self.entries[i].1.deep_clone();
            entries.push((name, value));
            i = i + 1;
        }
        proof {
            lemma_map_of_congruent(entries@, self.entries@);
            assert forall|a: int, b: int| 0 <= a < b < entries@.len() implies entries@[a].0@
                != entries@[b].0@ by {
                assert(self.entries@[a].0@ != self.entries@[b].0@);
            }
        }
        VarMap { entries }
    }
}

/// The substituted form of the `i`-th member of `ts`.
pub open spec fn subst_at(ts: Seq<ExprModel>, i: int, vars: Map<Seq<char>, ExprModel>) -> ExprModel
    decreases ts, 0nat,
{
    if 0 <= i < ts.len() {
        spec_substitute(ts[i], vars)
    } else {
        ExprModel::Add(Seq::empty())
    }
}

/// The substituted forms of the members of `ts`.
pub open spec fn subst_seq(ts: Seq<ExprModel>, vars: Map<Seq<char>, ExprModel>) -> Seq<ExprModel>
    decreases ts, 1nat,
{
    Seq::new(ts.len(), |i: int| subst_at(ts, i, vars))
}

/// The substituted form of the `i`-th row of a matrix.
pub open spec fn subst_row_at(rows: Seq<Seq<ExprModel>>, i: int, vars: Map<Seq<char>, ExprModel>) -> Seq<ExprModel>
    decreases rows, 0nat,
{
    if 0 <= i < rows.len() {
        subst_seq(rows[i], vars)
    } else {
        Seq::empty()
    }
}

/// The substituted rows of a matrix.
pub open spec fn subst_rows(rows: Seq<Seq<ExprModel>>, vars: Map<Seq<char>, ExprModel>) -> Seq<Seq<ExprModel>>
    decreases rows, 1nat,
{
    Seq::new(rows.len(), |i: int| subst_row_at(rows, i, vars))
}

/// The substituted form of the `i`-th piece of a piecewise definition.
pub open spec fn subst_piece_at(p: Seq<(ExprModel, ExprModel)>, i: int, vars: Map<Seq<char>, ExprModel>) -> (ExprModel, ExprModel)
    decreases p, 0nat,
{
    if 0 <= i < p.len() {
        (spec_substitute(p[i].0, vars), spec_substitute(p[i].1, vars))
    } else {
        (ExprModel::Add(Seq::empty()), ExprModel::Add(Seq::empty()))
    }
}

/// The substituted pieces of a piecewise definition.
pub open spec fn subst_pieces(p: Seq<(ExprModel, ExprModel)>, vars: Map<Seq<char>, ExprModel>) -> Seq<(ExprModel, ExprModel)>
    decreases p, 1nat,
{
    Seq::new(p.len(), |i: int| subst_piece_at(p, i, vars))
}

/// Every variable bound in `vars` is replaced by its value, and every sum,
/// product and power is rebuilt by its canonical constructor. A derivative is
/// left as it is: its variable is bound by it.
pub open spec fn spec_substitute(m: ExprModel, vars: Map<Seq<char>, ExprModel>) -> ExprModel
    decreases m, 2nat,
{
    match m {
        ExprModel::Symbol(n) => if vars.dom().contains(n) {
            vars[n]
        } else {
            m
        },
        ExprModel::Add(ts) => spec_add(subst_seq(ts, vars)),
        ExprModel::Mul(ts) => spec_mul(subst_seq(ts, vars)),
        ExprModel::Pow(b, e) => spec_pow(spec_substitute(*b, vars), spec_substitute(*e, vars)),
        ExprModel::Function(name, args) => ExprModel::Function(name, subst_seq(args, vars)),
        ExprModel::Matrix(rows) => ExprModel::Matrix(subst_rows(rows, vars)),
        ExprModel::FiniteSet(ts) => ExprModel::FiniteSet(subst_seq(ts, vars)),
        ExprModel::Complex(a, b) => ExprModel::Complex(
            Box::new(spec_substitute(*a, vars)),
            Box::new(spec_substitute(*b, vars)),
        ),
        ExprModel::Interval(a, b, i1, i2) => ExprModel::Interval(
            Box::new(spec_substitute(*a, vars)),
            Box::new(spec_substitute(*b, vars)),
            i1,
            i2,
        ),
        ExprModel::Piecewise(p, d) => ExprModel::Piecewise(
            subst_pieces(p, vars),
            match d {
                Some(x) => Some(Box::new(spec_substitute(*x, vars))),
                None => None,
            },
        ),
        ExprModel::Relation(a, b, t) => ExprModel::Relation(
            Box::new(spec_substitute(*a, vars)),
            Box::new(spec_substitute(*b, vars)),
            t,
        ),
        _ => m,
    }
}

/// Length and entries of `subst_seq`, `subst_rows` and `subst_pieces`.
pub proof fn lemma_subst_seqs(vars: Map<Seq<char>, ExprModel>)
    ensures
        forall|ts: Seq<ExprModel>| #[trigger] subst_seq(ts, vars).len() == ts.len(),
        forall|ts: Seq<ExprModel>, i: int|
            0 <= i < ts.len() ==> #[trigger] subst_seq(ts, vars)[i] == spec_substitute(ts[i], vars),
        forall|rows: Seq<Seq<ExprModel>>| #[trigger] subst_rows(rows, vars).len() == rows.len(),
        forall|rows: Seq<Seq<ExprModel>>, i: int|
            0 <= i < rows.len() ==> #[trigger] subst_rows(rows, vars)[i] == subst_seq(rows[i], vars),
        forall|p: Seq<(ExprModel, ExprModel)>| #[trigger] subst_pieces(p, vars).len() == p.len(),
        forall|p: Seq<(ExprModel, ExprModel)>, i: int|
            0 <= i < p.len() ==> #[trigger] subst_pieces(p, vars)[i] == (
                spec_substitute(p[i].0, vars),
                spec_substitute(p[i].1, vars),
            ),
{
}

/// The assignment under which each variable bound in `vars` has the value of
/// its replacement under `env`; every other atom keeps its value under `env`.
pub open spec fn assign(vars: Map<Seq<char>, ExprModel>, env: spec_fn(ExprModel) -> int) -> spec_fn(ExprModel) -> int {
    |a: ExprModel|
        match a {
            ExprModel::Symbol(n) => if vars.dom().contains(n) {
                value(vars[n], env)
            } else {
                env(a)
            },
            _ => env(a),
        }
}

/// Every value bound in `vars` is a polynomial.
pub open spec fn polynomial_values(vars: Map<Seq<char>, ExprModel>) -> bool {
    forall|n: Seq<char>| #[trigger] vars.dom().contains(n) ==> is_polynomial(vars[n])
}

/// The variable `v` occurs nowhere in `m` outside a derivative (a derivative
/// binds its own variable, and substitution leaves it as it is).
pub open spec fn free_of(m: ExprModel, v: Seq<char>) -> bool
    decreases m, 1nat,
{
    match m {
        ExprModel::Symbol(n) => n != v,
        ExprModel::Add(ts) => all_free_of(ts, v),
        ExprModel::Mul(ts) => all_free_of(ts, v),
        ExprModel::Pow(b, e) => free_of(*b, v) && free_of(*e, v),
        ExprModel::Function(_, args) => all_free_of(args, v),
        ExprModel::Matrix(rows) => rows_free_of(rows, v),
        ExprModel::FiniteSet(ts) => all_free_of(ts, v),
        ExprModel::Complex(a, b) => free_of(*a, v) && free_of(*b, v),
        ExprModel::Interval(a, b, _, _) => free_of(*a, v) && free_of(*b, v),
        ExprModel::Piecewise(p, d) => pieces_free_of(p, v) && match d {
            Some(x) => free_of(*x, v),
            None => true,
        },
        ExprModel::Relation(a, b, _) => free_of(*a, v) && free_of(*b, v),
        _ => true,
    }
}

/// No member of `ts` has `v` outside a derivative.
pub open spec fn all_free_of(ts: Seq<ExprModel>, v: Seq<char>) -> bool
    decreases ts, 0nat,
{
    if ts.len() == 0 {
        true
    } else {
        all_free_of(ts.subrange(0, ts.len() - 1), v) && free_of(ts[ts.len() - 1], v)
    }
}

/// No entry of the rows has `v` outside a derivative.
pub open spec fn rows_free_of(rows: Seq<Seq<ExprModel>>, v: Seq<char>) -> bool
    decreases rows, 0nat,
{
    if rows.len() == 0 {
        true
    } else {
        rows_free_of(rows.subrange(0, rows.len() - 1), v) && all_free_of(rows[rows.len() - 1], v)
    }
}

/// No condition or value of the pieces has `v` outside a derivative.
pub open spec fn pieces_free_of(p: Seq<(ExprModel, ExprModel)>, v: Seq<char>) -> bool
    decreases p, 0nat,
{
    if p.len() == 0 {
        true
    } else {
        pieces_free_of(p.subrange(0, p.len() - 1), v) && free_of(p[p.len() - 1].0, v) && free_of(
            p[p.len() - 1].1,
            v,
        )
    }
}

/// `all_free_of` says it of each member.
proof fn lemma_all_free_of(ts: Seq<ExprModel>, v: Seq<char>)
    ensures
        all_free_of(ts, v) <==> forall|i: int| 0 <= i < ts.len() ==> #[trigger] free_of(ts[i], v),
    decreases ts.len(),
{
    if ts.len() > 0 {
        let t = ts.subrange(0, ts.len() - 1);
        lemma_all_free_of(t, v);
        if forall|i: int| 0 <= i < ts.len() ==> #[trigger] free_of(ts[i], v) {
            assert forall|i: int| 0 <= i < t.len() implies #[trigger] free_of(t[i], v) by {
                assert(t[i] == ts[i]);
            }
            assert(free_of(ts[ts.len() - 1], v));
            assert(all_free_of(ts, v));
        }
        if all_free_of(ts, v) {
            assert forall|i: int| 0 <= i < ts.len() implies #[trigger] free_of(ts[i], v) by {
                if i < ts.len() - 1 {
                    assert(t[i] == ts[i]);
                }
            }
        }
    }
}

/// `rows_free_of` says it of each row.
proof fn lemma_rows_free_of(rows: Seq<Seq<ExprModel>>, v: Seq<char>)
    ensures
        rows_free_of(rows, v) <==> forall|i: int| 0 <= i < rows.len() ==> #[trigger] all_free_of(rows[i], v),
    decreases rows.len(),
{
    if rows.len() > 0 {
        let t = rows.subrange(0, rows.len() - 1);
        lemma_rows_free_of(t, v);
        if forall|i: int| 0 <= i < rows.len() ==> #[trigger] all_free_of(rows[i], v) {
            assert forall|i: int| 0 <= i < t.len() implies #[trigger] all_free_of(t[i], v) by {
                assert(t[i] == rows[i]);
            }
            assert(all_free_of(rows[rows.len() - 1], v));
            assert(rows_free_of(rows, v));
        }
        if rows_free_of(rows, v) {
            assert forall|i: int| 0 <= i < rows.len() implies #[trigger] all_free_of(rows[i], v) by {
                if i < rows.len() - 1 {
                    assert(t[i] == rows[i]);
                }
            }
        }
    }
}

/// Neither the condition nor the value of piece `i` has `v` outside a derivative.
pub open spec fn piece_free_of(p: Seq<(ExprModel, ExprModel)>, i: int, v: Seq<char>) -> bool {
    free_of(p[i].0, v) && free_of(p[i].1, v)
}

/// `pieces_free_of` says it of each piece.
proof fn lemma_pieces_free_of(p: Seq<(ExprModel, ExprModel)>, v: Seq<char>)
    ensures
        pieces_free_of(p, v) <==> forall|i: int| 0 <= i < p.len() ==> #[trigger] piece_free_of(p, i, v),
    decreases p.len(),
{
    if p.len() > 0 {
        let t = p.subrange(0, p.len() - 1);
        lemma_pieces_free_of(t, v);
        if forall|i: int| 0 <= i < p.len() ==> #[trigger] piece_free_of(p, i, v) {
            assert forall|i: int| 0 <= i < t.len() implies #[trigger] piece_free_of(t, i, v) by {
                assert(t[i] == p[i]);
                assert(piece_free_of(p, i, v));
            }
            assert(piece_free_of(p, p.len() - 1, v));
            assert(pieces_free_of(p, v));
        }
        if pieces_free_of(p, v) {
            assert forall|i: int| 0 <= i < p.len() implies #[trigger] piece_free_of(p, i, v) by {
                if i < p.len() - 1 {
                    assert(t[i] == p[i]);
                    assert(piece_free_of(t, i, v));
                }
            }
        }
    }
}

/// The canonical constructors bring in no variable: a sum, a product or a
/// power of parts free of `v` is free of `v`.
proof fn lemma_constructors_free_of(ts: Seq<ExprModel>, b: ExprModel, e: ExprModel, v: Seq<char>)
    requires
        all_free_of(ts, v),
        free_of(b, v),
        free_of(e, v),
    ensures
        free_of(spec_add(ts), v),
        free_of(spec_mul(ts), v),
        free_of(spec_pow(b, e), v),
{
    lemma_all_free_of(ts, v);
    let rest = non_consts(ts);
    lemma_non_consts_members(ts);
    assert forall|i: int| 0 <= i < rest.len() implies #[trigger] free_of(rest[i], v) by {
        let j = choose|j: int| 0 <= j < ts.len() && ts[j] == rest[i];
        assert(free_of(ts[j], v));
    }
    let c = sum_consts(ts);
    let with_sum = rest.push(number_model_of(c));
    assert forall|i: int| 0 <= i < with_sum.len() implies #[trigger] free_of(with_sum[i], v) by {
        if i < rest.len() {
            assert(with_sum[i] == rest[i]);
        }
    }
    let with_prod = seq![number_model_of(prod_consts(ts))] + rest;
    assert forall|i: int| 0 <= i < with_prod.len() implies #[trigger] free_of(with_prod[i], v) by {
        if i > 0 {
            assert(with_prod[i] == rest[i - 1]);
        }
    }
    lemma_all_free_of(rest, v);
    lemma_all_free_of(with_sum, v);
    lemma_all_free_of(with_prod, v);
}

/// Each member of `non_consts(ts)` is a member of `ts`.
proof fn lemma_non_consts_members(ts: Seq<ExprModel>)
    ensures
        forall|i: int|
            0 <= i < non_consts(ts).len() ==> exists|j: int| 0 <= j < ts.len() && ts[j] == #[trigger] non_consts(ts)[i],
    decreases ts.len(),
{
    if ts.len() > 0 {
        let d = ts.drop_last();
        lemma_non_consts_members(d);
        let r = non_consts(ts);
        assert forall|i: int| 0 <= i < r.len() implies exists|j: int| 0 <= j < ts.len() && ts[j] == #[trigger] r[i] by {
            if i < non_consts(d).len() {
                assert(r[i] == non_consts(d)[i]);
                let j = choose|j: int| 0 <= j < d.len() && d[j] == non_consts(d)[i];
                assert(ts[j] == d[j]);
            } else {
                assert(r[i] == ts.last());
                assert(ts[ts.len() - 1] == r[i]);
            }
        }
    }
}

/// Substitution replaces every occurrence of a bound variable, in exponents,
/// arguments and every other part included: when no value in `vars` has the
/// bound variable `v` (outside a derivative), neither has the substituted
/// expression.
pub proof fn law_substitution_replaces_bound_variable(m: ExprModel, vars: Map<Seq<char>, ExprModel>, v: Seq<char>)
    requires
        vars.dom().contains(v),
        forall|w: Seq<char>| vars.dom().contains(w) ==> free_of(#[trigger] vars[w], v),
    ensures
        free_of(spec_substitute(m, vars), v),
    decreases m,
{
    lemma_subst_seqs(vars);
    match m {
        ExprModel::Add(ts) => {
            lemma_seq_substitution_free(ts, vars, v);
            lemma_constructors_free_of(subst_seq(ts, vars), int_model(0), int_model(0), v);
        },
        ExprModel::Mul(ts) => {
            lemma_seq_substitution_free(ts, vars, v);
            lemma_constructors_free_of(subst_seq(ts, vars), int_model(0), int_model(0), v);
        },
        ExprModel::Pow(b, e) => {
            law_substitution_replaces_bound_variable(*b, vars, v);
            law_substitution_replaces_bound_variable(*e, vars, v);
            lemma_constructors_free_of(
                Seq::empty(),
                spec_substitute(*b, vars),
                spec_substitute(*e, vars),
                v,
            );
        },
        ExprModel::Function(_, args) => {
            lemma_seq_substitution_free(args, vars, v);
        },
        ExprModel::FiniteSet(ts) => {
            lemma_seq_substitution_free(ts, vars, v);
        },
        ExprModel::Matrix(rows) => {
            let r = subst_rows(rows, vars);
            assert forall|i: int| 0 <= i < r.len() implies #[trigger] all_free_of(r[i], v) by {
                lemma_seq_substitution_free(rows[i], vars, v);
            }
            lemma_rows_free_of(r, v);
        },
        ExprModel::Complex(a, b) => {
            law_substitution_replaces_bound_variable(*a, vars, v);
            law_substitution_replaces_bound_variable(*b, vars, v);
        },
        ExprModel::Interval(a, b, _, _) => {
            law_substitution_replaces_bound_variable(*a, vars, v);
            law_substitution_replaces_bound_variable(*b, vars, v);
        },
        ExprModel::Relation(a, b, _) => {
            law_substitution_replaces_bound_variable(*a, vars, v);
            law_substitution_replaces_bound_variable(*b, vars, v);
        },
        ExprModel::Piecewise(p, d) => {
            let q = subst_pieces(p, vars);
            assert forall|i: int| 0 <= i < q.len() implies #[trigger] piece_free_of(q, i, v) by {
                law_substitution_replaces_bound_variable(p[i].0, vars, v);
                law_substitution_replaces_bound_variable(p[i].1, vars, v);
            }
            lemma_pieces_free_of(q, v);
            match d {
                Some(x) => {
                    law_substitution_replaces_bound_variable(*x, vars, v);
                },
                None => {},
            }
        },
        _ => {},
    }
}

/// The substituted members of `ts` are all free of `v`.
proof fn lemma_seq_substitution_free(ts: Seq<ExprModel>, vars: Map<Seq<char>, ExprModel>, v: Seq<char>)
    requires
        vars.dom().contains(v),
        forall|w: Seq<char>| vars.dom().contains(w) ==> free_of(#[trigger] vars[w], v),
    ensures
        all_free_of(subst_seq(ts, vars), v),
    decreases ts, 0nat,
{
    lemma_subst_seqs(vars);
    let r = subst_seq(ts, vars);
    assert forall|i: int| 0 <= i < r.len() implies #[trigger] free_of(r[i], v) by {
        law_substitution_replaces_bound_variable(ts[i], vars, v);
    }
    lemma_all_free_of(r, v);
}

/// Substitution is evaluation of the variables: substituting polynomials into a
/// polynomial `m` gives a polynomial whose value is that of `m` under the
/// substituted values, for every assignment of integers to the variables.
pub proof fn law_substitute_keeps_value(
    m: ExprModel,
    vars: Map<Seq<char>, ExprModel>,
    env: spec_fn(ExprModel) -> int,
)
    requires
        is_polynomial(m),
        polynomial_values(vars),
    ensures
        is_polynomial(spec_substitute(m, vars)),
        value(spec_substitute(m, vars), env) == value(m, assign(vars, env)),
    decreases m,
{
    let a = assign(vars, env);
    lemma_subst_seqs(vars);
    match m {
        ExprModel::Symbol(n) => {
            assert(a(m) == value(m, a));
        },
        ExprModel::Add(ts) => {
            let ss = subst_seq(ts, vars);
            lemma_substitute_members(ts, vars, env);
            lemma_sum_congruent(ss, ts, env, a);
            law_add_keeps_value(ss, env);
            lemma_add_polynomial(ss);
        },
        ExprModel::Mul(ts) => {
            let ss = subst_seq(ts, vars);
            lemma_substitute_members(ts, vars, env);
            lemma_product_congruent(ss, ts, env, a);
            law_mul_keeps_value(ss, env);
            lemma_mul_polynomial(ss);
        },
        ExprModel::Pow(b, e) => {
            law_substitute_keeps_value(*b, vars, env);
            let sb = spec_substitute(*b, vars);
            let k = e->Number_0->Integer_0;
            assert(spec_substitute(*e, vars) == *e);
            assert(*e == int_model(k));
            law_pow_keeps_value(sb, int_model(k), env);
            lemma_pow_polynomial(sb, k);
        },
        _ => {},
    }
}

/// The substituted members of a list of polynomials are polynomials, each with
/// the value of its source member under the substituted values.
proof fn lemma_substitute_members(
    ts: Seq<ExprModel>,
    vars: Map<Seq<char>, ExprModel>,
    env: spec_fn(ExprModel) -> int,
)
    requires
        all_polynomial(ts),
        polynomial_values(vars),
    ensures
        all_polynomial(subst_seq(ts, vars)),
        subst_seq(ts, vars).len() == ts.len(),
        forall|i: int| 0 <= i < ts.len() ==> #[trigger] value(subst_seq(ts, vars)[i], env) == value(
            ts[i],
            assign(vars, env),
        ),
    decreases ts,
{
    lemma_subst_seqs(vars);
    let ss = subst_seq(ts, vars);
    lemma_all_polynomial(ts);
    assert forall|i: int| 0 <= i < ts.len() implies #[trigger] value(ss[i], env) == value(
        ts[i],
        assign(vars, env),
    ) by {
        law_substitute_keeps_value(ts[i], vars, env);
    }
    assert forall|i: int| 0 <= i < ss.len() implies #[trigger] is_polynomial(ss[i]) by {
        law_substitute_keeps_value(ts[i], vars, env);
    }
    lemma_all_polynomial(ss);
}

/// Substituted copies of the members of `v`.
fn substitute_vec(v: &Vec<Expression>, vars: &VarMap) -> (r: Vec<Expression>)
    ensures
        view_seq(r@) == subst_seq(view_seq(v@), vars@),
    decreases v, 0nat,
{
    let ghost ts = view_seq(v@);
    proof {
        lemma_view_seq(v@);
        lemma_subst_seqs(vars@);
    }
    let mut out: Vec<Expression> = Vec::new();
    let mut i: usize = 0;
    while i < v.len()
        invariant
            i <= v.len(),
            ts == view_seq(v@),
            ts.len() == v.len(),
            forall|j: int| 0 <= j < v.len() ==> #[trigger] ts[j] == v@[j]@,
            out@.len() == i,
            forall|j: int| 0 <= j < i ==> #[trigger] out@[j]@ == spec_substitute(ts[j], vars@),
        decreases v.len() - i,
    {
        proof {
            vstd::std_specs::vec::axiom_vec_index_decreases(*v, i as int);
        }
        out.push(v[i].substitute(vars));
        i = i + 1;
    }
    proof {
        lemma_view_seq(out@);
    }
    assert(view_seq(out@) =~= subst_seq(ts, vars@));
    out
}

impl Expression {
    /// The expression with every variable bound in `vars` replaced by its value
    /// (see [`spec_substitute`]).
    pub fn substitute(&self, vars: &VarMap) -> (r: Expression)
        ensures
            r@ == spec_substitute(self@, vars@),
        decreases self, 1nat,
    {
        proof {
            lemma_subst_seqs(vars@);
        }
        match self {
            Expression::Symbol(s) => match vars.get(&s.name) {
                Some(v) => v.deep_clone(),
                None => self.deep_clone(),
            },
            Expression::Add(ts) => Expression::add(substitute_vec(ts, vars)),
            Expression::Mul(ts) => Expression::mul(substitute_vec(ts, vars)),
            Expression::Pow(b, e) => Expression::pow(b.substitute(vars), e.substitute(vars)),
            Expression::Function { name, args } => Expression::Function {
                name: name.clone(),
                args: substitute_vec(args, vars),
            },
            Expression::Matrix(m) => {
                let mut rows: Vec<Vec<Expression>> = Vec::new();
                let mut i: usize = 0;
                #[verifier::loop_isolation(false)]
                while i < m.rows.len()
                    invariant
                        i <= m.rows.len(),
                        rows@.len() == i,
                        forall|j: int| 0 <= j < i ==> #[trigger] view_seq(rows@[j]@) == subst_seq(view_seq(m.rows@[j]@), vars@),
                    decreases m.rows.len() - i,
                {
                    proof {
                        vstd::std_specs::vec::axiom_vec_index_decreases(m.rows, i as int);
                        assert(decreases_to!(self => m.rows));
                    }
                    rows.push(substitute_vec(&m.rows[i], vars));
                    i = i + 1;
                }
                proof {
                    lemma_view_rows(rows@);
                    lemma_view_rows(m.rows@);
                }
                assert(view_rows(rows@) =~= subst_rows(view_rows(m.rows@), vars@));
                Expression::Matrix(Box::new(MatrixData { rows }))
            },
            Expression::FiniteSet(ts) => Expression::FiniteSet(substitute_vec(ts, vars)),
            Expression::Complex(c) => Expression::Complex(Box::new(ComplexData {
                real: c.real.substitute(vars),
                imag: c.imag.substitute(vars),
            })),
            Expression::Interval(iv) => Expression::Interval(Box::new(IntervalData {
                start: iv.start.substitute(vars),
                end: iv.end.substitute(vars),
                start_inclusive: iv.start_inclusive,
                end_inclusive: iv.end_inclusive,
            })),
            Expression::Piecewise(p) => {
                let mut pieces: Vec<(Expression, Expression)> = Vec::new();
                let mut i: usize = 0;
                #[verifier::loop_isolation(false)]
                while i < p.pieces.len()
                    invariant
                        i <= p.pieces.len(),
                        pieces@.len() == i,
                        forall|j: int| #![trigger p.pieces@[j]] 0 <= j < i ==> pieces@[j].0@ == spec_substitute(p.pieces@[j].0@, vars@)
                            && pieces@[j].1@ == spec_substitute(p.pieces@[j].1@, vars@),
                    decreases p.pieces.len() - i,
                {
                    proof {
                        vstd::std_specs::vec::axiom_vec_index_decreases(p.pieces, i as int);
                        assert(decreases_to!(self => p.pieces));
                    }
                    let v = p.pieces[i].0.substitute(vars);
                    let c = p.pieces[i].1.substitute(vars);
                    pieces.push((v, c));
                    i = i + 1;
                }
                proof {
                    lemma_view_pieces(pieces@);
                    lemma_view_pieces(p.pieces@);
                    assert forall|j: int| 0 <= j < pieces@.len() implies view_pieces(pieces@)[j]
                        == subst_pieces(view_pieces(p.pieces@), vars@)[j] by {
                        assert(p.pieces@[j].0@ == p.pieces@[j].0@);
                    }
                }
                assert(view_pieces(pieces@) =~= subst_pieces(view_pieces(p.pieces@), vars@));
                let default = match &p.default {
                    Some(d) => Some(d.substitute(vars)),
                    None => None,
                };
                Expression::Piecewise(Box::new(PiecewiseData { pieces, default }))
            },
            Expression::Relation(r) => Expression::Relation(Box::new(RelationData {
                left: r.left.substitute(vars),
                right: r.right.substitute(vars),
                relation_type: r.relation_type,
            })),
            _ => self.deep_clone(),
        }
    }
}

} // verus!
