use vstd::prelude::*;

use super::IntVar;
use crate::arithmetic::{op_holds, CmpOp};

verus! {

/// The variables of `t` strictly increase and no coefficient is zero.
pub open spec fn terms_sorted(t: Seq<(IntVar, i32)>) -> bool {
    &&& forall|i: int, j: int| 0 <= i < j < t.len() ==> t[i].0.0 < t[j].0.0
    &&& forall|i: int| 0 <= i < t.len() ==> (#[trigger] t[i]).1 != 0
}

/// Variable `v` has a term in `t`.
pub open spec fn occurs(t: Seq<(IntVar, i32)>, v: IntVar) -> bool {
    exists|j: int| 0 <= j < t.len() && (#[trigger] t[j]).0 == v
}

/// The value of the weighted terms `t` when variable `v` takes `vals[v]`.
pub open spec fn terms_value(t: Seq<(IntVar, i32)>, vals: Seq<int>) -> int
    decreases t.len(),
{
    if t.len() == 0 {
        0
    } else {
        terms_value(t.drop_last(), vals) + t.last().1 * vals[t.last().0.0 as int]
    }
}

/// The value of a concatenation is the sum of the values.
pub proof fn lemma_terms_value_concat(a: Seq<(IntVar, i32)>, b: Seq<(IntVar, i32)>, vals: Seq<int>)
    ensures
        terms_value(a + b, vals) == terms_value(a, vals) + terms_value(b, vals),
    decreases b.len(),
{
    if b.len() == 0 {
        assert(a + b =~= a);
    } else {
        assert((a + b).drop_last() =~= a + b.drop_last());
        lemma_terms_value_concat(a, b.drop_last(), vals);
    }
}

/// The value only reads the values of the variables of the terms.
pub proof fn lemma_terms_value_agree(t: Seq<(IntVar, i32)>, a: Seq<int>, b: Seq<int>)
    requires
        forall|j: int| 0 <= j < t.len() ==> a[(#[trigger] t[j]).0.0 as int] == b[t[j].0.0 as int],
    ensures
        terms_value(t, a) == terms_value(t, b),
    decreases t.len(),
{
    if t.len() > 0 {
        assert forall|j: int| 0 <= j < t.drop_last().len() implies a[(#[trigger] t.drop_last()[j]).0.0 as int] == b[t.drop_last()[j].0.0 as int] by {
            assert(t.drop_last()[j] == t[j]);
        }
        lemma_terms_value_agree(t.drop_last(), a, b);
        assert(a[t.last().0.0 as int] == b[t.last().0.0 as int]) by {
            assert(t.last() == t[t.len() - 1]);
        }
    }
}

/// The value of a single term.
pub proof fn lemma_terms_value_single(e: (IntVar, i32), vals: Seq<int>)
    ensures
        terms_value(seq![e], vals) == e.1 * vals[e.0.0 as int],
{
    assert(seq![e].drop_last() =~= Seq::<(IntVar, i32)>::empty());
    assert(terms_value(Seq::<(IntVar, i32)>::empty(), vals) == 0);
}

/// Scaling every coefficient scales the value.
pub proof fn lemma_terms_value_scale(t: Seq<(IntVar, i32)>, s: Seq<(IntVar, i32)>, k: int, vals: Seq<int>)
    requires
        s.len() == t.len(),
        forall|i: int| 0 <= i < t.len() ==> (#[trigger] s[i]).0 == t[i].0 && s[i].1 == t[i].1 * k,
    ensures
        terms_value(s, vals) == k * terms_value(t, vals),
    decreases t.len(),
{
    if t.len() > 0 {
        lemma_terms_value_scale(t.drop_last(), s.drop_last(), k, vals);
        let a = t.last().1 as int;
        let x = vals[t.last().0.0 as int];
        let r = terms_value(t.drop_last(), vals);
        assert(s.last().1 == a * k);
        assert(a * k * x == k * (a * x)) by (nonlinear_arith);
        assert(k * r + k * (a * x) == k * (r + a * x)) by (nonlinear_arith);
    }
}

/// A linear expression: a sum of weighted integer variables plus a constant.
pub struct LinearSum {
    pub term: Vec<(IntVar, i32)>,
    pub constant: i32,
}

impl LinearSum {
    pub open spec fn wf(&self) -> bool {
        terms_sorted(self.term@)
    }

    /// The value of the expression when variable `v` takes `vals[v]`.
    pub open spec fn value(&self, vals: Seq<int>) -> int {
        terms_value(self.term@, vals) + self.constant
    }

    /// The sum `0`.
    pub fn new() -> (r: LinearSum)
        ensures
            r.wf(),
            r.term@.len() == 0,
            r.constant == 0,
    {
        LinearSum { term: Vec::new(), constant: 0 }
    }

    /// The constant sum `c`.
    pub fn constant(c: i32) -> (r: LinearSum)
        ensures
            r.wf(),
            r.term@.len() == 0,
            r.constant == c,
    {
        LinearSum { term: Vec::new(), constant: c }
    }

    /// The sum consisting of `var` alone.
    pub fn singleton(var: IntVar) -> (r: LinearSum)
        ensures
            r.wf(),
            r.term@ == seq![(var, 1i32)],
            r.constant == 0,
    {
        let mut term: Vec<(IntVar, i32)> = Vec::new();
        term.push((var, 1));
        LinearSum { term, constant: 0 }
    }

    /// Number of terms.
    pub fn len(&self) -> (r: usize)
        ensures
            r == self.term@.len(),
    {
        self.term.len()
    }

    /// The weighted terms, by increasing variable.
    pub fn iter(&self) -> (r: &Vec<(IntVar, i32)>)
        ensures
            r@ == self.term@,
    {
        &self.term
    }

    /// Adds `coef * var` to the sum.
    pub fn add_coef(&mut self, var: IntVar, coef: i32)
        requires
            old(self).wf(),
            forall|i: int|
                0 <= i < old(self).term@.len() && (#[trigger] old(self).term@[i]).0 == var ==> i32::MIN
                    <= old(self).term@[i].1 + coef <= i32::MAX,
        ensures
            final(self).wf(),
            final(self).constant == old(self).constant,
            forall|vals: Seq<int>|
                #[trigger] final(self).value(vals) == old(self).value(vals) + coef * vals[var.0 as int],
            forall|i: int|
                0 <= i < final(self).term@.len() ==> (#[trigger] final(self).term@[i]).0 == var || exists|j: int|
                    0 <= j < old(self).term@.len() && old(self).term@[j].0 == final(self).term@[i].0,
    {
        if coef == 0 {
            return;
        }
        let ghost t = self.term@;
        let n = self.term.len();
        let mut p: usize = 0;
        while p < n && self.term[p].0.0 < var.0
            invariant
                self.term@ == t,
                n == t.len(),
                p <= n,
                forall|k: int| 0 <= k < p ==> (#[trigger] t[k]).0.0 < var.0,
            decreases n - p,
        {
            p += 1;
        }
        if p < n && self.term[p].0.0 == var.0 {
            let c = self.term[p].1 + coef;
            if c == 0 {
                self.term.remove(p);
                proof {
                    assert(t =~= t.take(p as int) + seq![t[p as int]] + t.skip(p + 1));
                    assert(self.term@ =~= t.take(p as int) + t.skip(p + 1));
                    assert forall|vals: Seq<int>| #[trigger] self.value(vals) == old(self).value(vals) + coef * vals[var.0 as int] by {
                        lemma_terms_value_concat(t.take(p as int) + seq![t[p as int]], t.skip(p + 1), vals);
                        lemma_terms_value_concat(t.take(p as int), seq![t[p as int]], vals);
                        lemma_terms_value_concat(t.take(p as int), t.skip(p + 1), vals);
                        lemma_terms_value_single(t[p as int], vals);
                        let x = vals[var.0 as int];
                        assert(t[p as int].1 * x + coef * x == 0) by (nonlinear_arith)
                            requires
                                t[p as int].1 + coef == 0,
                        ;
                    }
                    assert forall|i: int, j: int| 0 <= i < j < self.term@.len() implies self.term@[i].0.0 < self.term@[j].0.0 by {
                        let ii = if i < p { i } else { i + 1 };
                        let jj = if j < p { j } else { j + 1 };
                        assert(self.term@[i] == t[ii]);
                        assert(self.term@[j] == t[jj]);
                    }
                    assert forall|i: int| 0 <= i < self.term@.len() implies (#[trigger] self.term@[i]).1 != 0 by {
                        let ii = if i < p { i } else { i + 1 };
                        assert(self.term@[i] == t[ii]);
                    }
                    assert forall|i: int| 0 <= i < self.term@.len() implies (#[trigger] self.term@[i]).0 == var || exists|j: int|
                        0 <= j < t.len() && t[j].0 == self.term@[i].0 by {
                        let ii = if i < p { i } else { i + 1 };
                        assert(self.term@[i] == t[ii]);
                    }
                }
            } else {
                self.term.set(p, (var, c));
                proof {
                    let e = (var, c);
                    assert(t =~= t.take(p as int) + seq![t[p as int]] + t.skip(p + 1));
                    assert(self.term@ =~= t.take(p as int) + seq![e] + t.skip(p + 1));
                    assert forall|vals: Seq<int>| #[trigger] self.value(vals) == old(self).value(vals) + coef * vals[var.0 as int] by {
                        lemma_terms_value_concat(t.take(p as int) + seq![t[p as int]], t.skip(p + 1), vals);
                        lemma_terms_value_concat(t.take(p as int), seq![t[p as int]], vals);
                        lemma_terms_value_concat(t.take(p as int) + seq![e], t.skip(p + 1), vals);
                        lemma_terms_value_concat(t.take(p as int), seq![e], vals);
                        lemma_terms_value_single(t[p as int], vals);
                        lemma_terms_value_single(e, vals);
                        let x = vals[var.0 as int];
                        assert(c * x == t[p as int].1 * x + coef * x) by (nonlinear_arith)
                            requires
                                c == t[p as int].1 + coef,
                        ;
                    }
                    assert forall|i: int, j: int| 0 <= i < j < self.term@.len() implies self.term@[i].0.0 < self.term@[j].0.0 by {
                        if i != p {
                            assert(self.term@[i] == t[i]);
                        }
                        if j != p {
                            assert(self.term@[j] == t[j]);
                        }
                    }
                    assert forall|i: int| 0 <= i < self.term@.len() implies (#[trigger] self.term@[i]).1 != 0 by {
                        if i != p {
                            assert(self.term@[i] == t[i]);
                        }
                    }
                    assert forall|i: int| 0 <= i < self.term@.len() implies (#[trigger] self.term@[i]).0 == var || exists|j: int|
                        0 <= j < t.len() && t[j].0 == self.term@[i].0 by {
                        if i != p {
                            assert(self.term@[i] == t[i]);
                        }
                    }
                }
            }
        } else {
            self.term.insert(p, (var, coef));
            proof {
                let e = (var, coef);
                assert(t =~= t.take(p as int) + t.skip(p as int));
                assert(self.term@ =~= t.take(p as int) + seq![e] + t.skip(p as int));
                assert forall|vals: Seq<int>| #[trigger] self.value(vals) == old(self).value(vals) + coef * vals[var.0 as int] by {
                    lemma_terms_value_concat(t.take(p as int), t.skip(p as int), vals);
                    lemma_terms_value_concat(t.take(p as int) + seq![e], t.skip(p as int), vals);
                    lemma_terms_value_concat(t.take(p as int), seq![e], vals);
                    lemma_terms_value_single(e, vals);
                }
                assert forall|i: int, j: int| 0 <= i < j < self.term@.len() implies self.term@[i].0.0 < self.term@[j].0.0 by {
                    if i < p {
                        assert(self.term@[i] == t[i]);
                    } else if i > p {
                        assert(self.term@[i] == t[i - 1]);
                    }
                    if j < p {
                        assert(self.term@[j] == t[j]);
                    } else if j > p {
                        assert(self.term@[j] == t[j - 1]);
                        if p < n {
                            assert(t[p as int].0.0 > var.0);
                            if j - 1 > p {
                                assert(t[p as int].0.0 < t[j - 1].0.0);
                            }
                        }
                    }
                }
                assert forall|i: int| 0 <= i < self.term@.len() implies (#[trigger] self.term@[i]).1 != 0 by {
                    if i < p {
                        assert(self.term@[i] == t[i]);
                    } else if i > p {
                        assert(self.term@[i] == t[i - 1]);
                    }
                }
                assert forall|i: int| 0 <= i < self.term@.len() implies (#[trigger] self.term@[i]).0 == var || exists|j: int|
                    0 <= j < t.len() && t[j].0 == self.term@[i].0 by {
                    if i < p {
                        assert(self.term@[i] == t[i]);
                    } else if i > p {
                        assert(self.term@[i] == t[i - 1]);
                    }
                }
            }
        }
    }

    /// The sum multiplied by `k`.
    pub fn scale(&self, k: i32) -> (r: LinearSum)
        requires
            self.wf(),
            k != 0,
            i32::MIN <= self.constant * k <= i32::MAX,
            forall|i: int|
                0 <= i < self.term@.len() ==> i32::MIN <= (#[trigger] self.term@[i]).1 * k <= i32::MAX,
        ensures
            r.wf(),
            r.term@.len() == self.term@.len(),
            forall|i: int|
                0 <= i < r.term@.len() ==> (#[trigger] r.term@[i]).0 == self.term@[i].0 && r.term@[i].1
                    == self.term@[i].1 * k,
            r.constant == self.constant * k,
            forall|vals: Seq<int>| #[trigger] r.value(vals) == k * self.value(vals),
    {
        let mut term: Vec<(IntVar, i32)> = Vec::new();
        let mut i: usize = 0;
        while i < self.term.len()
            invariant
                i <= self.term@.len(),
                term@.len() == i,
                k != 0,
                forall|j: int|
                    0 <= j < self.term@.len() ==> i32::MIN <= (#[trigger] self.term@[j]).1 * k <= i32::MAX,
                forall|j: int|
                    0 <= j < i ==> (#[trigger] term@[j]).0 == self.term@[j].0 && term@[j].1 == self.term@[j].1
                        * k,
            decreases self.term@.len() - i,
        {
            let (v, c) = self.term[i];
            assert(i32::MIN <= self.term@[i as int].1 * k <= i32::MAX);
            term.push((v, c * k));
            i += 1;
        }
        let r = LinearSum { term, constant: self.constant * k };
        proof {
            assert forall|a: int| 0 <= a < r.term@.len() implies (#[trigger] r.term@[a]).1 != 0 by {
                assert(self.term@[a].1 != 0);
                assert(self.term@[a].1 * k != 0) by (nonlinear_arith)
                    requires
                        self.term@[a].1 != 0,
                        k != 0,
                ;
            }
            assert forall|vals: Seq<int>| #[trigger] r.value(vals) == k * self.value(vals) by {
                lemma_terms_value_scale(self.term@, r.term@, k as int, vals);
                let tv = terms_value(self.term@, vals);
                let c = self.constant as int;
                assert(k * (tv + c) == k * tv + c * k) by (nonlinear_arith);
            }
        }
        r
    }

    /// The sum plus `c`.
    pub fn add_constant(&self, c: i32) -> (r: LinearSum)
        requires
            self.wf(),
            i32::MIN <= self.constant + c <= i32::MAX,
        ensures
            r.wf(),
            r.term@ == self.term@,
            r.constant == self.constant + c,
            forall|vals: Seq<int>| #[trigger] r.value(vals) == self.value(vals) + c,
    {
        let mut term: Vec<(IntVar, i32)> = Vec::new();
        let mut i: usize = 0;
        while i < self.term.len()
            invariant
                i <= self.term@.len(),
                term@ == self.term@.take(i as int),
            decreases self.term@.len() - i,
        {
            term.push(self.term[i]);
            i += 1;
            assert(term@ =~= self.term@.take(i as int));
        }
        assert(term@ =~= self.term@);
        LinearSum { term, constant: self.constant + c }
    }

    /// The coefficient of `var` (`0` where it does not occur).
    pub fn coef_of(&self, var: IntVar) -> (r: i32)
        requires
            self.wf(),
        ensures
            (exists|i: int| 0 <= i < self.term@.len() && self.term@[i].0 == var && self.term@[i].1 == r)
                || (r == 0 && forall|i: int| 0 <= i < self.term@.len() ==> (#[trigger] self.term@[i]).0 != var),
            forall|i: int| 0 <= i < self.term@.len() && (#[trigger] self.term@[i]).0 == var ==> self.term@[i].1 == r,
    {
        let mut i: usize = 0;
        while i < self.term.len()
            invariant
                self.wf(),
                i <= self.term@.len(),
                forall|k: int| 0 <= k < i ==> (#[trigger] self.term@[k]).0 != var,
            decreases self.term@.len() - i,
        {
            if self.term[i].0.0 == var.0 {
                proof {
                    assert forall|k: int| 0 <= k < self.term@.len() && (#[trigger] self.term@[k]).0 == var implies self.term@[k].1 == self.term@[i as int].1 by {
                        if k != i {
                            assert(self.term@[k].0.0 != self.term@[i as int].0.0);
                        }
                    }
                }
                return self.term[i].1;
            }
            i += 1;
        }
        0
    }

    /// Whether the sum has no variable.
    pub fn is_constant(&self) -> (r: bool)
        ensures
            r == (self.term@.len() == 0),
    {
        self.term.len() == 0
    }

    /// The variable of a sum that is exactly one variable.
    pub fn as_singleton(&self) -> (r: Option<IntVar>)
        ensures
            r matches Some(v) ==> self.term@ == seq![(v, 1i32)] && self.constant == 0,
            r is None ==> !(self.term@.len() == 1 && self.term@[0].1 == 1 && self.constant == 0),
    {
        if self.term.len() == 1 && self.term[0].1 == 1 && self.constant == 0 {
            assert(self.term@ =~= seq![(self.term@[0].0, 1i32)]);
            Some(self.term[0].0)
        } else {
            None
        }
    }

    /// `self + other`, or `None` where a coefficient or the constant leaves `i32`.
    pub fn checked_add(&self, other: &LinearSum) -> (r: Option<LinearSum>)
        requires
            self.wf(),
            other.wf(),
        ensures
            r matches Some(s) ==> s.wf() && (forall|vals: Seq<int>| #[trigger] s.value(vals) == self.value(vals) + other.value(vals))
                && forall|i: int| 0 <= i < s.term@.len() ==> occurs(self.term@, (#[trigger] s.term@[i]).0) || occurs(other.term@, s.term@[i].0),
            other.term@.len() == 0 ==> (r is Some <==> i32::MIN <= self.constant + other.constant <= i32::MAX),
            other.term@.len() == 0 && r is Some ==> r->0.term@ == self.term@ && r->0.constant == self.constant + other.constant,
    {
        if (self.constant as i64) + (other.constant as i64) < i32::MIN as i64 || (self.constant as i64) + (other.constant as i64) > i32::MAX as i64 {
            return None;
        }
        let mut res = self.add_constant(other.constant);
        proof {
            assert forall|k: int| 0 <= k < res.term@.len() implies occurs(self.term@, (#[trigger] res.term@[k]).0) || occurs(other.term@, res.term@[k].0) by {
                assert(self.term@[k].0 == res.term@[k].0);
            }
            assert forall|vals: Seq<int>| #[trigger] res.value(vals) == self.value(vals) + other.constant + terms_value(other.term@.take(0), vals) by {
                assert(other.term@.take(0) =~= Seq::<(IntVar, i32)>::empty());
            }
        }
        let mut i: usize = 0;
        while i < other.term.len()
            invariant
                res.wf(),
                other.wf(),
                self.wf(),
                i <= other.term@.len(),
                forall|vals: Seq<int>| #[trigger] res.value(vals) == self.value(vals) + other.constant + terms_value(other.term@.take(i as int), vals),
                forall|k: int| 0 <= k < res.term@.len() ==> occurs(self.term@, (#[trigger] res.term@[k]).0) || occurs(other.term@, res.term@[k].0),
                other.term@.len() == 0 ==> res.term@ == self.term@ && res.constant == self.constant + other.constant,
            decreases other.term@.len() - i,
        {
            let (v, c) = other.term[i];
            let cur = res.coef_of(v);
            let tot = (cur as i64) + (c as i64);
            if tot < i32::MIN as i64 || tot > i32::MAX as i64 {
                return None;
            }
            let ghost before = res;
            res.add_coef(v, c);
            proof {
                assert forall|vals: Seq<int>| #[trigger] res.value(vals) == self.value(vals) + other.constant + terms_value(other.term@.take(i + 1), vals) by {
                    assert(other.term@.take(i + 1) =~= other.term@.take(i as int) + seq![other.term@[i as int]]);
                    lemma_terms_value_concat(other.term@.take(i as int), seq![other.term@[i as int]], vals);
                    lemma_terms_value_single(other.term@[i as int], vals);
                    assert(before.value(vals) == self.value(vals) + other.constant + terms_value(other.term@.take(i as int), vals));
                }
                assert forall|k: int| 0 <= k < res.term@.len() implies occurs(self.term@, (#[trigger] res.term@[k]).0) || occurs(other.term@, res.term@[k].0) by {
                    if res.term@[k].0 == v {
                        assert(other.term@[i as int].0 == v);
                    } else {
                        let j0 = choose|j: int| 0 <= j < before.term@.len() && (#[trigger] before.term@[j]).0 == res.term@[k].0;
                        assert(before.term@[j0].0 == res.term@[k].0);
                        assert(occurs(self.term@, before.term@[j0].0) || occurs(other.term@, before.term@[j0].0));
                    }
                }
            }
            i += 1;
        }
        proof {
            assert(other.term@.take(other.term@.len() as int) =~= other.term@);
            assert forall|vals: Seq<int>| #[trigger] res.value(vals) == self.value(vals) + other.value(vals) by {
                assert(res.value(vals) == self.value(vals) + other.constant + terms_value(other.term@.take(other.term@.len() as int), vals));
            }
        }
        Some(res)
    }

    /// `self * k`, or `None` where a coefficient or the constant leaves `i32`.
    pub fn checked_scale(&self, k: i32) -> (r: Option<LinearSum>)
        requires
            self.wf(),
        ensures
            r matches Some(s) ==> s.wf() && (forall|vals: Seq<int>| #[trigger] s.value(vals) == k * self.value(vals))
                && forall|i: int| 0 <= i < s.term@.len() ==> occurs(self.term@, (#[trigger] s.term@[i]).0),
            r is None <==> k != 0 && (!(i32::MIN <= self.constant * k <= i32::MAX) || exists|i: int|
                0 <= i < self.term@.len() && !(i32::MIN <= (#[trigger] self.term@[i]).1 * k <= i32::MAX)),
            k != 0 && r is Some ==> r->0.constant == self.constant * k && r->0.term@.len() == self.term@.len()
                && forall|i: int| 0 <= i < r->0.term@.len() ==> (#[trigger] r->0.term@[i]).0 == self.term@[i].0 && r->0.term@[i].1 == self.term@[i].1 * k,
    {
        if k == 0 {
            let r = LinearSum::constant(0);
            assert forall|vals: Seq<int>| #[trigger] r.value(vals) == k * self.value(vals) by {
                assert(r.term@ =~= Seq::<(IntVar, i32)>::empty());
            }
            return Some(r);
        }
        assert(i32::MIN * i32::MAX <= (self.constant as i64) * (k as i64) <= i32::MIN * i32::MIN) by (nonlinear_arith)
            requires
                i32::MIN <= self.constant <= i32::MAX,
                i32::MIN <= k <= i32::MAX,
        ;
        let pc = (self.constant as i64) * (k as i64);
        if pc < i32::MIN as i64 || pc > i32::MAX as i64 {
            return None;
        }
        let mut i: usize = 0;
        while i < self.term.len()
            invariant
                i <= self.term@.len(),
                forall|j: int| 0 <= j < i ==> i32::MIN <= (#[trigger] self.term@[j]).1 * k <= i32::MAX,
            decreases self.term@.len() - i,
        {
            let c = self.term[i].1;
            assert(i32::MIN * i32::MAX <= (c as i64) * (k as i64) <= i32::MIN * i32::MIN) by (nonlinear_arith)
                requires
                    i32::MIN <= c <= i32::MAX,
                    i32::MIN <= k <= i32::MAX,
            ;
            let p = (c as i64) * (k as i64);
            if p < i32::MIN as i64 || p > i32::MAX as i64 {
                assert(!(i32::MIN <= self.term@[i as int].1 * k <= i32::MAX));
                return None;
            }
            i += 1;
        }
        let r = self.scale(k);
        assert forall|a: int| 0 <= a < r.term@.len() implies occurs(self.term@, (#[trigger] r.term@[a]).0) by {
            assert(self.term@[a].0 == r.term@[a].0);
        }
        Some(r)
    }

    /// `self - other`, or `None` where a coefficient or the constant leaves `i32`.
    pub fn checked_sub(&self, other: &LinearSum) -> (r: Option<LinearSum>)
        requires
            self.wf(),
            other.wf(),
        ensures
            r matches Some(s) ==> s.wf() && (forall|vals: Seq<int>| #[trigger] s.value(vals) == self.value(vals) - other.value(vals))
                && forall|i: int| 0 <= i < s.term@.len() ==> occurs(self.term@, (#[trigger] s.term@[i]).0) || occurs(other.term@, s.term@[i].0),
            other.term@.len() == 0 ==> (r is Some <==> other.constant != i32::MIN && i32::MIN <= self.constant - other.constant
                <= i32::MAX),
            other.term@.len() == 0 && r is Some ==> r->0.term@ == self.term@ && r->0.constant == self.constant - other.constant,
    {
        match other.checked_scale(-1) {
            Some(neg) => {
                let r = self.checked_add(&neg);
                match r {
                    Some(s) => {
                        assert forall|vals: Seq<int>| #[trigger] s.value(vals) == self.value(vals) - other.value(vals) by {
                            assert(s.value(vals) == self.value(vals) + neg.value(vals));
                            assert(neg.value(vals) == -1 * other.value(vals));
                        }
                        assert forall|i: int| 0 <= i < s.term@.len() implies occurs(self.term@, (#[trigger] s.term@[i]).0) || occurs(other.term@, s.term@[i].0) by {
                            if !occurs(self.term@, s.term@[i].0) {
                                assert(occurs(neg.term@, s.term@[i].0));
                                let j0 = choose|j: int| 0 <= j < neg.term@.len() && (#[trigger] neg.term@[j]).0 == s.term@[i].0;
                                assert(occurs(other.term@, neg.term@[j0].0));
                            }
                        }
                        Some(s)
                    },
                    None => None,
                }
            },
            None => None,
        }
    }

    /// A copy of the sum.
    pub fn copy(&self) -> (r: LinearSum)
        requires
            self.wf(),
        ensures
            r.wf(),
            r.term@ == self.term@,
            r.constant == self.constant,
    {
        self.add_constant(0)
    }
}

/// A linear literal: `sum op 0`.
pub struct LinearLit {
    pub sum: LinearSum,
    pub op: CmpOp,
}

impl LinearLit {
    pub fn new(sum: LinearSum, op: CmpOp) -> (r: LinearLit)
        ensures
            r.sum == sum,
            r.op == op,
    {
        LinearLit { sum, op }
    }

    /// Whether the literal holds when variable `v` takes `vals[v]`.
    pub open spec fn holds(&self, vals: Seq<int>) -> bool {
        op_holds(self.op, self.sum.value(vals), 0)
    }
}

} // verus!
