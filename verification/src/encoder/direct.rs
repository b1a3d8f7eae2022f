use vstd::prelude::*;

use crate::arithmetic::{op_holds, CmpOp, Range};
use crate::domain::strictly_sorted;
use crate::sat::{clause_holds, clause_in_range, clauses_hold, lemma_lit_negation, lit_holds, lit_wf, Lit, SAT};
use super::order::lemma_mul_i32_fits;
use super::{clauses_in_range, exactly_one, ClauseSet, EncodeMap, Encoding};
use crate::norm_csp::{IntVar, LinearSum};
use crate::norm_csp::linear::{lemma_terms_value_concat, terms_value};

verus! {

/// Direct encoding of an integer variable with values `domain`:
/// `lits[i]` stands for "the value is `domain[i]`".
pub struct DirectEncoding {
    pub domain: Vec<i32>,
    pub lits: Vec<Lit>,
}

impl DirectEncoding {
    /// A non-empty increasing domain and one literal per value, all over
    /// the first `n` SAT variables.
    pub open spec fn wf(&self, n: nat) -> bool {
        &&& self.shaped()
        &&& clause_in_range(self.lits@, n as int)
    }

    /// A non-empty increasing domain and one well-formed literal per value.
    pub open spec fn shaped(&self) -> bool {
        &&& self.domain@.len() >= 1
        &&& strictly_sorted(self.domain@)
        &&& self.lits@.len() == self.domain@.len()
        &&& forall|i: int| 0 <= i < self.lits@.len() ==> lit_wf(#[trigger] self.lits@[i])
    }

    /// The smallest and largest value, or an empty range.
    pub fn range(&self) -> (r: Range)
        ensures
            self.domain@.len() == 0 ==> r.low == 1 && r.high == 0,
            self.domain@.len() > 0 ==> r.low == self.domain@[0] && r.high == self.domain@[self.domain@.len() - 1],
    {
        if self.domain.len() == 0 {
            Range::empty()
        } else {
            Range::new(self.domain[0], self.domain[self.domain.len() - 1])
        }
    }
}

/// A direct-encoded variable times a coefficient, read with its values in
/// increasing order.
pub struct LinearInfoForDirectEncoding<'a> {
    pub coef: i32,
    pub encoding: &'a DirectEncoding,
}

impl<'a> LinearInfoForDirectEncoding<'a> {
    pub open spec fn wf(&self, n: nat) -> bool {
        self.coef != 0 && self.encoding.wf(n)
    }

    pub open spec fn shaped(&self) -> bool {
        self.coef != 0 && self.encoding.shaped()
    }

    pub open spec fn size(&self) -> int {
        self.encoding.domain@.len() as int
    }

    /// The `j`-th smallest value of the term.
    pub open spec fn spec_domain(&self, j: int) -> int {
        if self.coef > 0 {
            self.encoding.domain@[j] * self.coef
        } else {
            self.encoding.domain@[self.size() - 1 - j] * self.coef
        }
    }

    /// The literal for "the term equals its `j`-th smallest value".
    pub open spec fn spec_equals(&self, j: int) -> Lit {
        if self.coef > 0 {
            self.encoding.lits@[j]
        } else {
            self.encoding.lits@[self.size() - 1 - j]
        }
    }

    /// The values of the term strictly increase.
    pub proof fn lemma_increasing(&self)
        requires
            self.shaped(),
        ensures
            forall|i: int, j: int| 0 <= i < j < self.size() ==> self.spec_domain(i) < self.spec_domain(j),
    {
        assert forall|i: int, j: int| 0 <= i < j < self.size() implies self.spec_domain(i) < self.spec_domain(j) by {
            let c = self.coef as int;
            if c > 0 {
                let a = self.encoding.domain@[i] as int;
                let b = self.encoding.domain@[j] as int;
                assert(a * c < b * c) by (nonlinear_arith)
                    requires
                        a < b,
                        c > 0,
                ;
            } else {
                let a = self.encoding.domain@[self.size() - 1 - i] as int;
                let b = self.encoding.domain@[self.size() - 1 - j] as int;
                assert(a * c < b * c) by (nonlinear_arith)
                    requires
                        b < a,
                        c < 0,
                ;
            }
        }
    }

    pub fn new(coef: i32, encoding: &'a DirectEncoding) -> (r: LinearInfoForDirectEncoding<'a>)
        ensures
            r.coef == coef,
            r.encoding == encoding,
    {
        LinearInfoForDirectEncoding { coef, encoding }
    }

    pub fn domain_size(&self) -> (r: usize)
        ensures
            r == self.size(),
    {
        self.encoding.domain.len()
    }

    /// `j`-th smallest value of the term.
    pub fn domain(&self, j: usize) -> (r: i64)
        requires
            j < self.size(),
        ensures
            r == self.spec_domain(j as int),
    {
        let n = self.encoding.domain.len();
        let d = if self.coef > 0 {
            self.encoding.domain[j]
        } else {
            self.encoding.domain[n - 1 - j]
        };
        proof {
            lemma_mul_i32_fits(d, self.coef);
        }
        (d as i64) * (self.coef as i64)
    }

    /// The smallest value of the term.
    pub fn domain_min(&self) -> (r: i64)
        requires
            self.size() > 0,
        ensures
            r == self.spec_domain(0),
    {
        self.domain(0)
    }

    /// The largest value of the term.
    pub fn domain_max(&self) -> (r: i64)
        requires
            self.size() > 0,
        ensures
            r == self.spec_domain(self.size() - 1),
    {
        self.domain(self.domain_size() - 1)
    }

    /// The literal asserting that the term equals `domain(j)`.
    pub fn equals(&self, j: usize) -> (r: Lit)
        requires
            self.shaped(),
            j < self.size(),
        ensures
            r == self.spec_equals(j as int),
            lit_wf(r),
    {
        let n = self.encoding.domain.len();
        if self.coef > 0 {
            assert(lit_wf(self.encoding.lits@[j as int]));
            self.encoding.lits[j]
        } else {
            assert(lit_wf(self.encoding.lits@[n - 1 - j]));
            self.encoding.lits[n - 1 - j]
        }
    }

    /// The literal asserting that the term equals `val`, or `None` when it
    /// is not one of its values.
    pub fn equals_val(&self, val: i128) -> (r: Option<Lit>)
        requires
            self.shaped(),
        ensures
            match r {
                Some(l) => exists|j: int| 0 <= j < self.size() && self.spec_domain(j) == val && l == self.spec_equals(j),
                None => forall|j: int| 0 <= j < self.size() ==> self.spec_domain(j) != val,
            },
    {
        proof {
            self.lemma_increasing();
        }
        let n = self.domain_size();
        let mut left: usize = 0;
        let mut right: usize = n - 1;
        while left < right
            invariant
                self.shaped(),
                n == self.size(),
                left <= right < n,
                forall|k: int| 0 <= k < left ==> self.spec_domain(k) < val,
                forall|k: int| right < k < n ==> val < self.spec_domain(k),
                forall|i: int, j: int| 0 <= i < j < self.size() ==> self.spec_domain(i) < self.spec_domain(j),
            decreases right - left,
        {
            let mid = left + (right - left) / 2;
            if val <= self.domain(mid) as i128 {
                proof {
                    assert forall|k: int| mid < k < n implies val < self.spec_domain(k) by {
                        assert(self.spec_domain(mid as int) < self.spec_domain(k));
                    }
                }
                right = mid;
            } else {
                left = mid + 1;
            }
        }
        if self.domain(left) as i128 == val {
            Some(self.equals(left))
        } else {
            None
        }
    }
}

/// Encodes an integer variable with the values `domain` (given in
/// increasing order) in direct encoding: one fresh literal per value, a
/// clause asking for at least one of them and one clause per pair asking
/// for at most one.
pub fn encode_var_direct_domain(sat: &mut SAT, domain: Vec<i32>) -> (r: DirectEncoding)
    requires
        old(sat).wf(),
        domain@.len() >= 1,
        strictly_sorted(domain@),
    ensures
        final(sat).wf(),
        r.wf(final(sat).spec_num_vars()),
        r.domain@ == domain@,
        final(sat).spec_num_vars() >= old(sat).spec_num_vars(),
        final(sat).spec_backend() == old(sat).spec_backend(),
        old(sat).spec_exhausted() ==> final(sat).spec_exhausted(),
        final(sat).spec_clauses().len() >= old(sat).spec_clauses().len() + 1,
        final(sat).spec_clauses().subrange(0, old(sat).spec_clauses().len() as int) == old(sat).spec_clauses(),
        final(sat).spec_clauses()[old(sat).spec_clauses().len() as int] == r.lits@,
        forall|i: int, j: int|
            0 <= j < i < r.lits@.len() ==> final(sat).spec_clauses().contains(
                seq![r.lits@[i].spec_not(), r.lits@[j].spec_not()],
            ),
{
    let lits = sat.fresh_lits(domain.len());
    let ghost c0 = sat.spec_clauses();
    sat.add_clause(lits.as_slice());
    let mut i: usize = 1;
    while i < lits.len()
        invariant
            sat.wf(),
            clause_in_range(lits@, sat.spec_num_vars() as int),
            1 <= i,
            i <= lits@.len() || i == 1,
            sat.spec_clauses().len() >= c0.len() + 1,
            sat.spec_clauses().subrange(0, c0.len() as int) == c0,
            sat.spec_clauses()[c0.len() as int] == lits@,
            forall|a: int, b: int|
                0 <= b < a < i && a < lits@.len() ==> sat.spec_clauses().contains(
                    seq![lits@[a].spec_not(), lits@[b].spec_not()],
                ),
            sat.spec_num_vars() >= old(sat).spec_num_vars(),
            sat.spec_backend() == old(sat).spec_backend(),
            old(sat).spec_exhausted() ==> sat.spec_exhausted(),
        decreases lits@.len() - i,
    {
        let mut j: usize = 0;
        while j < i
            invariant
                sat.wf(),
                clause_in_range(lits@, sat.spec_num_vars() as int),
                1 <= i < lits@.len(),
                j <= i,
                sat.spec_clauses().len() >= c0.len() + 1,
                sat.spec_clauses().subrange(0, c0.len() as int) == c0,
                sat.spec_clauses()[c0.len() as int] == lits@,
                forall|a: int, b: int|
                    0 <= b < a < i ==> sat.spec_clauses().contains(
                        seq![lits@[a].spec_not(), lits@[b].spec_not()],
                    ),
                forall|b: int|
                    0 <= b < j ==> sat.spec_clauses().contains(
                        seq![lits@[i as int].spec_not(), lits@[b].spec_not()],
                    ),
                sat.spec_num_vars() >= old(sat).spec_num_vars(),
                sat.spec_backend() == old(sat).spec_backend(),
                old(sat).spec_exhausted() ==> sat.spec_exhausted(),
            decreases i - j,
        {
            assert(lit_wf(lits@[i as int]) && lit_wf(lits@[j as int]));
            let mut clause: Vec<Lit> = Vec::new();
            clause.push(lits[i].negate());
            clause.push(lits[j].negate());
            proof {
                assert forall|k: int| 0 <= k < clause@.len() implies lit_wf(#[trigger] clause@[k]) && clause@[k].spec_var().0 < sat.spec_num_vars() by {
                    if k == 0 {
                        assert(lits@[i as int].spec_var().0 < sat.spec_num_vars());
                    } else {
                        assert(lits@[j as int].spec_var().0 < sat.spec_num_vars());
                    }
                }
            }
            let ghost before = sat.spec_clauses();
            sat.add_clause(clause.as_slice());
            proof {
                let target = seq![lits@[i as int].spec_not(), lits@[j as int].spec_not()];
                assert(clause@ =~= target);
                assert(sat.spec_clauses()[before.len() as int] == target);
                assert(sat.spec_clauses().subrange(0, c0.len() as int) =~= c0) by {
                    assert(before.subrange(0, c0.len() as int) == c0);
                }
                assert forall|a: int, b: int| 0 <= b < a < i implies sat.spec_clauses().contains(
                    seq![lits@[a].spec_not(), lits@[b].spec_not()],
                ) by {
                    let s = seq![lits@[a].spec_not(), lits@[b].spec_not()];
                    assert(before.contains(s));
                    let t = choose|t: int| 0 <= t < before.len() && before[t] == s;
                    assert(sat.spec_clauses()[t] == s);
                }
                assert forall|b: int| 0 <= b < j + 1 implies sat.spec_clauses().contains(
                    seq![lits@[i as int].spec_not(), lits@[b].spec_not()],
                ) by {
                    let s = seq![lits@[i as int].spec_not(), lits@[b].spec_not()];
                    if b < j {
                        assert(before.contains(s));
                        let t = choose|t: int| 0 <= t < before.len() && before[t] == s;
                        assert(sat.spec_clauses()[t] == s);
                    } else {
                        assert(sat.spec_clauses()[before.len() as int] == s);
                    }
                }
            }
            j += 1;
        }
        i += 1;
    }
    DirectEncoding { domain, lits }
}

/// Sum of the smallest values of the terms `info[from..]`.
pub open spec fn direct_min_sum(info: Seq<LinearInfoForDirectEncoding>, from: int) -> int
    decreases info.len() - from,
{
    if from >= info.len() {
        0
    } else {
        info[from].spec_domain(0) + direct_min_sum(info, from + 1)
    }
}

/// Sum of the largest values of the terms `info[from..]`.
pub open spec fn direct_max_sum(info: Seq<LinearInfoForDirectEncoding>, from: int) -> int
    decreases info.len() - from,
{
    if from >= info.len() {
        0
    } else {
        info[from].spec_domain(info[from].size() - 1) + direct_max_sum(info, from + 1)
    }
}

/// Every term is well formed over the first `n` SAT variables.
pub open spec fn direct_infos_wf(info: Seq<LinearInfoForDirectEncoding>, n: nat) -> bool {
    forall|k: int| 0 <= k < info.len() ==> (#[trigger] info[k]).wf(n)
}

/// A value of a term is at most `2^62` in magnitude.
pub proof fn lemma_direct_value_bound(x: LinearInfoForDirectEncoding, j: int)
    requires
        x.shaped(),
        0 <= j < x.size(),
    ensures
        -0x4000_0000_0000_0000 <= x.spec_domain(j) <= 0x4000_0000_0000_0000,
{
    let c = x.coef as int;
    let d = if c > 0 { x.encoding.domain@[j] as int } else { x.encoding.domain@[x.size() - 1 - j] as int };
    assert(-0x8000_0000 <= d <= 0x7fff_ffff && -0x8000_0000 <= c <= 0x7fff_ffff ==> -0x4000_0000_0000_0000 <= d
        * c <= 0x4000_0000_0000_0000) by (nonlinear_arith);
}

/// The sums of smallest and largest values of the terms from `from` on are
/// at most `2^62` per term in magnitude, and the smallest do not exceed the
/// largest.
pub proof fn lemma_direct_sums_bound(info: Seq<LinearInfoForDirectEncoding>, from: int)
    requires
        forall|k: int| 0 <= k < info.len() ==> (#[trigger] info[k]).shaped(),
        0 <= from <= info.len(),
    ensures
        -(info.len() - from) * 0x4000_0000_0000_0000 <= direct_min_sum(info, from) <= (info.len() - from)
            * 0x4000_0000_0000_0000,
        -(info.len() - from) * 0x4000_0000_0000_0000 <= direct_max_sum(info, from) <= (info.len() - from)
            * 0x4000_0000_0000_0000,
        direct_min_sum(info, from) <= direct_max_sum(info, from),
    decreases info.len() - from,
{
    if from < info.len() {
        lemma_direct_sums_bound(info, from + 1);
        let x = info[from];
        lemma_direct_value_bound(x, 0);
        lemma_direct_value_bound(x, x.size() - 1);
        x.lemma_increasing();
        if x.size() > 1 {
            assert(x.spec_domain(0) < x.spec_domain(x.size() - 1));
        }
    }
}

/// Encodes `coef * x + constant op 0` for a single direct-encoded
/// variable: `None` when it always holds, otherwise a clause equivalent to it
/// whenever exactly one literal of the encoding holds.
pub fn encode_simple_linear_direct_encoding(info: &LinearInfoForDirectEncoding, op: CmpOp, constant: i32) -> (r: Option<Vec<Lit>>)
    requires
        info.shaped(),
    ensures
        r is None <==> forall|i: int| 0 <= i < info.size() ==> op_holds(op, info.encoding.domain@[i] * info.coef + constant, 0),
        r matches Some(c) ==> forall|m: Seq<bool>, i: int|
            0 <= i < info.size() && exactly_one(m, info.encoding.lits@, i) ==> (clause_holds(m, c@) <==> op_holds(
                op,
                info.encoding.domain@[i] * info.coef + constant,
                0,
            )),
        r matches Some(c) ==> forall|k: int| 0 <= k < c@.len() ==> lit_wf(#[trigger] c@[k]) && (exists|i: int| 0 <= i < info.size() && (c@[k] == info.encoding.lits@[i] || c@[k] == info.encoding.lits@[i].spec_not())),
{
    let enc = info.encoding;
    let n = enc.domain.len();
    let mut oks: Vec<Lit> = Vec::new();
    let mut ngs: Vec<Lit> = Vec::new();
    let ghost mut ok_idx: Seq<int> = Seq::empty();
    let ghost mut ng_idx: Seq<int> = Seq::empty();
    let mut i: usize = 0;
    while i < n
        invariant
            info.shaped(),
            enc == info.encoding,
            n == info.size(),
            i <= n,
            oks@.len() == ok_idx.len(),
            ngs@.len() == ng_idx.len(),
            ok_idx.len() + ng_idx.len() == i,
            forall|k: int| 0 <= k < ok_idx.len() ==> 0 <= #[trigger] ok_idx[k] < i && oks@[k] == enc.lits@[ok_idx[k]]
                && op_holds(op, enc.domain@[ok_idx[k]] * info.coef + constant, 0),
            forall|k: int| 0 <= k < ng_idx.len() ==> 0 <= #[trigger] ng_idx[k] < i && ngs@[k] == enc.lits@[ng_idx[k]].spec_not()
                && !op_holds(op, enc.domain@[ng_idx[k]] * info.coef + constant, 0),
            forall|j: int| 0 <= j < i && op_holds(op, enc.domain@[j] * info.coef + constant, 0) ==> exists|k: int| 0 <= k < ok_idx.len() && ok_idx[k] == j,
            forall|j: int| 0 <= j < i && !op_holds(op, enc.domain@[j] * info.coef + constant, 0) ==> exists|k: int| 0 <= k < ng_idx.len() && ng_idx[k] == j,
            forall|a: int, b: int| 0 <= a < b < ok_idx.len() ==> ok_idx[a] < ok_idx[b],
            forall|a: int, b: int| 0 <= a < b < ng_idx.len() ==> ng_idx[a] < ng_idx[b],
        decreases n - i,
    {
        let d = enc.domain[i];
        proof {
            lemma_mul_i32_fits(d, info.coef);
            assert(-0x4000_0000_0000_0000 <= d * info.coef <= 0x4000_0000_0000_0000) by (nonlinear_arith)
                requires
                    -0x8000_0000 <= d <= 0x7fff_ffff,
                    -0x8000_0000 <= info.coef <= 0x7fff_ffff,
            ;
        }
        let lhs = (d as i64) * (info.coef as i64) + (constant as i64);
        assert(lit_wf(enc.lits@[i as int]));
        let ghost pok = ok_idx;
        let ghost png = ng_idx;
        if op.compare_wide(lhs, 0) {
            oks.push(enc.lits[i]);
            proof {
                ok_idx = ok_idx.push(i as int);
                assert forall|j: int| 0 <= j < i + 1 && op_holds(op, enc.domain@[j] * info.coef + constant, 0) implies exists|k: int| 0 <= k < ok_idx.len() && ok_idx[k] == j by {
                    if j == i {
                        assert(ok_idx[pok.len() as int] == j);
                    } else {
                        let k = choose|k: int| 0 <= k < pok.len() && pok[k] == j;
                        assert(ok_idx[k] == j);
                    }
                }
            }
        } else {
            ngs.push(enc.lits[i].negate());
            proof {
                ng_idx = ng_idx.push(i as int);
                assert forall|j: int| 0 <= j < i + 1 && !op_holds(op, enc.domain@[j] * info.coef + constant, 0) implies exists|k: int| 0 <= k < ng_idx.len() && ng_idx[k] == j by {
                    if j == i {
                        assert(ng_idx[png.len() as int] == j);
                    } else {
                        let k = choose|k: int| 0 <= k < png.len() && png[k] == j;
                        assert(ng_idx[k] == j);
                    }
                }
            }
        }
        i += 1;
    }
    if oks.len() == n {
        proof {
            assert forall|j: int| 0 <= j < info.size() implies op_holds(op, info.encoding.domain@[j] * info.coef + constant, 0) by {
                if !op_holds(op, enc.domain@[j] * info.coef + constant, 0) {
                    let k = choose|k: int| 0 <= k < ng_idx.len() && ng_idx[k] == j;
                }
            }
        }
        None
    } else if ngs.len() == 1 {
        proof {
            let j0 = ng_idx[0];
            assert(!op_holds(op, enc.domain@[j0] * info.coef + constant, 0));
            assert forall|m: Seq<bool>, t: int|
                0 <= t < info.size() && exactly_one(m, info.encoding.lits@, t) implies (clause_holds(m, ngs@) <==> op_holds(
                    op,
                    info.encoding.domain@[t] * info.coef + constant,
                    0,
                )) by {
                if op_holds(op, enc.domain@[t] * info.coef + constant, 0) {
                    assert(t != j0);
                    assert(lit_holds(m, ngs@[0]));
                } else {
                    let k = choose|k: int| 0 <= k < ng_idx.len() && ng_idx[k] == t;
                    assert(k == 0);
                    assert(!lit_holds(m, ngs@[0]));
                }
            }
        }
        proof {
            assert forall|k: int| 0 <= k < ngs@.len() implies lit_wf(#[trigger] ngs@[k]) && (exists|i: int| 0 <= i < info.size() && (ngs@[k] == info.encoding.lits@[i] || ngs@[k] == info.encoding.lits@[i].spec_not())) by {
                let t = ng_idx[k];
                assert(lit_wf(enc.lits@[t]));
            }
        }
        Some(ngs)
    } else {
        proof {
            assert(ng_idx.len() >= 1) by {
                if ng_idx.len() == 0 {
                    assert(ok_idx.len() == n);
                }
            }
            assert(!op_holds(op, enc.domain@[ng_idx[0]] * info.coef + constant, 0));
            assert forall|m: Seq<bool>, t: int|
                0 <= t < info.size() && exactly_one(m, info.encoding.lits@, t) implies (clause_holds(m, oks@) <==> op_holds(
                    op,
                    info.encoding.domain@[t] * info.coef + constant,
                    0,
                )) by {
                if op_holds(op, enc.domain@[t] * info.coef + constant, 0) {
                    let k = choose|k: int| 0 <= k < ok_idx.len() && ok_idx[k] == t;
                    assert(lit_holds(m, oks@[k]));
                } else {
                    if clause_holds(m, oks@) {
                        let k = choose|k: int| 0 <= k < oks@.len() && lit_holds(m, #[trigger] oks@[k]);
                        assert(ok_idx[k] == t);
                    }
                }
            }
        }
        proof {
            assert forall|k: int| 0 <= k < oks@.len() implies lit_wf(#[trigger] oks@[k]) && (exists|i: int| 0 <= i < info.size() && (oks@[k] == info.encoding.lits@[i] || oks@[k] == info.encoding.lits@[i].spec_not())) by {
                let t = ok_idx[k];
                assert(lit_wf(enc.lits@[t]));
            }
        }
        Some(oks)
    }
}

/// Bound on the magnitude of partial sums over `k` terms plus a constant.
pub open spec fn partial_bound(k: int) -> int {
    0x8000_0000 + k * 0x4000_0000_0000_0000
}

/// Every variable of `sum` is direct-encoded in `map`.
pub open spec fn all_direct(map: EncodeMap, sum: LinearSum) -> bool {
    forall|k: int| 0 <= k < sum.term@.len() ==> (#[trigger] map.int_enc(sum.term@[k].0.0 as int)) matches Some(
        Encoding::Direct(_),
    )
}

/// The terms of `sum` read through their direct encodings.
pub fn direct_infos<'a>(map: &'a EncodeMap, sum: &LinearSum) -> (r: Vec<LinearInfoForDirectEncoding<'a>>)
    requires
        exists|n: nat| map.wf(n),
        sum.wf(),
        all_direct(*map, *sum),
    ensures
        r@.len() == sum.term@.len(),
        forall|n: nat| map.wf(n) ==> direct_infos_wf(r@, n),
        forall|k: int|
            0 <= k < r@.len() ==> (#[trigger] r@[k]).coef == sum.term@[k].1 && map.int_enc(sum.term@[k].0.0 as int)
                == Some(Encoding::Direct(*r@[k].encoding)),
{
    let mut r: Vec<LinearInfoForDirectEncoding<'a>> = Vec::new();
    let mut k: usize = 0;
    while k < sum.term.len()
        invariant
            exists|n: nat| map.wf(n),
            sum.wf(),
            all_direct(*map, *sum),
            k <= sum.term@.len(),
            r@.len() == k,
            forall|n: nat| map.wf(n) ==> direct_infos_wf(r@, n),
            forall|j: int|
                0 <= j < k ==> (#[trigger] r@[j]).coef == sum.term@[j].1 && map.int_enc(sum.term@[j].0.0 as int)
                    == Some(Encoding::Direct(*r@[j].encoding)),
        decreases sum.term@.len() - k,
    {
        let (var, coef) = sum.term[k];
        let slot = map.int_encoding(var);
        assert(map.int_enc(sum.term@[k as int].0.0 as int) matches Some(Encoding::Direct(_)));
        match slot {
            Some(Encoding::Direct(e)) => {
                let ghost prev = r@;
                r.push(LinearInfoForDirectEncoding::new(coef, e));
                proof {
                    assert(sum.term@[k as int].1 != 0);
                    assert forall|n: nat| map.wf(n) implies direct_infos_wf(r@, n) by {
                        assert(map.int_enc(var.0 as int)->0.wf(n));
                        assert forall|j: int| 0 <= j < r@.len() implies (#[trigger] r@[j]).wf(n) by {
                            if j < k {
                                assert(r@[j] == prev[j]);
                            }
                        }
                    }
                }
            },
            _ => {
                assert(false);
            },
        }
        k += 1;
    }
    r
}

impl<'a> LinearInfoForDirectEncoding<'a> {
    /// Under `m` the term takes its `j`-th smallest value: the literal of
    /// that value holds and no other literal of the term does.
    pub open spec fn picks(&self, m: Seq<bool>, j: int) -> bool {
        &&& 0 <= j < self.size()
        &&& lit_holds(m, self.spec_equals(j))
        &&& forall|t: int| 0 <= t < self.size() && t != j ==> !lit_holds(m, #[trigger] self.spec_equals(t))
    }
}

/// Under `m` each term `info[k]` takes its `js[k]`-th smallest value.
pub open spec fn direct_model(info: Seq<LinearInfoForDirectEncoding>, m: Seq<bool>, js: Seq<int>) -> bool {
    &&& js.len() == info.len()
    &&& forall|k: int| 0 <= k < info.len() ==> (#[trigger] info[k]).picks(m, js[k])
}

/// The sum of the values that `js` picks for the terms `info[from..]`.
pub open spec fn direct_sum_from(info: Seq<LinearInfoForDirectEncoding>, js: Seq<int>, from: int) -> int
    decreases info.len() - from,
{
    if from < 0 || from >= info.len() {
        0
    } else {
        info[from].spec_domain(js[from]) + direct_sum_from(info, js, from + 1)
    }
}

/// Every clause of `cs` from index `from` on holds under `m`.
pub open spec fn holds_from(m: Seq<bool>, cs: Seq<Seq<Lit>>, from: int) -> bool {
    forall|j: int| from <= j < cs.len() ==> clause_holds(m, #[trigger] cs[j])
}

/// `cs` keeps the clauses of `before` and each clause it adds begins with
/// the literals of `c`.
pub open spec fn extends_with(before: Seq<Seq<Lit>>, cs: Seq<Seq<Lit>>, c: Seq<Lit>) -> bool {
    &&& before.is_prefix_of(cs)
    &&& forall|j: int| before.len() <= j < cs.len() ==> c.is_prefix_of(#[trigger] cs[j])
}

/// What the clauses added to `cs` from `from` on by the search for
/// `sum != 0` say under `m` with picks `js`, when `p` is the constant plus
/// the values fixed for the terms before `idx` and the clause built so far
/// fails: they all hold exactly when the whole sum is not zero.
pub open spec fn ne_branch_ok(
    info: Seq<LinearInfoForDirectEncoding>,
    idx: int,
    cs: Seq<Seq<Lit>>,
    from: int,
    clause: Seq<Lit>,
    p: int,
    m: Seq<bool>,
    js: Seq<int>,
) -> bool {
    direct_model(info, m, js) && !clause_holds(m, clause) ==> (holds_from(m, cs, from) <==> p + direct_sum_from(
        info,
        js,
        idx,
    ) != 0)
}

/// The same while the values of term `idx` below `upto` have been tried:
/// when the model picks one of them, the added clauses hold exactly when the
/// sum is not zero; otherwise they all hold.
pub open spec fn ne_loop_ok(
    info: Seq<LinearInfoForDirectEncoding>,
    idx: int,
    cs: Seq<Seq<Lit>>,
    from: int,
    clause: Seq<Lit>,
    p: int,
    upto: int,
    m: Seq<bool>,
    js: Seq<int>,
) -> bool {
    direct_model(info, m, js) && !clause_holds(m, clause) ==> {
        &&& js[idx] < upto ==> (holds_from(m, cs, from) <==> p + direct_sum_from(info, js, idx) != 0)
        &&& js[idx] >= upto ==> holds_from(m, cs, from)
    }
}

/// What the clauses added to `cs` from `from` on by the search for
/// `sum == 0` say under `m` with picks `js`, when the constant plus the
/// values of the terms before `idx` is some `q` between `plo` and `phi` and
/// the clause built so far fails: they all hold when the whole sum is zero,
/// and when the bounds are exact, only then.
pub open spec fn eq_branch_ok(
    info: Seq<LinearInfoForDirectEncoding>,
    idx: int,
    cs: Seq<Seq<Lit>>,
    from: int,
    clause: Seq<Lit>,
    plo: int,
    phi: int,
    m: Seq<bool>,
    js: Seq<int>,
    q: int,
) -> bool {
    direct_model(info, m, js) && !clause_holds(m, clause) && plo <= q <= phi ==> {
        &&& q + direct_sum_from(info, js, idx) == 0 ==> holds_from(m, cs, from)
        &&& plo == phi && holds_from(m, cs, from) ==> q + direct_sum_from(info, js, idx) == 0
    }
}

/// The same while the values of term `idx` below `upto` have been tried.
pub open spec fn eq_loop_ok(
    info: Seq<LinearInfoForDirectEncoding>,
    idx: int,
    cs: Seq<Seq<Lit>>,
    from: int,
    clause: Seq<Lit>,
    plo: int,
    phi: int,
    upto: int,
    m: Seq<bool>,
    js: Seq<int>,
    q: int,
) -> bool {
    direct_model(info, m, js) && !clause_holds(m, clause) && plo <= q <= phi ==> {
        &&& q + direct_sum_from(info, js, idx) == 0 ==> holds_from(m, cs, from)
        &&& plo == phi && holds_from(m, cs, from) && js[idx] < upto ==> q + direct_sum_from(info, js, idx) == 0
    }
}

/// A clause that begins with the literals of a clause that holds, holds.
pub proof fn lemma_prefix_clause_holds(m: Seq<bool>, c: Seq<Lit>, d: Seq<Lit>)
    requires
        c.is_prefix_of(d),
        clause_holds(m, c),
    ensures
        clause_holds(m, d),
{
    let i = choose|i: int| 0 <= i < c.len() && lit_holds(m, #[trigger] c[i]);
    assert(d[i] == c[i]);
}

/// Adding a literal keeps the beginning.
pub proof fn lemma_push_prefix(c: Seq<Lit>, l: Lit)
    ensures
        c.is_prefix_of(c.push(l)),
{
    assert(c =~= c.push(l).subrange(0, c.len() as int));
}

/// A clause with one more literal holds when the clause or the literal does.
pub proof fn lemma_push_holds(m: Seq<bool>, c: Seq<Lit>, l: Lit)
    ensures
        clause_holds(m, c.push(l)) == (clause_holds(m, c) || lit_holds(m, l)),
{
    let d = c.push(l);
    if clause_holds(m, c) {
        let i = choose|i: int| 0 <= i < c.len() && lit_holds(m, #[trigger] c[i]);
        assert(d[i] == c[i]);
    }
    if lit_holds(m, l) {
        assert(d[c.len() as int] == l);
    }
    if clause_holds(m, d) {
        let i = choose|i: int| 0 <= i < d.len() && lit_holds(m, #[trigger] d[i]);
        if i < c.len() {
            assert(d[i] == c[i]);
        }
    }
}

/// The clauses that `extends_with` adds hold when the clause they begin
/// with holds.
pub proof fn lemma_extends_holds(m: Seq<bool>, before: Seq<Seq<Lit>>, cs: Seq<Seq<Lit>>, c: Seq<Lit>)
    requires
        extends_with(before, cs, c),
        clause_holds(m, c),
    ensures
        holds_from(m, cs, before.len() as int),
{
    assert forall|j: int| before.len() <= j < cs.len() implies clause_holds(m, #[trigger] cs[j]) by {
        lemma_prefix_clause_holds(m, c, cs[j]);
    }
}

/// Splitting the clauses from `from` on at the end of `before`.
pub proof fn lemma_holds_split(m: Seq<bool>, before: Seq<Seq<Lit>>, cs: Seq<Seq<Lit>>, from: int)
    requires
        before.is_prefix_of(cs),
        0 <= from <= before.len(),
    ensures
        holds_from(m, cs, from) == (holds_from(m, before, from) && holds_from(m, cs, before.len() as int)),
{
    assert forall|j: int| from <= j < before.len() implies before[j] == cs[j] by {
        assert(before[j] == cs.subrange(0, before.len() as int)[j]);
    }
    if holds_from(m, cs, from) {
        assert forall|j: int| from <= j < before.len() implies clause_holds(m, #[trigger] before[j]) by {
            assert(before[j] == cs[j]);
        }
    }
    if holds_from(m, before, from) && holds_from(m, cs, before.len() as int) {
        assert forall|j: int| from <= j < cs.len() implies clause_holds(m, #[trigger] cs[j]) by {
            if j < before.len() {
                assert(before[j] == cs[j]);
            }
        }
    }
}

/// `extends_with` composes.
pub proof fn lemma_extends_trans(a: Seq<Seq<Lit>>, b: Seq<Seq<Lit>>, c: Seq<Seq<Lit>>, x: Seq<Lit>, y: Seq<Lit>)
    requires
        extends_with(a, b, x),
        extends_with(b, c, y),
        x.is_prefix_of(y),
    ensures
        extends_with(a, c, x),
{
    assert(a =~= c.subrange(0, a.len() as int)) by {
        assert forall|j: int| 0 <= j < a.len() implies a[j] == c[j] by {
            assert(a[j] == b.subrange(0, a.len() as int)[j]);
            assert(b[j] == c.subrange(0, b.len() as int)[j]);
        }
    }
    assert forall|j: int| a.len() <= j < c.len() implies x.is_prefix_of(#[trigger] c[j]) by {
        if j < b.len() {
            assert(b[j] == c.subrange(0, b.len() as int)[j]);
            assert(x.is_prefix_of(b[j]));
        } else {
            let d = c[j];
            assert(y.is_prefix_of(d));
            assert(x =~= d.subrange(0, x.len() as int)) by {
                assert forall|t: int| 0 <= t < x.len() implies x[t] == d[t] by {
                    assert(x[t] == y.subrange(0, x.len() as int)[t]);
                    assert(y[t] == d.subrange(0, y.len() as int)[t]);
                }
            }
        }
    }
}

/// Adding no clause keeps `extends_with`.
pub proof fn lemma_extends_refl(cs: Seq<Seq<Lit>>, c: Seq<Lit>)
    ensures
        extends_with(cs, cs, c),
{
    assert(cs =~= cs.subrange(0, cs.len() as int));
}

/// Adding one clause that begins with `c`.
pub proof fn lemma_extends_push(cs: Seq<Seq<Lit>>, c: Seq<Lit>, d: Seq<Lit>)
    requires
        c.is_prefix_of(d),
    ensures
        extends_with(cs, cs.push(d), c),
{
    assert(cs =~= cs.push(d).subrange(0, cs.len() as int));
    assert(cs.push(d)[cs.len() as int] == d);
}

/// Under a model the literal of a value holds exactly when it is the
/// picked value.
pub proof fn lemma_picks_equals(x: LinearInfoForDirectEncoding, m: Seq<bool>, j: int, t: int)
    requires
        x.picks(m, j),
        0 <= t < x.size(),
    ensures
        lit_holds(m, x.spec_equals(t)) == (t == j),
        lit_holds(m, x.spec_equals(t).spec_not()) == (t != j),
{
    if t != j {
        assert(!lit_holds(m, x.spec_equals(t)));
    }
}

/// The sum of the picked values lies between the sums of the smallest and
/// of the largest values.
proof fn lemma_direct_sum_between(info: Seq<LinearInfoForDirectEncoding>, m: Seq<bool>, js: Seq<int>, from: int)
    requires
        forall|k: int| 0 <= k < info.len() ==> (#[trigger] info[k]).shaped(),
        direct_model(info, m, js),
        0 <= from <= info.len(),
    ensures
        direct_min_sum(info, from) <= direct_sum_from(info, js, from) <= direct_max_sum(info, from),
    decreases info.len() - from,
{
    if from < info.len() {
        lemma_direct_sum_between(info, m, js, from + 1);
        let x = info[from];
        assert(x.picks(m, js[from]));
        x.lemma_increasing();
        let j = js[from];
        if j > 0 {
            assert(x.spec_domain(0) < x.spec_domain(j));
        }
        if j < x.size() - 1 {
            assert(x.spec_domain(j) < x.spec_domain(x.size() - 1));
        }
    }
}

fn copy_lits(c: &Vec<Lit>) -> (r: Vec<Lit>)
    ensures
        r@ == c@,
{
    let mut r: Vec<Lit> = Vec::new();
    let mut i: usize = 0;
    while i < c.len()
        invariant
            i <= c@.len(),
            r@ == c@.take(i as int),
        decreases c@.len() - i,
    {
        r.push(c[i]);
        i += 1;
        assert(r@ =~= c@.take(i as int));
    }
    assert(r@ =~= c@);
    r
}

/// The clauses of `sum(info) + constant == 0` when the terms are fixed
/// one by one (`clause` negates the values chosen so far), or left open.
fn eq_direct_sub(
    info: &Vec<LinearInfoForDirectEncoding>,
    clause: &mut Vec<Lit>,
    idx: usize,
    lower_bound: i128,
    upper_bound: i128,
    clauses_buf: &mut ClauseSet,
    Ghost(n): Ghost<nat>,
    Ghost(plo): Ghost<int>,
    Ghost(phi): Ghost<int>,
)
    requires
        direct_infos_wf(info@, n),
        idx <= info@.len(),
        clause_in_range(old(clause)@, n as int),
        clauses_in_range(old(clauses_buf)@, n),
        lower_bound == plo + direct_min_sum(info@, idx as int),
        upper_bound == phi + direct_max_sum(info@, idx as int),
        -partial_bound(idx as int) <= plo <= partial_bound(idx as int),
        -partial_bound(idx as int) <= phi <= partial_bound(idx as int),
    ensures
        final(clause)@ == old(clause)@,
        clauses_in_range(final(clauses_buf)@, n),
        extends_with(old(clauses_buf)@, final(clauses_buf)@, old(clause)@),
        forall|m: Seq<bool>, js: Seq<int>, q: int|
            #[trigger] eq_branch_ok(
                info@,
                idx as int,
                final(clauses_buf)@,
                old(clauses_buf)@.len() as int,
                old(clause)@,
                plo,
                phi,
                m,
                js,
                q,
            ),
    decreases info@.len() - idx,
{
    let ghost from = clauses_buf@.len() as int;
    let ghost c0 = clause@;
    proof {
        lemma_extends_refl(clauses_buf@, c0);
        assert forall|k: int| 0 <= k < info@.len() implies (#[trigger] info@[k]).shaped() by {
            assert(info@[k].wf(n));
        }
    }
    if lower_bound > 0 || upper_bound < 0 {
        clauses_buf.push(clause.as_slice());
        proof {
            assert(c0.is_prefix_of(c0)) by {
                assert(c0 =~= c0.subrange(0, c0.len() as int));
            }
            lemma_extends_push(old(clauses_buf)@, c0, c0);
            assert forall|j: int| 0 <= j < clauses_buf@.len() implies clause_in_range(#[trigger] clauses_buf@[j], n as int) by {
                if j < old(clauses_buf)@.len() {
                    assert(clauses_buf@[j] == old(clauses_buf)@[j]);
                }
            }
            assert forall|m: Seq<bool>, js: Seq<int>, q: int|
                #[trigger] eq_branch_ok(info@, idx as int, clauses_buf@, from, c0, plo, phi, m, js, q) by {
                if direct_model(info@, m, js) && !clause_holds(m, c0) && plo <= q <= phi {
                    lemma_direct_sum_between(info@, m, js, idx as int);
                    assert(clauses_buf@[from] == c0);
                }
            }
        }
        return;
    }
    if idx == info.len() {
        proof {
            assert forall|m: Seq<bool>, js: Seq<int>, q: int|
                #[trigger] eq_branch_ok(info@, idx as int, clauses_buf@, from, c0, plo, phi, m, js, q) by {
            }
        }
        return;
    }
    proof {
        lemma_direct_sums_bound(info@, idx as int);
        lemma_direct_sums_bound(info@, idx + 1);
        lemma_direct_value_bound(info@[idx as int], 0);
        lemma_direct_value_bound(info@[idx as int], info@[idx as int].size() - 1);
        assert(info@.len() <= usize::MAX);
    }
    let x = &info[idx];
    let lb_this = x.domain_min() as i128;
    let ub_this = x.domain_max() as i128;
    proof {
        x.lemma_increasing();
    }
    if idx == info.len() - 1 {
        let prev_lb = lower_bound - lb_this;
        let prev_ub = upper_bound - ub_this;
        assert(prev_lb == plo && prev_ub == phi);
        let mut cands: Vec<Lit> = Vec::new();
        let ghost mut cidx: Seq<int> = Seq::empty();
        let size = x.domain_size();
        let mut i: usize = 0;
        while i < size
            invariant
                x.wf(n),
                size == x.size(),
                i <= size,
                cands@.len() <= i,
                cidx.len() == cands@.len(),
                prev_lb == plo,
                prev_ub == phi,
                forall|k: int| 0 <= k < cands@.len() ==> 0 <= #[trigger] cidx[k] < i && cands@[k] == x.spec_equals(cidx[k])
                    && plo + x.spec_domain(cidx[k]) <= 0 <= phi + x.spec_domain(cidx[k]),
                forall|j: int| 0 <= j < i && plo + #[trigger] x.spec_domain(j) <= 0 <= phi + x.spec_domain(j) ==> exists|k: int|
                    0 <= k < cands@.len() && #[trigger] cidx[k] == j,
                cands@.len() == i ==> forall|j: int| 0 <= j < i ==> plo + #[trigger] x.spec_domain(j) <= 0 <= phi + x.spec_domain(j),
                clause_in_range(cands@, n as int),
                -partial_bound(idx as int) <= prev_lb <= partial_bound(idx as int),
                -partial_bound(idx as int) <= prev_ub <= partial_bound(idx as int),
                info@.len() <= usize::MAX,
                idx < info@.len(),
            decreases size - i,
        {
            let value = x.domain(i) as i128;
            proof {
                lemma_direct_value_bound(*x, i as int);
            }
            if !(prev_ub + value < 0 || 0 < prev_lb + value) {
                let l = x.equals(i);
                let ghost prev_c = cands@;
                let ghost prev_i = cidx;
                cands.push(l);
                proof {
                    cidx = cidx.push(i as int);
                    assert(l == x.spec_equals(i as int));
                    assert(clause_in_range(x.encoding.lits@, n as int));
                    if x.coef > 0 {
                        assert(x.encoding.lits@[i as int].spec_var().0 < n);
                    } else {
                        assert(x.encoding.lits@[x.size() - 1 - i].spec_var().0 < n);
                    }
                    assert forall|k: int| 0 <= k < cands@.len() implies lit_wf(#[trigger] cands@[k]) && cands@[k].spec_var().0 < n by {
                        if k < cands@.len() - 1 {
                            assert(cands@[k] == prev_c[k]);
                        }
                    }
                    assert forall|j: int| 0 <= j < i + 1 && plo + #[trigger] x.spec_domain(j) <= 0 <= phi + x.spec_domain(j) implies exists|k: int|
                        0 <= k < cands@.len() && #[trigger] cidx[k] == j by {
                        if j < i {
                            let k = choose|k: int| 0 <= k < prev_c.len() && prev_i[k] == j;
                            assert(cidx[k] == j);
                        } else {
                            assert(cidx[cands@.len() - 1] == j);
                        }
                    }
                }
            }
            i += 1;
        }
        if cands.len() == size {
            proof {
                assert forall|m: Seq<bool>, js: Seq<int>, q: int|
                    #[trigger] eq_branch_ok(info@, idx as int, clauses_buf@, from, c0, plo, phi, m, js, q) by {
                    if direct_model(info@, m, js) && !clause_holds(m, c0) && plo <= q <= phi {
                        assert(x.picks(m, js[idx as int]));
                        assert(direct_sum_from(info@, js, idx + 1) == 0);
                    }
                }
            }
            return;
        }
        let mut full = copy_lits(clause);
        let ghost base = full@;
        let mut t: usize = 0;
        while t < cands.len()
            invariant
                clause_in_range(base, n as int),
                clause_in_range(cands@, n as int),
                t <= cands@.len(),
                full@ == base + cands@.take(t as int),
            decreases cands@.len() - t,
        {
            full.push(cands[t]);
            t += 1;
            assert(full@ =~= base + cands@.take(t as int));
        }
        proof {
            assert(cands@.take(cands@.len() as int) =~= cands@);
            assert forall|k: int| 0 <= k < full@.len() implies lit_wf(#[trigger] full@[k]) && full@[k].spec_var().0 < n by {
                if k < base.len() {
                    assert(full@[k] == base[k]);
                } else {
                    assert(full@[k] == cands@[k - base.len()]);
                }
            }
        }
        let ghost fc = full@;
        clauses_buf.push(full.as_slice());
        proof {
            assert(c0.is_prefix_of(fc)) by {
                assert(c0 =~= fc.subrange(0, c0.len() as int));
            }
            lemma_extends_push(old(clauses_buf)@, c0, fc);
            assert forall|j: int| 0 <= j < clauses_buf@.len() implies clause_in_range(#[trigger] clauses_buf@[j], n as int) by {
                if j < old(clauses_buf)@.len() {
                    assert(clauses_buf@[j] == old(clauses_buf)@[j]);
                }
            }
            assert forall|m: Seq<bool>, js: Seq<int>, q: int|
                #[trigger] eq_branch_ok(info@, idx as int, clauses_buf@, from, c0, plo, phi, m, js, q) by {
                if direct_model(info@, m, js) && !clause_holds(m, c0) && plo <= q <= phi {
                    let jm = js[idx as int];
                    assert(x.picks(m, jm));
                    assert(direct_sum_from(info@, js, idx + 1) == 0);
                    assert(clauses_buf@[from] == fc);
                    if q + direct_sum_from(info@, js, idx as int) == 0 {
                        let k = choose|k: int| 0 <= k < cands@.len() && cidx[k] == jm;
                        assert(fc[base.len() + k] == cands@[k]);
                        assert(lit_holds(m, fc[base.len() + k]));
                    }
                    if plo == phi && clause_holds(m, fc) {
                        let w = choose|w: int| 0 <= w < fc.len() && lit_holds(m, #[trigger] fc[w]);
                        if w < base.len() {
                            assert(fc[w] == c0[w]);
                        } else {
                            let k = w - base.len();
                            assert(fc[w] == cands@[k]);
                            lemma_picks_equals(*x, m, jm, cidx[k]);
                        }
                    }
                }
            }
        }
        return;
    }
    let size = x.domain_size();
    let mut i: usize = 0;
    while i < size
        invariant
            direct_infos_wf(info@, n),
            forall|k: int| 0 <= k < info@.len() ==> (#[trigger] info@[k]).shaped(),
            x == info@[idx as int],
            x.wf(n),
            size == x.size(),
            i <= size,
            idx + 1 < info@.len(),
            clause@ == old(clause)@,
            c0 == old(clause)@,
            from == old(clauses_buf)@.len(),
            clause_in_range(clause@, n as int),
            clauses_in_range(clauses_buf@, n),
            extends_with(old(clauses_buf)@, clauses_buf@, c0),
            forall|m: Seq<bool>, js: Seq<int>, q: int|
                #[trigger] eq_loop_ok(info@, idx as int, clauses_buf@, from, c0, plo, phi, i as int, m, js, q),
            lower_bound == plo + direct_min_sum(info@, idx as int),
            upper_bound == phi + direct_max_sum(info@, idx as int),
            lb_this == x.spec_domain(0),
            ub_this == x.spec_domain(x.size() - 1),
            forall|a: int, b: int| 0 <= a < b < x.size() ==> x.spec_domain(a) < x.spec_domain(b),
            direct_min_sum(info@, idx as int) == x.spec_domain(0) + direct_min_sum(info@, idx + 1),
            direct_max_sum(info@, idx as int) == x.spec_domain(x.size() - 1) + direct_max_sum(info@, idx + 1),
            -partial_bound(idx as int) <= plo <= partial_bound(idx as int),
            -partial_bound(idx as int) <= phi <= partial_bound(idx as int),
            -(info@.len() - idx - 1) * 0x4000_0000_0000_0000 <= direct_min_sum(info@, idx + 1) <= (info@.len() - idx - 1)
                * 0x4000_0000_0000_0000,
            -(info@.len() - idx - 1) * 0x4000_0000_0000_0000 <= direct_max_sum(info@, idx + 1) <= (info@.len() - idx - 1)
                * 0x4000_0000_0000_0000,
            info@.len() <= usize::MAX,
        decreases size - i,
    {
        proof {
            lemma_direct_value_bound(*x, i as int);
        }
        let value = x.domain(i) as i128;
        let next_lb = lower_bound - lb_this + value;
        let next_ub = upper_bound - ub_this + value;
        let l = x.equals(i);
        proof {
            if x.coef > 0 {
                assert(x.encoding.lits@[i as int].spec_var().0 < n);
            } else {
                assert(x.encoding.lits@[x.size() - 1 - i].spec_var().0 < n);
            }
        }
        let ghost before = clauses_buf@;
        clause.push(l.negate());
        let ghost c1 = clause@;
        proof {
            assert forall|k: int| 0 <= k < clause@.len() implies lit_wf(#[trigger] clause@[k]) && clause@[k].spec_var().0 < n by {
                if k < clause@.len() - 1 {
                    assert(clause@[k] == old(clause)@[k]);
                }
            }
        }
        eq_direct_sub(info, clause, idx + 1, next_lb, next_ub, clauses_buf, Ghost(n), Ghost(plo + value), Ghost(phi + value));
        proof {
            let after = clauses_buf@;
            lemma_push_prefix(c0, l.spec_not());
            lemma_extends_trans(old(clauses_buf)@, before, after, c0, c1);
            assert forall|m: Seq<bool>, js: Seq<int>, q: int|
                #[trigger] eq_loop_ok(info@, idx as int, after, from, c0, plo, phi, i + 1, m, js, q) by {
                if direct_model(info@, m, js) && !clause_holds(m, c0) && plo <= q <= phi {
                    assert(eq_loop_ok(info@, idx as int, before, from, c0, plo, phi, i as int, m, js, q));
                    assert(eq_branch_ok(
                        info@,
                        idx + 1,
                        after,
                        before.len() as int,
                        c1,
                        plo + value,
                        phi + value,
                        m,
                        js,
                        q + value,
                    ));
                    let ji = js[idx as int];
                    assert(x.picks(m, ji));
                    lemma_picks_equals(*x, m, ji, i as int);
                    lemma_push_holds(m, c0, l.spec_not());
                    lemma_holds_split(m, before, after, from);
                    if ji != i {
                        lemma_extends_holds(m, before, after, c1);
                    }
                }
            }
        }
        clause.pop();
        proof {
            assert(clause@ =~= old(clause)@);
        }
        i += 1;
    }
    let ghost before = clauses_buf@;
    eq_direct_sub(
        info,
        clause,
        idx + 1,
        lower_bound,
        upper_bound,
        clauses_buf,
        Ghost(n),
        Ghost(plo + lb_this),
        Ghost(phi + ub_this),
    );
    proof {
        let after = clauses_buf@;
        assert(c0.is_prefix_of(c0)) by {
            assert(c0 =~= c0.subrange(0, c0.len() as int));
        }
        lemma_extends_trans(old(clauses_buf)@, before, after, c0, c0);
        assert forall|m: Seq<bool>, js: Seq<int>, q: int|
            #[trigger] eq_branch_ok(info@, idx as int, after, from, c0, plo, phi, m, js, q) by {
            if direct_model(info@, m, js) && !clause_holds(m, c0) && plo <= q <= phi {
                let ji = js[idx as int];
                assert(x.picks(m, ji));
                let v = x.spec_domain(ji);
                assert(lb_this <= v <= ub_this) by {
                    if ji > 0 {
                        assert(x.spec_domain(0) < x.spec_domain(ji));
                    }
                    if ji < x.size() - 1 {
                        assert(x.spec_domain(ji) < x.spec_domain(x.size() - 1));
                    }
                }
                assert(eq_loop_ok(info@, idx as int, before, from, c0, plo, phi, size as int, m, js, q));
                assert(eq_branch_ok(
                    info@,
                    idx + 1,
                    after,
                    before.len() as int,
                    c0,
                    plo + lb_this,
                    phi + ub_this,
                    m,
                    js,
                    q + v,
                ));
                lemma_holds_split(m, before, after, from);
            }
        }
    }
}

/// Like `eq_direct_sub`, for `sum(info) + constant != 0`: every term is
/// fixed, and the clause forbids each choice whose sum is zero.
fn ne_direct_sub(
    info: &Vec<LinearInfoForDirectEncoding>,
    clause: &mut Vec<Lit>,
    idx: usize,
    lower_bound: i128,
    upper_bound: i128,
    clauses_buf: &mut ClauseSet,
    Ghost(n): Ghost<nat>,
    Ghost(p): Ghost<int>,
)
    requires
        direct_infos_wf(info@, n),
        idx <= info@.len(),
        clause_in_range(old(clause)@, n as int),
        clauses_in_range(old(clauses_buf)@, n),
        lower_bound == p + direct_min_sum(info@, idx as int),
        upper_bound == p + direct_max_sum(info@, idx as int),
        -partial_bound(idx as int) <= p <= partial_bound(idx as int),
    ensures
        final(clause)@ == old(clause)@,
        clauses_in_range(final(clauses_buf)@, n),
        extends_with(old(clauses_buf)@, final(clauses_buf)@, old(clause)@),
        forall|m: Seq<bool>, js: Seq<int>|
            #[trigger] ne_branch_ok(info@, idx as int, final(clauses_buf)@, old(clauses_buf)@.len() as int, old(clause)@, p, m, js),
    decreases info@.len() - idx,
{
    let ghost from = clauses_buf@.len() as int;
    let ghost c0 = clause@;
    proof {
        lemma_extends_refl(clauses_buf@, c0);
        assert forall|k: int| 0 <= k < info@.len() implies (#[trigger] info@[k]).shaped() by {
            assert(info@[k].wf(n));
        }
    }
    if lower_bound > 0 || upper_bound < 0 {
        proof {
            assert forall|m: Seq<bool>, js: Seq<int>|
                #[trigger] ne_branch_ok(info@, idx as int, clauses_buf@, from, c0, p, m, js) by {
                if direct_model(info@, m, js) {
                    lemma_direct_sum_between(info@, m, js, idx as int);
                }
            }
        }
        return;
    }
    if idx == info.len() {
        if lower_bound == 0 {
            clauses_buf.push(clause.as_slice());
            proof {
                lemma_extends_push(old(clauses_buf)@, c0, c0);
                assert(c0.is_prefix_of(c0)) by {
                    assert(c0 =~= c0.subrange(0, c0.len() as int));
                }
                assert forall|j: int| 0 <= j < clauses_buf@.len() implies clause_in_range(#[trigger] clauses_buf@[j], n as int) by {
                    if j < old(clauses_buf)@.len() {
                        assert(clauses_buf@[j] == old(clauses_buf)@[j]);
                    }
                }
                assert forall|m: Seq<bool>, js: Seq<int>|
                    #[trigger] ne_branch_ok(info@, idx as int, clauses_buf@, from, c0, p, m, js) by {
                    if direct_model(info@, m, js) && !clause_holds(m, c0) {
                        assert(clauses_buf@[from] == c0);
                    }
                }
            }
        }
        return;
    }
    proof {
        lemma_direct_sums_bound(info@, idx as int);
        lemma_direct_sums_bound(info@, idx + 1);
        lemma_direct_value_bound(info@[idx as int], 0);
        lemma_direct_value_bound(info@[idx as int], info@[idx as int].size() - 1);
        assert(info@.len() <= usize::MAX);
    }
    let x = &info[idx];
    let lb_this = x.domain_min() as i128;
    let ub_this = x.domain_max() as i128;
    if idx == info.len() - 1 {
        let prev_val = lower_bound - lb_this;
        assert(prev_val == p);
        let size = x.domain_size();
        let mut forbidden: Option<Lit> = None;
        let mut i: usize = 0;
        while i < size
            invariant
                x.wf(n),
                size == x.size(),
                i <= size,
                prev_val == p,
                forbidden matches Some(l) ==> lit_wf(l) && l.spec_var().0 < n && exists|j: int|
                    0 <= j < i && p + x.spec_domain(j) == 0 && l == x.spec_equals(j),
                forbidden is None ==> forall|j: int| 0 <= j < i ==> p + x.spec_domain(j) != 0,
                -partial_bound(idx as int) <= prev_val <= partial_bound(idx as int),
                info@.len() <= usize::MAX,
                idx < info@.len(),
            decreases size - i,
        {
            proof {
                lemma_direct_value_bound(*x, i as int);
            }
            let value = x.domain(i) as i128;
            if prev_val + value == 0 {
                let l = x.equals(i);
                proof {
                    if x.coef > 0 {
                        assert(x.encoding.lits@[i as int].spec_var().0 < n);
                    } else {
                        assert(x.encoding.lits@[x.size() - 1 - i].spec_var().0 < n);
                    }
                }
                forbidden = Some(l);
            }
            i += 1;
        }
        proof {
            x.lemma_increasing();
        }
        match forbidden {
            Some(l) => {
                let ghost jf = choose|j: int| 0 <= j < size && p + x.spec_domain(j) == 0 && l == x.spec_equals(j);
                clause.push(l.negate());
                let ghost c1 = clause@;
                proof {
                    assert forall|k: int| 0 <= k < clause@.len() implies lit_wf(#[trigger] clause@[k]) && clause@[k].spec_var().0 < n by {
                        if k < clause@.len() - 1 {
                            assert(clause@[k] == old(clause)@[k]);
                        }
                    }
                }
                clauses_buf.push(clause.as_slice());
                proof {
                    lemma_push_prefix(c0, l.spec_not());
                    lemma_extends_push(old(clauses_buf)@, c0, c1);
                    assert forall|j: int| 0 <= j < clauses_buf@.len() implies clause_in_range(#[trigger] clauses_buf@[j], n as int) by {
                        if j < old(clauses_buf)@.len() {
                            assert(clauses_buf@[j] == old(clauses_buf)@[j]);
                        }
                    }
                    assert forall|m: Seq<bool>, js: Seq<int>|
                        #[trigger] ne_branch_ok(info@, idx as int, clauses_buf@, from, c0, p, m, js) by {
                        if direct_model(info@, m, js) && !clause_holds(m, c0) {
                            assert(clauses_buf@[from] == c1);
                            assert(x.picks(m, js[idx as int]));
                            lemma_push_holds(m, c0, l.spec_not());
                            lemma_picks_equals(*x, m, js[idx as int], jf);
                            assert(direct_sum_from(info@, js, idx + 1) == 0);
                            if js[idx as int] != jf {
                                if js[idx as int] < jf {
                                    assert(x.spec_domain(js[idx as int]) < x.spec_domain(jf));
                                } else {
                                    assert(x.spec_domain(jf) < x.spec_domain(js[idx as int]));
                                }
                            }
                        }
                    }
                }
                clause.pop();
                proof {
                    assert(clause@ =~= old(clause)@);
                }
            },
            None => {
                proof {
                    assert forall|m: Seq<bool>, js: Seq<int>|
                        #[trigger] ne_branch_ok(info@, idx as int, clauses_buf@, from, c0, p, m, js) by {
                        if direct_model(info@, m, js) && !clause_holds(m, c0) {
                            assert(x.picks(m, js[idx as int]));
                            assert(direct_sum_from(info@, js, idx + 1) == 0);
                        }
                    }
                }
            },
        }
        return;
    }
    let size = x.domain_size();
    let mut i: usize = 0;
    while i < size
        invariant
            direct_infos_wf(info@, n),
            forall|k: int| 0 <= k < info@.len() ==> (#[trigger] info@[k]).shaped(),
            x == info@[idx as int],
            x.wf(n),
            size == x.size(),
            i <= size,
            idx + 1 < info@.len(),
            clause@ == old(clause)@,
            c0 == old(clause)@,
            from == old(clauses_buf)@.len(),
            clause_in_range(clause@, n as int),
            clauses_in_range(clauses_buf@, n),
            extends_with(old(clauses_buf)@, clauses_buf@, c0),
            forall|m: Seq<bool>, js: Seq<int>|
                #[trigger] ne_loop_ok(info@, idx as int, clauses_buf@, from, c0, p, i as int, m, js),
            lower_bound == p + direct_min_sum(info@, idx as int),
            upper_bound == p + direct_max_sum(info@, idx as int),
            lb_this == x.spec_domain(0),
            ub_this == x.spec_domain(x.size() - 1),
            direct_min_sum(info@, idx as int) == x.spec_domain(0) + direct_min_sum(info@, idx + 1),
            direct_max_sum(info@, idx as int) == x.spec_domain(x.size() - 1) + direct_max_sum(info@, idx + 1),
            -partial_bound(idx as int) <= p <= partial_bound(idx as int),
            -(info@.len() - idx - 1) * 0x4000_0000_0000_0000 <= direct_min_sum(info@, idx + 1) <= (info@.len() - idx - 1)
                * 0x4000_0000_0000_0000,
            -(info@.len() - idx - 1) * 0x4000_0000_0000_0000 <= direct_max_sum(info@, idx + 1) <= (info@.len() - idx - 1)
                * 0x4000_0000_0000_0000,
            info@.len() <= usize::MAX,
        decreases size - i,
    {
        proof {
            lemma_direct_value_bound(*x, i as int);
        }
        let value = x.domain(i) as i128;
        let next_lb = lower_bound - lb_this + value;
        let next_ub = upper_bound - ub_this + value;
        let l = x.equals(i);
        proof {
            if x.coef > 0 {
                assert(x.encoding.lits@[i as int].spec_var().0 < n);
            } else {
                assert(x.encoding.lits@[x.size() - 1 - i].spec_var().0 < n);
            }
        }
        let ghost before = clauses_buf@;
        clause.push(l.negate());
        let ghost c1 = clause@;
        proof {
            assert forall|k: int| 0 <= k < clause@.len() implies lit_wf(#[trigger] clause@[k]) && clause@[k].spec_var().0 < n by {
                if k < clause@.len() - 1 {
                    assert(clause@[k] == old(clause)@[k]);
                }
            }
        }
        ne_direct_sub(info, clause, idx + 1, next_lb, next_ub, clauses_buf, Ghost(n), Ghost(p + value));
        proof {
            let after = clauses_buf@;
            lemma_push_prefix(c0, l.spec_not());
            lemma_extends_trans(old(clauses_buf)@, before, after, c0, c1);
            assert forall|m: Seq<bool>, js: Seq<int>|
                #[trigger] ne_loop_ok(info@, idx as int, after, from, c0, p, i + 1, m, js) by {
                if direct_model(info@, m, js) && !clause_holds(m, c0) {
                    assert(ne_loop_ok(info@, idx as int, before, from, c0, p, i as int, m, js));
                    assert(ne_branch_ok(info@, idx + 1, after, before.len() as int, c1, p + value, m, js));
                    let ji = js[idx as int];
                    assert(x.picks(m, ji));
                    lemma_picks_equals(*x, m, ji, i as int);
                    lemma_push_holds(m, c0, l.spec_not());
                    lemma_holds_split(m, before, after, from);
                    if ji != i {
                        lemma_extends_holds(m, before, after, c1);
                    }
                }
            }
        }
        clause.pop();
        proof {
            assert(clause@ =~= old(clause)@);
        }
        i += 1;
    }
    proof {
        assert forall|m: Seq<bool>, js: Seq<int>|
            #[trigger] ne_branch_ok(info@, idx as int, clauses_buf@, from, c0, p, m, js) by {
            assert(ne_loop_ok(info@, idx as int, clauses_buf@, from, c0, p, size as int, m, js));
            if direct_model(info@, m, js) {
                assert(x.picks(m, js[idx as int]));
            }
        }
    }
}

/// The constant plus the smallest and the largest values of the terms.
fn direct_bounds(info: &Vec<LinearInfoForDirectEncoding>, constant: i32, Ghost(n): Ghost<nat>) -> (r: (i128, i128))
    requires
        direct_infos_wf(info@, n),
    ensures
        r.0 == constant + direct_min_sum(info@, 0),
        r.1 == constant + direct_max_sum(info@, 0),
{
    let len = info.len();
    proof {
        lemma_direct_sums_bound(info@, 0);
        assert(info@.len() <= usize::MAX);
    }
    let mut lower_bound: i128 = constant as i128;
    let mut upper_bound: i128 = constant as i128;
    let mut k: usize = 0;
    while k < info.len()
        invariant
            direct_infos_wf(info@, n),
            k <= info@.len(),
            info@.len() <= usize::MAX,
            lower_bound + direct_min_sum(info@, k as int) == constant + direct_min_sum(info@, 0),
            upper_bound + direct_max_sum(info@, k as int) == constant + direct_max_sum(info@, 0),
            -partial_bound(k as int) <= lower_bound <= partial_bound(k as int),
            -partial_bound(k as int) <= upper_bound <= partial_bound(k as int),
        decreases info@.len() - k,
    {
        proof {
            lemma_direct_value_bound(info@[k as int], 0);
            lemma_direct_value_bound(info@[k as int], info@[k as int].size() - 1);
        }
        lower_bound = lower_bound + info[k].domain_min() as i128;
        upper_bound = upper_bound + info[k].domain_max() as i128;
        k += 1;
    }
    (lower_bound, upper_bound)
}

/// Clauses of `sum(info) + constant == 0` for two direct-encoded terms:
/// each value of one term forces the matching value of the other.
fn encode_linear_eq_direct_two_terms(info: &Vec<LinearInfoForDirectEncoding>, constant: i32, Ghost(n): Ghost<nat>) -> (r: ClauseSet)
    requires
        direct_infos_wf(info@, n),
        info@.len() == 2,
    ensures
        clauses_in_range(r@, n),
        forall|m: Seq<bool>, js: Seq<int>|
            #[trigger] direct_model(info@, m, js) ==> (clauses_hold(m, r@) <==> constant + direct_sum_from(info@, js, 0) == 0),
{
    let mut ret = ClauseSet::new();
    proof {
        assert forall|m: Seq<bool>, js: Seq<int>| #[trigger] direct_model(info@, m, js) implies constant + direct_sum_from(
            info@,
            js,
            0,
        ) == constant + info@[0].spec_domain(js[0]) + info@[1].spec_domain(js[1]) by {
            assert(direct_sum_from(info@, js, 2) == 0);
            assert(direct_sum_from(info@, js, 1) == info@[1].spec_domain(js[1]) + direct_sum_from(info@, js, 2));
            assert(direct_sum_from(info@, js, 0) == info@[0].spec_domain(js[0]) + direct_sum_from(info@, js, 1));
        }
    }
    let mut u: usize = 0;
    while u < 2
        invariant
            direct_infos_wf(info@, n),
            info@.len() == 2,
            u <= 2,
            clauses_in_range(ret@, n),
            forall|m: Seq<bool>, js: Seq<int>| #[trigger]
                direct_model(info@, m, js) ==> constant + direct_sum_from(info@, js, 0) == constant + info@[0].spec_domain(
                    js[0],
                ) + info@[1].spec_domain(js[1]),
            forall|m: Seq<bool>, js: Seq<int>| #[trigger]
                direct_model(info@, m, js) ==> (clauses_hold(m, ret@) <==> (u > 0 ==> constant + direct_sum_from(
                    info@,
                    js,
                    0,
                ) == 0)),
        decreases 2 - u,
    {
        let v: usize = 1 - u;
        let xu = &info[u];
        let xv = &info[v];
        assert(xu.wf(n) && xv.wf(n));
        proof {
            xv.lemma_increasing();
        }
        let size = xu.domain_size();
        let mut i: usize = 0;
        while i < size
            invariant
                direct_infos_wf(info@, n),
                info@.len() == 2,
                u < 2,
                v == 1 - u,
                xu == info@[u as int],
                xv == info@[v as int],
                xu.wf(n),
                xv.wf(n),
                forall|a: int, b: int| 0 <= a < b < xv.size() ==> xv.spec_domain(a) < xv.spec_domain(b),
                size == xu.size(),
                i <= size,
                clauses_in_range(ret@, n),
                forall|m: Seq<bool>, js: Seq<int>| #[trigger]
                    direct_model(info@, m, js) ==> constant + direct_sum_from(info@, js, 0) == constant
                        + info@[0].spec_domain(js[0]) + info@[1].spec_domain(js[1]),
                forall|m: Seq<bool>, js: Seq<int>| #[trigger]
                    direct_model(info@, m, js) ==> (clauses_hold(m, ret@) <==> (u > 0 || js[u as int] < i
                        ==> constant + direct_sum_from(info@, js, 0) == 0)),
            decreases size - i,
        {
            let l = xu.equals(i);
            proof {
                lemma_direct_value_bound(*xu, i as int);
                if xu.coef > 0 {
                    assert(xu.encoding.lits@[i as int].spec_var().0 < n);
                } else {
                    assert(xu.encoding.lits@[xu.size() - 1 - i].spec_var().0 < n);
                }
            }
            let mut clause: Vec<Lit> = Vec::new();
            clause.push(l.negate());
            let target = -(constant as i128) - (xu.domain(i) as i128);
            let found = xv.equals_val(target);
            match found {
                Some(w) => {
                    proof {
                        let j = choose|j: int| 0 <= j < xv.size() && xv.spec_domain(j) == target && w == xv.spec_equals(j);
                        if xv.coef > 0 {
                            assert(xv.encoding.lits@[j].spec_var().0 < n);
                        } else {
                            assert(xv.encoding.lits@[xv.size() - 1 - j].spec_var().0 < n);
                        }
                    }
                    clause.push(w);
                },
                None => {},
            }
            let ghost prev = ret@;
            let ghost cl = clause@;
            ret.push(clause.as_slice());
            proof {
                assert forall|j: int| 0 <= j < ret@.len() implies clause_in_range(#[trigger] ret@[j], n as int) by {
                    if j < prev.len() {
                        assert(ret@[j] == prev[j]);
                    }
                }
                assert forall|m: Seq<bool>, js: Seq<int>| #[trigger] direct_model(info@, m, js) implies (clauses_hold(
                    m,
                    ret@,
                ) <==> (u > 0 || js[u as int] < i + 1 ==> constant + direct_sum_from(info@, js, 0) == 0)) by {
                    let s = constant + direct_sum_from(info@, js, 0);
                    let ju = js[u as int];
                    let jv = js[v as int];
                    assert(xu.picks(m, ju));
                    assert(xv.picks(m, jv));
                    assert(s == constant + xu.spec_domain(ju) + xv.spec_domain(jv));
                    lemma_picks_equals(*xu, m, ju, i as int);
                    let base: Seq<Lit> = Seq::empty();
                    assert(!clause_holds(m, base));
                    lemma_push_holds(m, base, l.spec_not());
                    let c1 = base.push(l.spec_not());
                    let holds_cl = (ju != i) || (ju == i && s == 0);
                    match found {
                        Some(w) => {
                            assert(cl =~= c1.push(w));
                            lemma_push_holds(m, c1, w);
                            let j = choose|j: int| 0 <= j < xv.size() && xv.spec_domain(j) == target && w == xv.spec_equals(j);
                            lemma_picks_equals(*xv, m, jv, j);
                            if jv != j {
                                if jv < j {
                                    assert(xv.spec_domain(jv) < xv.spec_domain(j));
                                } else {
                                    assert(xv.spec_domain(j) < xv.spec_domain(jv));
                                }
                            }
                            assert(clause_holds(m, cl) == holds_cl);
                        },
                        None => {
                            assert(cl =~= c1);
                            assert(clause_holds(m, cl) == holds_cl);
                        },
                    }
                    assert(clauses_hold(m, ret@) == (clauses_hold(m, prev) && clause_holds(m, cl))) by {
                        if clauses_hold(m, prev) && clause_holds(m, cl) {
                            assert forall|j: int| 0 <= j < ret@.len() implies clause_holds(m, #[trigger] ret@[j]) by {
                                if j < prev.len() {
                                    assert(ret@[j] == prev[j]);
                                }
                            }
                        }
                        if clauses_hold(m, ret@) {
                            assert(ret@[prev.len() as int] == cl);
                            assert forall|j: int| 0 <= j < prev.len() implies clause_holds(m, #[trigger] prev[j]) by {
                                assert(ret@[j] == prev[j]);
                            }
                        }
                    }
                }
            }
            i += 1;
        }
        proof {
            assert forall|m: Seq<bool>, js: Seq<int>| #[trigger] direct_model(info@, m, js) implies (clauses_hold(
                m,
                ret@,
            ) <==> (u + 1 > 0 ==> constant + direct_sum_from(info@, js, 0) == 0)) by {
                assert(info@[u as int].picks(m, js[u as int]));
            }
        }
        u += 1;
    }
    ret
}

/// Clauses of `sum(info) + constant == 0` over direct-encoded terms: under
/// any assignment in which each term takes one of its values, they all hold
/// exactly when the sum is zero.
fn encode_linear_eq_direct_from_info(info: &Vec<LinearInfoForDirectEncoding>, constant: i32, Ghost(n): Ghost<nat>) -> (r: ClauseSet)
    requires
        direct_infos_wf(info@, n),
    ensures
        clauses_in_range(r@, n),
        forall|m: Seq<bool>, js: Seq<int>|
            #[trigger] direct_model(info@, m, js) ==> (clauses_hold(m, r@) <==> constant + direct_sum_from(info@, js, 0) == 0),
{
    if info.len() == 2 {
        return encode_linear_eq_direct_two_terms(info, constant, Ghost(n));
    }
    let (lower_bound, upper_bound) = direct_bounds(info, constant, Ghost(n));
    let mut clauses_buf = ClauseSet::new();
    let mut clause: Vec<Lit> = Vec::new();
    eq_direct_sub(
        info,
        &mut clause,
        0,
        lower_bound,
        upper_bound,
        &mut clauses_buf,
        Ghost(n),
        Ghost(constant as int),
        Ghost(constant as int),
    );
    proof {
        assert forall|m: Seq<bool>, js: Seq<int>| #[trigger] direct_model(info@, m, js) implies (clauses_hold(
            m,
            clauses_buf@,
        ) <==> constant + direct_sum_from(info@, js, 0) == 0) by {
            assert(eq_branch_ok(info@, 0, clauses_buf@, 0, Seq::empty(), constant as int, constant as int, m, js, constant as int));
            assert(!clause_holds(m, Seq::<Lit>::empty()));
        }
    }
    clauses_buf
}

/// Under `m` the direct encoding `e` reads the value `val`: `val` is one
/// of its values, and a literal of `e` holds exactly when its value is
/// `val`.
pub open spec fn direct_reads(e: DirectEncoding, m: Seq<bool>, val: int) -> bool {
    &&& exists|i: int| 0 <= i < e.domain@.len() && e.domain@[i] == val
    &&& forall|i: int| 0 <= i < e.lits@.len() ==> (lit_holds(m, #[trigger] e.lits@[i]) <==> e.domain@[i] == val)
}

/// Under `m` every variable of `sum` reads its value in `vals` through its
/// direct encoding in `map`.
pub open spec fn direct_reads_sum(map: EncodeMap, sum: LinearSum, m: Seq<bool>, vals: Seq<int>) -> bool {
    forall|k: int|
        0 <= k < sum.term@.len() ==> match #[trigger] map.int_enc(sum.term@[k].0.0 as int) {
            Some(Encoding::Direct(e)) => direct_reads(e, m, vals[sum.term@[k].0.0 as int]),
            _ => false,
        }
}

/// The picked values of the terms from `from` on add up to the value of
/// the terms from `from` on.
proof fn lemma_direct_sum_terms(sum: LinearSum, info: Seq<LinearInfoForDirectEncoding>, js: Seq<int>, vals: Seq<int>, from: int)
    requires
        info.len() == sum.term@.len(),
        0 <= from <= info.len(),
        forall|k: int|
            0 <= k < info.len() ==> (#[trigger] info[k]).spec_domain(js[k]) == sum.term@[k].1 * vals[sum.term@[k].0.0 as int],
    ensures
        direct_sum_from(info, js, from) == terms_value(sum.term@.subrange(from, info.len() as int), vals),
    decreases info.len() - from,
{
    let t = sum.term@;
    if from == info.len() {
        assert(t.subrange(from, info.len() as int) =~= Seq::<(IntVar, i32)>::empty());
    } else {
        lemma_direct_sum_terms(sum, info, js, vals, from + 1);
        let head = seq![t[from]];
        let rest = t.subrange(from + 1, info.len() as int);
        assert(t.subrange(from, info.len() as int) =~= head + rest);
        lemma_terms_value_concat(head, rest, vals);
        assert(head.drop_last() =~= Seq::<(IntVar, i32)>::empty());
        assert(terms_value(Seq::<(IntVar, i32)>::empty(), vals) == 0);
        assert(head.last() == t[from]);
        assert(terms_value(head, vals) == t[from].1 * vals[t[from].0.0 as int]);
    }
}

/// Reading the variables of `sum` through their direct encodings picks,
/// for each term, the position of its value, and the picked values plus
/// the constant make the value of the sum.
proof fn lemma_direct_reads_model(
    map: EncodeMap,
    sum: LinearSum,
    info: Seq<LinearInfoForDirectEncoding>,
    m: Seq<bool>,
    vals: Seq<int>,
) -> (js: Seq<int>)
    requires
        info.len() == sum.term@.len(),
        forall|k: int|
            0 <= k < info.len() ==> (#[trigger] info[k]).coef == sum.term@[k].1 && map.int_enc(sum.term@[k].0.0 as int)
                == Some(Encoding::Direct(*info[k].encoding)),
        forall|k: int| 0 <= k < info.len() ==> (#[trigger] info[k]).shaped(),
        direct_reads_sum(map, sum, m, vals),
    ensures
        direct_model(info, m, js),
        sum.constant + direct_sum_from(info, js, 0) == sum.value(vals),
{
    let js = Seq::new(
        info.len(),
        |k: int|
            {
                let e = *info[k].encoding;
                let val = vals[sum.term@[k].0.0 as int];
                let i = choose|i: int| 0 <= i < e.domain@.len() && e.domain@[i] == val;
                if info[k].coef > 0 {
                    i
                } else {
                    e.domain@.len() - 1 - i
                }
            },
    );
    assert forall|k: int| 0 <= k < info.len() implies (#[trigger] info[k]).picks(m, js[k]) && info[k].spec_domain(js[k])
        == sum.term@[k].1 * vals[sum.term@[k].0.0 as int] by {
        let x = info[k];
        let e = *x.encoding;
        let val = vals[sum.term@[k].0.0 as int];
        assert(map.int_enc(sum.term@[k].0.0 as int) == Some(Encoding::Direct(e)));
        assert(direct_reads(e, m, val));
        let i = choose|i: int| 0 <= i < e.domain@.len() && e.domain@[i] == val;
        let sz = e.domain@.len();
        assert(lit_holds(m, e.lits@[i]));
        assert forall|t: int| 0 <= t < x.size() && t != js[k] implies !lit_holds(m, #[trigger] x.spec_equals(t)) by {
            let it = if x.coef > 0 { t } else { sz - 1 - t };
            assert(x.spec_equals(t) == e.lits@[it]);
            assert(it != i);
            if it < i {
                assert(e.domain@[it] < e.domain@[i]);
            } else {
                assert(e.domain@[i] < e.domain@[it]);
            }
        }
        let c = x.coef as int;
        assert(e.domain@[i] * c == c * val) by (nonlinear_arith)
            requires
                e.domain@[i] == val,
        ;
    }
    lemma_direct_sum_terms(sum, info, js, vals, 0);
    assert(sum.term@.subrange(0, info.len() as int) =~= sum.term@);
    js
}

/// Clauses whose conjunction encodes `sum == 0` for a sum of
/// direct-encoded variables: under any assignment in which each variable's
/// encoding reads one of its values, they all hold exactly when the sum is
/// zero.
pub fn encode_linear_eq_direct(map: &EncodeMap, sat: &SAT, sum: &LinearSum) -> (r: ClauseSet)
    requires
        map.wf(sat.spec_num_vars()),
        sum.wf(),
        all_direct(*map, *sum),
    ensures
        clauses_in_range(r@, sat.spec_num_vars()),
        forall|m: Seq<bool>, vals: Seq<int>|
            #[trigger] direct_reads_sum(*map, *sum, m, vals) ==> (clauses_hold(m, r@) <==> sum.value(vals) == 0),
{
    let info = direct_infos(map, sum);
    let r = encode_linear_eq_direct_from_info(&info, sum.constant, Ghost(sat.spec_num_vars()));
    proof {
        let n = sat.spec_num_vars();
        assert(direct_infos_wf(info@, n));
        assert forall|k: int| 0 <= k < info@.len() implies (#[trigger] info@[k]).shaped() by {
            assert(info@[k].wf(n));
        }
        assert forall|m: Seq<bool>, vals: Seq<int>| #[trigger] direct_reads_sum(*map, *sum, m, vals) implies (clauses_hold(
            m,
            r@,
        ) <==> sum.value(vals) == 0) by {
            let js = lemma_direct_reads_model(*map, *sum, info@, m, vals);
        }
    }
    r
}

/// Clauses whose conjunction encodes `sum != 0` for a sum of
/// direct-encoded variables: under any assignment in which each variable's
/// encoding reads one of its values, they all hold exactly when the sum is
/// not zero.
pub fn encode_linear_ne_direct(map: &EncodeMap, sat: &SAT, sum: &LinearSum) -> (r: ClauseSet)
    requires
        map.wf(sat.spec_num_vars()),
        sum.wf(),
        all_direct(*map, *sum),
    ensures
        clauses_in_range(r@, sat.spec_num_vars()),
        forall|m: Seq<bool>, vals: Seq<int>|
            #[trigger] direct_reads_sum(*map, *sum, m, vals) ==> (clauses_hold(m, r@) <==> sum.value(vals) != 0),
{
    let info = direct_infos(map, sum);
    let ghost n = sat.spec_num_vars();
    let (lower_bound, upper_bound) = direct_bounds(&info, sum.constant, Ghost(n));
    let mut clauses_buf = ClauseSet::new();
    let mut clause: Vec<Lit> = Vec::new();
    ne_direct_sub(&info, &mut clause, 0, lower_bound, upper_bound, &mut clauses_buf, Ghost(n), Ghost(sum.constant as int));
    proof {
        assert(direct_infos_wf(info@, n));
        assert forall|k: int| 0 <= k < info@.len() implies (#[trigger] info@[k]).shaped() by {
            assert(info@[k].wf(n));
        }
        assert forall|m: Seq<bool>, vals: Seq<int>| #[trigger] direct_reads_sum(*map, *sum, m, vals) implies (clauses_hold(
            m,
            clauses_buf@,
        ) <==> sum.value(vals) != 0) by {
            let js = lemma_direct_reads_model(*map, *sum, info@, m, vals);
            assert(ne_branch_ok(info@, 0, clauses_buf@, 0, Seq::empty(), sum.constant as int, m, js));
            assert(!clause_holds(m, Seq::<Lit>::empty()));
        }
    }
    clauses_buf
}

/// Under a total assignment that satisfies the clauses of a direct-encoded
/// variable (one clause with all its literals, and one excluding each pair of
/// them), exactly one of its literals holds: the variable takes exactly one
/// value.
pub proof fn lemma_direct_exactly_one(m: Seq<bool>, cs: Seq<Seq<Lit>>, lits: Seq<Lit>)
    requires
        forall|i: int| 0 <= i < lits.len() ==> lit_wf(#[trigger] lits[i]),
        clauses_hold(m, cs),
        cs.contains(lits),
        forall|i: int, j: int| 0 <= j < i < lits.len() ==> cs.contains(seq![lits[i].spec_not(), lits[j].spec_not()]),
    ensures
        exists|i: int| 0 <= i < lits.len() && exactly_one(m, lits, i),
{
    let c = choose|c: int| 0 <= c < cs.len() && cs[c] == lits;
    assert(clause_holds(m, cs[c]));
    let i = choose|i: int| 0 <= i < lits.len() && lit_holds(m, #[trigger] lits[i]);
    assert forall|j: int| 0 <= j < lits.len() && j != i implies !lit_holds(m, lits[j]) by {
        let (a, b) = if j < i { (i, j) } else { (j, i) };
        let pair = seq![lits[a].spec_not(), lits[b].spec_not()];
        assert(cs.contains(pair));
        let q = choose|q: int| 0 <= q < cs.len() && cs[q] == pair;
        assert(clause_holds(m, cs[q]));
        lemma_lit_negation(lits[a]);
        lemma_lit_negation(lits[b]);
        if lit_holds(m, lits[j]) {
            assert(!lit_holds(m, pair[0]));
            assert(!lit_holds(m, pair[1]));
        }
    }
    assert(exactly_one(m, lits, i));
}

} // verus!
