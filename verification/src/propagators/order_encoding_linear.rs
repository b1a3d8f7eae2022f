//! A linear inequality over order-encoded integers, `sum(coef * x) + constant
//! >= 0`, checked by keeping the largest value the sum can still take.

use vstd::prelude::*;
use crate::sat::{lit_wf, Lit};
use crate::propagators::{CustomPropagator, SolverManipulator};

verus! {

/// `coef * x` for an integer `x` taking the sorted values `domain`, in order
/// encoding by `lits`: `lits[j]` is true when `x` is at least `domain[j + 1]`.
pub struct LinearTerm {
    lits: Vec<Lit>,
    domain: Vec<i32>,
    coef: i32,
}

pub open spec fn iabs(x: int) -> int {
    if x < 0 {
        -x
    } else {
        x
    }
}

pub open spec fn sorted_values(d: Seq<i32>) -> bool {
    forall|a: int, b: int| 0 <= a <= b < d.len() ==> d[a] <= d[b]
}

/// The largest magnitude of `coef * d[j]` for `j < n`.
pub open spec fn max_magnitude(d: Seq<i32>, coef: int, n: int) -> int
    decreases n,
{
    if n <= 0 {
        0
    } else {
        let m = max_magnitude(d, coef, n - 1);
        let x = iabs(coef * d[n - 1]);
        if x > m {
            x
        } else {
            m
        }
    }
}

impl LinearTerm {
    pub fn new(lits: Vec<Lit>, domain: Vec<i32>, coef: i32) -> (r: LinearTerm)
        ensures
            r.spec_lits() == lits@,
            r.spec_domain() == domain@,
            r.spec_coef() == coef,
    {
        LinearTerm { lits, domain, coef }
    }

    pub closed spec fn spec_lits(&self) -> Seq<Lit> {
        self.lits@
    }

    pub closed spec fn spec_domain(&self) -> Seq<i32> {
        self.domain@
    }

    pub closed spec fn spec_coef(&self) -> i32 {
        self.coef
    }

    /// The term is an order encoding: one literal between each two
    /// consecutive values, which are sorted.
    pub open spec fn well_shaped(&self) -> bool {
        &&& self.spec_domain().len() == self.spec_lits().len() + 1
        &&& sorted_values(self.spec_domain())
        &&& forall|j: int| 0 <= j < self.spec_lits().len() ==> lit_wf(#[trigger] self.spec_lits()[j])
    }

    /// The largest magnitude the term can take.
    pub open spec fn magnitude(&self) -> int {
        max_magnitude(self.spec_domain(), self.spec_coef() as int, self.spec_domain().len() as int)
    }
}

/// The total of the magnitudes of the first `n` terms.
pub open spec fn total_magnitude(ts: Seq<LinearTerm>, n: int) -> int
    decreases n,
{
    if n <= 0 {
        0
    } else {
        total_magnitude(ts, n - 1) + ts[n - 1].magnitude()
    }
}

proof fn lemma_magnitude_bounds(d: Seq<i32>, coef: int, n: int, j: int)
    requires
        0 <= j < n <= d.len(),
    ensures
        iabs(coef * d[j]) <= max_magnitude(d, coef, n),
        0 <= max_magnitude(d, coef, n),
    decreases n,
{
    if j < n - 1 {
        lemma_magnitude_bounds(d, coef, n - 1, j);
    } else if n > 1 {
        lemma_magnitude_bounds(d, coef, n - 1, 0);
    }
}

proof fn lemma_magnitude_nonneg(d: Seq<i32>, coef: int, n: int)
    ensures
        0 <= max_magnitude(d, coef, n),
    decreases n,
{
    if n > 0 {
        lemma_magnitude_nonneg(d, coef, n - 1);
    }
}

proof fn lemma_total_magnitude(ts: Seq<LinearTerm>, n: int, i: int)
    requires
        0 <= i < n <= ts.len(),
    ensures
        ts[i].magnitude() <= total_magnitude(ts, n),
        0 <= total_magnitude(ts, n),
    decreases n,
{
    lemma_magnitude_nonneg(ts[n - 1].spec_domain(), ts[n - 1].spec_coef() as int, ts[n - 1].spec_domain().len() as int);
    if i < n - 1 {
        lemma_total_magnitude(ts, n - 1, i);
    } else {
        lemma_total_nonneg(ts, n - 1);
    }
}

proof fn lemma_total_nonneg(ts: Seq<LinearTerm>, n: int)
    ensures
        0 <= total_magnitude(ts, n),
    decreases n,
{
    if n > 0 {
        lemma_total_nonneg(ts, n - 1);
        lemma_magnitude_nonneg(ts[n - 1].spec_domain(), ts[n - 1].spec_coef() as int, ts[n - 1].spec_domain().len() as int);
    }
}


proof fn lemma_magnitude_at_most(d: Seq<i32>, coef: int, n: int, bound: int)
    requires
        0 <= n <= d.len(),
        0 <= bound,
        forall|j: int| 0 <= j < n ==> iabs(coef * #[trigger] d[j]) <= bound,
    ensures
        max_magnitude(d, coef, n) <= bound,
    decreases n,
{
    if n > 0 {
        lemma_magnitude_at_most(d, coef, n - 1, bound);
    }
}

proof fn lemma_scale_order(a: int, b: int, c: int)
    requires
        a <= b,
    ensures
        c > 0 ==> c * a <= c * b,
        c < 0 ==> c * b <= c * a,
{
    if c > 0 {
        assert(c * a <= c * b) by (nonlinear_arith)
            requires
                a <= b,
                c > 0,
        ;
    }
    if c < 0 {
        assert(c * b <= c * a) by (nonlinear_arith)
            requires
                a <= b,
                c < 0,
        ;
    }
}

impl LinearTerm {
    /// Rewrites `coef * x` as `1 * y` with `y = coef * x`: for a negative
    /// coefficient the values and the literals are reversed and the literals
    /// negated, so that the order encoding holds of `y`.
    fn normalize(&mut self)
        requires
            old(self).well_shaped(),
            old(self).spec_coef() != 0,
            old(self).magnitude() <= i32::MAX,
        ensures
            final(self).well_shaped(),
            final(self).spec_coef() == 1,
            final(self).magnitude() <= old(self).magnitude(),
            final(self).spec_domain().len() == old(self).spec_domain().len(),
            forall|k: int| 0 <= k < old(self).spec_domain().len() ==> #[trigger] final(self).spec_domain()[k] == old(self).spec_coef() * (
                if old(self).spec_coef() < 0 {
                    old(self).spec_domain()[old(self).spec_domain().len() - 1 - k]
                } else {
                    old(self).spec_domain()[k]
                }),
            forall|k: int| 0 <= k < old(self).spec_lits().len() ==> #[trigger] final(self).spec_lits()[k] == (
                if old(self).spec_coef() < 0 {
                    old(self).spec_lits()[old(self).spec_lits().len() - 1 - k].spec_not()
                } else {
                    old(self).spec_lits()[k]
                }),
    {
        let coef = self.coef;
        let ghost d0 = self.domain@;
        let ghost l0 = self.lits@;
        let n = self.lits.len();
        let m = self.domain.len();
        let mut lits: Vec<Lit> = Vec::new();
        let mut k: usize = 0;
        while k < n
            invariant
                n == l0.len(),
                l0 == self.lits@,
                forall|j: int| 0 <= j < l0.len() ==> lit_wf(#[trigger] l0[j]),
                k <= n,
                lits@.len() == k,
                forall|j: int| 0 <= j < k ==> #[trigger] lits@[j] == (if coef < 0 { l0[n - 1 - j].spec_not() } else { l0[j] }),
                forall|j: int| 0 <= j < k ==> lit_wf(#[trigger] lits@[j]),
            decreases n - k,
        {
            if coef < 0 {
                let l = self.lits[n - 1 - k].negate();
                lits.push(l);
            } else {
                lits.push(self.lits[k]);
            }
            k += 1;
        }
        let mut domain: Vec<i32> = Vec::new();
        let mut k: usize = 0;
        while k < m
            invariant
                m == d0.len(),
                d0 == self.domain@,
                coef == self.coef,
                coef != 0,
                max_magnitude(d0, coef as int, m as int) <= i32::MAX,
                k <= m,
                domain@.len() == k,
                forall|j: int| 0 <= j < k ==> #[trigger] domain@[j] == coef * (if coef < 0 { d0[m - 1 - j] } else { d0[j] }),
            decreases m - k,
        {
            let src = if coef < 0 { m - 1 - k } else { k };
            proof {
                lemma_magnitude_bounds(d0, coef as int, m as int, src as int);
            }
            let v = self.domain[src] * coef;
            domain.push(v);
            k += 1;
        }
        proof {
            assert forall|a: int, b: int| 0 <= a <= b < domain@.len() implies domain@[a] <= domain@[b] by {
                if coef < 0 {
                    lemma_scale_order(d0[m - 1 - b] as int, d0[m - 1 - a] as int, coef as int);
                } else {
                    lemma_scale_order(d0[a] as int, d0[b] as int, coef as int);
                }
            }
            lemma_magnitude_nonneg(d0, coef as int, m as int);
            assert forall|j: int| 0 <= j < m implies iabs(1 * #[trigger] domain@[j]) <= max_magnitude(d0, coef as int, m as int) by {
                let src = if coef < 0 { m - 1 - j } else { j };
                lemma_magnitude_bounds(d0, coef as int, m as int, src);
            }
            lemma_magnitude_at_most(domain@, 1, m as int, max_magnitude(d0, coef as int, m as int));
        }
        self.lits = lits;
        self.domain = domain;
        self.coef = 1;
    }
}

/// The sum of the values at the given positions of the first `n` terms.
pub open spec fn ub_sum(ts: Seq<LinearTerm>, ub: Seq<usize>, n: int) -> int
    decreases n,
{
    if n <= 0 {
        0
    } else {
        ub_sum(ts, ub, n - 1) + ts[n - 1].spec_domain()[ub[n - 1] as int]
    }
}

proof fn lemma_ub_sum_update(ts: Seq<LinearTerm>, ub: Seq<usize>, n: int, i: int, j: usize)
    requires
        0 <= i < n <= ub.len(),
    ensures
        ub_sum(ts, ub.update(i, j), n) == ub_sum(ts, ub, n) - ts[i].spec_domain()[ub[i] as int] + ts[i].spec_domain()[j as int],
    decreases n,
{
    if i < n - 1 {
        lemma_ub_sum_update(ts, ub, n - 1, i, j);
        assert(ub.update(i, j)[n - 1] == ub[n - 1]);
    } else {
        assert(ub_sum(ts, ub.update(i, j), n - 1) == ub_sum(ts, ub, n - 1)) by {
            lemma_ub_sum_frame(ts, ub, ub.update(i, j), n - 1);
        }
    }
}

proof fn lemma_ub_sum_frame(ts: Seq<LinearTerm>, a: Seq<usize>, b: Seq<usize>, n: int)
    requires
        n <= a.len(),
        n <= b.len(),
        forall|k: int| 0 <= k < n ==> a[k] == b[k],
    ensures
        ub_sum(ts, a, n) == ub_sum(ts, b, n),
    decreases n,
{
    if n > 0 {
        lemma_ub_sum_frame(ts, a, b, n - 1);
    }
}

/// With normalized terms, the sum at any positions is at most the total
/// magnitude in size.
proof fn lemma_ub_sum_bound(ts: Seq<LinearTerm>, ub: Seq<usize>, n: int)
    requires
        0 <= n <= ts.len(),
        n <= ub.len(),
        forall|i: int| 0 <= i < n ==> (#[trigger] ts[i]).well_shaped() && ts[i].spec_coef() == 1 && ub[i] < ts[i].spec_domain().len(),
    ensures
        iabs(ub_sum(ts, ub, n)) <= total_magnitude(ts, n),
    decreases n,
{
    if n > 0 {
        lemma_ub_sum_bound(ts, ub, n - 1);
        let t = ts[n - 1];
        lemma_magnitude_bounds(t.spec_domain(), 1, t.spec_domain().len() as int, ub[n - 1] as int);
    }
}

spec fn entries_ok(es: Seq<(Lit, usize, usize)>, ts: Seq<LinearTerm>) -> bool {
    forall|k: int|
        0 <= k < es.len() ==> {
            let (l, i, j) = #[trigger] es[k];
            &&& i < ts.len()
            &&& j < ts[i as int].spec_lits().len()
            &&& l == ts[i as int].spec_lits()[j as int]
        }
}

spec fn entries_sorted(es: Seq<(Lit, usize, usize)>) -> bool {
    forall|a: int, b: int| 0 <= a <= b < es.len() ==> es[a].0.0 <= es[b].0.0
}

/// The entries ordered by literal, entries of one literal in their first order.
fn sort_entries(es: Vec<(Lit, usize, usize)>, Ghost(ts): Ghost<Seq<LinearTerm>>) -> (r: Vec<(Lit, usize, usize)>)
    requires
        entries_ok(es@, ts),
    ensures
        entries_ok(r@, ts),
        entries_sorted(r@),
        r@.len() == es@.len(),
{
    let mut out: Vec<(Lit, usize, usize)> = Vec::new();
    let mut i: usize = 0;
    while i < es.len()
        invariant
            i <= es@.len(),
            out@.len() == i,
            entries_ok(es@, ts),
            entries_ok(out@, ts),
            entries_sorted(out@),
        decreases es@.len() - i,
    {
        let item = es[i];
        let mut pos = out.len();
        while pos > 0 && item.0.0 < out[pos - 1].0.0
            invariant
                pos <= out@.len(),
                entries_sorted(out@),
                forall|k: int| pos <= k < out@.len() ==> item.0.0 < #[trigger] out@[k].0.0,
            decreases pos,
        {
            pos -= 1;
        }
        let ghost prev = out@;
        out.insert(pos, item);
        proof {
            assert forall|k: int| 0 <= k < out@.len() implies ({
                let (l, ii, j) = #[trigger] out@[k];
                &&& ii < ts.len()
                &&& j < ts[ii as int].spec_lits().len()
                &&& l == ts[ii as int].spec_lits()[j as int]
            }) by {
                if k < pos {
                    assert(out@[k] == prev[k]);
                } else if k == pos {
                    assert(out@[k] == es@[i as int]);
                } else {
                    assert(out@[k] == prev[k - 1]);
                }
            }
            assert forall|a: int, b: int| 0 <= a <= b < out@.len() implies out@[a].0.0 <= out@[b].0.0 by {
                if b < pos {
                    assert(out@[a] == prev[a] && out@[b] == prev[b]);
                } else if b == pos {
                    if a < pos {
                        assert(out@[a] == prev[a]);
                        assert(prev[a].0.0 <= prev[pos - 1].0.0);
                    }
                } else if a < pos {
                    assert(out@[a] == prev[a] && out@[b] == prev[b - 1]);
                } else if a == pos {
                    assert(out@[b] == prev[b - 1]);
                } else {
                    assert(out@[a] == prev[a - 1] && out@[b] == prev[b - 1]);
                }
            }
        }
        i += 1;
    }
    out
}

/// The state of `sum(terms) + constant >= 0` during the search: for each term
/// the position of its largest value still possible, and the largest value
/// of the whole sum.
pub struct OrderEncodingLinear {
    terms: Vec<LinearTerm>,
    /// (literal, term, position) for every literal of every term
    lits: Vec<(Lit, usize, usize)>,
    ub_index: Vec<usize>,
    /// for each change of a position, the term and its old position; `None`
    /// marks where the changes of one taken-in literal begin
    undo_list: Vec<Option<(usize, usize)>>,
    active_lits: Vec<Lit>,
    total_ub: i32,
    use_optimize: bool,
    constant: Ghost<int>,
}

impl OrderEncodingLinear {
    /// The constant of the inequality.
    pub closed spec fn spec_constant(&self) -> int {
        self.constant@
    }

    /// The largest value that the left-hand side can still take.
    pub closed spec fn largest_sum(&self) -> int {
        self.total_ub as int
    }

    pub closed spec fn spec_terms(&self) -> Seq<LinearTerm> {
        self.terms@
    }

    pub closed spec fn spec_ub_index(&self) -> Seq<usize> {
        self.ub_index@
    }

    /// The constraint's invariant.
    pub closed spec fn wf(&self) -> bool {
        let ts = self.terms@;
        let n = ts.len() as int;
        &&& forall|i: int| 0 <= i < n ==> (#[trigger] ts[i]).well_shaped() && ts[i].spec_coef() == 1
        &&& self.ub_index@.len() == n
        &&& forall|i: int| 0 <= i < n ==> #[trigger] self.ub_index@[i] <= ts[i].spec_lits().len()
        &&& iabs(self.constant@) + total_magnitude(ts, n) <= i32::MAX
        &&& self.total_ub == self.constant@ + ub_sum(ts, self.ub_index@, n)
        &&& entries_ok(self.lits@, ts)
        &&& entries_sorted(self.lits@)
        &&& forall|k: int|
            0 <= k < self.undo_list@.len() ==> (#[trigger] self.undo_list@[k] matches Some((i, j)) ==> i < n && j <= ts[i as int].spec_lits().len())
    }

    /// `sum(terms) + constant >= 0`, the terms being normalized first.
    pub fn new(terms: Vec<LinearTerm>, constant: i32, use_optimize: bool) -> (r: OrderEncodingLinear)
        requires
            forall|i: int| 0 <= i < terms@.len() ==> (#[trigger] terms@[i]).well_shaped() && terms@[i].spec_coef() != 0,
            iabs(constant as int) + total_magnitude(terms@, terms@.len() as int) <= i32::MAX,
        ensures
            r.wf(),
            r.spec_constant() == constant,
            r.spec_terms().len() == terms@.len(),
            r.largest_sum() == constant + ub_sum(r.spec_terms(), r.spec_ub_index(), terms@.len() as int),
            forall|i: int| 0 <= i < terms@.len() ==> #[trigger] r.spec_ub_index()[i] == terms@[i].spec_lits().len(),
    {
        let ghost t0 = terms@;
        let n = terms.len();
        let mut normalized: Vec<LinearTerm> = Vec::new();
        let mut terms = terms;
        let mut k: usize = 0;
        while k < n
            invariant
                k <= n,
                n == t0.len(),
                terms@.len() == n - k,
                forall|i: int| 0 <= i < n - k ==> #[trigger] terms@[i] == t0[k + i],
                forall|i: int| 0 <= i < t0.len() ==> (#[trigger] t0[i]).well_shaped() && t0[i].spec_coef() != 0,
                iabs(constant as int) + total_magnitude(t0, n as int) <= i32::MAX,
                normalized@.len() == k,
                forall|i: int| 0 <= i < k ==> (#[trigger] normalized@[i]).well_shaped() && normalized@[i].spec_coef() == 1,
                forall|i: int| 0 <= i < k ==> (#[trigger] normalized@[i]).magnitude() <= t0[i].magnitude(),
                forall|i: int| 0 <= i < k ==> (#[trigger] normalized@[i]).spec_lits().len() == t0[i].spec_lits().len(),
            decreases n - k,
        {
            let mut term = terms.remove(0);
            assert(term == t0[k as int]);
            proof {
                lemma_total_magnitude(t0, n as int, k as int);
            }
            if term.coef != 1 {
                term.normalize();
            }
            normalized.push(term);
            proof {
                assert forall|i: int| 0 <= i < n - (k + 1) implies #[trigger] terms@[i] == t0[k + 1 + i] by {
                }
            }
            k += 1;
        }
        proof {
            assert(total_magnitude(normalized@, n as int) <= total_magnitude(t0, n as int)) by {
                lemma_total_le(normalized@, t0, n as int);
            }
        }
        let mut ub_index: Vec<usize> = Vec::new();
        let mut total: i64 = constant as i64;
        let mut k: usize = 0;
        while k < n
            invariant
                k <= n,
                n == normalized@.len(),
                forall|i: int| 0 <= i < n ==> (#[trigger] normalized@[i]).well_shaped() && normalized@[i].spec_coef() == 1,
                iabs(constant as int) + total_magnitude(normalized@, n as int) <= i32::MAX,
                ub_index@.len() == k,
                forall|i: int| 0 <= i < k ==> #[trigger] ub_index@[i] == normalized@[i].spec_lits().len(),
                total == constant + ub_sum(normalized@, ub_index@, k as int),
                iabs(ub_sum(normalized@, ub_index@, k as int)) <= total_magnitude(normalized@, k as int),
            decreases n - k,
        {
            let last = normalized[k].lits.len();
            let v = normalized[k].domain[last];
            let ghost u0 = ub_index@;
            ub_index.push(last);
            proof {
                lemma_ub_sum_frame(normalized@, ub_index@, u0, k as int);
                assert(ub_sum(normalized@, ub_index@, k as int + 1) == ub_sum(normalized@, ub_index@, k as int) + normalized@[k as int].spec_domain()[last as int]);
                lemma_ub_sum_bound(normalized@, ub_index@, k as int + 1);
                lemma_total_prefix(normalized@, k as int + 1, n as int);
            }
            total = total + v as i64;
            k += 1;
        }
        proof {
            lemma_ub_sum_bound(normalized@, ub_index@, n as int);
        }
        let total_ub = total as i32;
        let mut lits: Vec<(Lit, usize, usize)> = Vec::new();
        let mut i: usize = 0;
        while i < n
            invariant
                i <= n,
                n == normalized@.len(),
                forall|i: int| 0 <= i < n ==> (#[trigger] normalized@[i]).well_shaped() && normalized@[i].spec_coef() == 1,
                entries_ok(lits@, normalized@),
            decreases n - i,
        {
            let m = normalized[i].lits.len();
            let mut j: usize = 0;
            while j < m
                invariant
                    i < n,
                    n == normalized@.len(),
                    m == normalized@[i as int].spec_lits().len(),
                    j <= m,
                    entries_ok(lits@, normalized@),
                decreases m - j,
            {
                let l = normalized[i].lits[j];
                let ghost l0 = lits@;
                lits.push((l, i, j));
                proof {
                    assert forall|k: int| 0 <= k < lits@.len() implies ({
                        let (l, ii, jj) = #[trigger] lits@[k];
                        &&& ii < normalized@.len()
                        &&& jj < normalized@[ii as int].spec_lits().len()
                        &&& l == normalized@[ii as int].spec_lits()[jj as int]
                    }) by {
                        if k < l0.len() {
                            assert(lits@[k] == l0[k]);
                        }
                    }
                }
                j += 1;
            }
            i += 1;
        }
        let lits = sort_entries(lits, Ghost(normalized@));
        OrderEncodingLinear {
            terms: normalized,
            lits,
            ub_index,
            undo_list: Vec::new(),
            active_lits: Vec::new(),
            total_ub,
            use_optimize,
            constant: Ghost(constant as int),
        }
    }
}

proof fn lemma_total_le(a: Seq<LinearTerm>, b: Seq<LinearTerm>, n: int)
    requires
        0 <= n <= a.len(),
        n <= b.len(),
        forall|i: int| 0 <= i < n ==> (#[trigger] a[i]).magnitude() <= b[i].magnitude(),
    ensures
        total_magnitude(a, n) <= total_magnitude(b, n),
    decreases n,
{
    if n > 0 {
        lemma_total_le(a, b, n - 1);
    }
}

proof fn lemma_total_prefix(ts: Seq<LinearTerm>, n: int, m: int)
    requires
        0 <= n <= m <= ts.len(),
    ensures
        total_magnitude(ts, n) <= total_magnitude(ts, m),
    decreases m - n,
{
    if n < m {
        lemma_total_prefix(ts, n, m - 1);
        lemma_magnitude_nonneg(ts[m - 1].spec_domain(), ts[m - 1].spec_coef() as int, ts[m - 1].spec_domain().len() as int);
    }
}


/// The first entry whose literal is not below `l`.
fn first_entry(es: &Vec<(Lit, usize, usize)>, l: Lit) -> (r: usize)
    requires
        entries_sorted(es@),
    ensures
        r <= es@.len(),
        forall|k: int| 0 <= k < r ==> (#[trigger] es@[k]).0.0 < l.0,
        forall|k: int| r <= k < es@.len() ==> (#[trigger] es@[k]).0.0 >= l.0,
{
    let mut lo: usize = 0;
    let mut hi: usize = es.len();
    while lo < hi
        invariant
            lo <= hi <= es@.len(),
            entries_sorted(es@),
            forall|k: int| 0 <= k < lo ==> (#[trigger] es@[k]).0.0 < l.0,
            forall|k: int| hi <= k < es@.len() ==> (#[trigger] es@[k]).0.0 >= l.0,
        decreases hi - lo,
    {
        let mid = lo + (hi - lo) / 2;
        if es[mid].0.0 < l.0 {
            lo = mid + 1;
        } else {
            hi = mid;
        }
    }
    lo
}

/// The number of values below `t` in the sorted `d`.
fn count_below_wide(d: &Vec<i32>, t: i64) -> (r: usize)
    requires
        sorted_values(d@),
    ensures
        r <= d@.len(),
        forall|k: int| 0 <= k < r ==> (#[trigger] d@[k]) < t,
        forall|k: int| r <= k < d@.len() ==> (#[trigger] d@[k]) >= t,
{
    let mut lo: usize = 0;
    let mut hi: usize = d.len();
    while lo < hi
        invariant
            lo <= hi <= d@.len(),
            sorted_values(d@),
            forall|k: int| 0 <= k < lo ==> (#[trigger] d@[k]) < t,
            forall|k: int| hi <= k < d@.len() ==> (#[trigger] d@[k]) >= t,
        decreases hi - lo,
    {
        let mid = lo + (hi - lo) / 2;
        if (d[mid] as i64) < t {
            proof {
                assert forall|k: int| 0 <= k < mid + 1 implies (#[trigger] d@[k]) < t by {
                    assert(d@[k] <= d@[mid as int]);
                }
            }
            lo = mid + 1;
        } else {
            proof {
                assert forall|k: int| mid <= k < d@.len() implies (#[trigger] d@[k]) >= t by {
                    assert(d@[mid as int] <= d@[k]);
                }
            }
            hi = mid;
        }
    }
    lo
}

impl OrderEncodingLinear {
    pub closed spec fn spec_entries(&self) -> Seq<(Lit, usize, usize)> {
        self.lits@
    }

    /// `l` says that a term is at most its current largest value: it is the
    /// negation of the literal just above that value.
    pub closed spec fn bound_reason_lit(&self, l: Lit) -> bool {
        exists|i: int|
            0 <= i < self.terms@.len() && #[trigger] self.ub_index@[i] < self.terms@[i].spec_lits().len()
                && l == self.terms@[i].spec_lits()[self.ub_index@[i] as int].spec_not()
    }

    /// Moves the largest value of term `i` down to position `j`, keeping the
    /// largest sum.
    fn lower_ub(&mut self, i: usize, j: usize)
        requires
            old(self).wf(),
            i < old(self).terms@.len(),
            j < old(self).ub_index@[i as int],
        ensures
            final(self).wf(),
            final(self).terms@ == old(self).terms@,
            final(self).lits@ == old(self).lits@,
            final(self).use_optimize == old(self).use_optimize,
            final(self).constant == old(self).constant,
            final(self).ub_index@ == old(self).ub_index@.update(i as int, j),
            final(self).total_ub <= old(self).total_ub,
            final(self).undo_list@ == old(self).undo_list@.push(Some((i, old(self).ub_index@[i as int]))),
    {
        let n = self.terms.len();
        let old_ub = self.ub_index[i];
        let ghost ts = self.terms@;
        let ghost u0 = self.ub_index@;
        let ghost l0 = self.undo_list@;
        self.undo_list.push(Some((i, old_ub)));
        proof {
            assert forall|k: int|
                0 <= k < self.undo_list@.len() implies (#[trigger] self.undo_list@[k] matches Some((a, b)) ==> a < n && b <= ts[a as int].spec_lits().len()) by {
                if k < l0.len() {
                    assert(self.undo_list@[k] == l0[k]);
                }
            }
        }
        let hi = self.terms[i].domain[old_ub];
        let lo = self.terms[i].domain[j];
        proof {
            assert(lo <= hi);
            lemma_ub_sum_update(ts, u0, n as int, i as int, j);
            assert forall|k: int| 0 <= k < n implies (#[trigger] ts[k]).well_shaped() && ts[k].spec_coef() == 1 && u0.update(i as int, j)[k] < ts[k].spec_domain().len() by {
            }
            lemma_ub_sum_bound(ts, u0.update(i as int, j), n as int);
        }
        let total: i64 = self.total_ub as i64 - (hi as i64 - lo as i64);
        self.total_ub = total as i32;
        self.ub_index.set(i, j);
    }

    /// Moves the largest value of term `i` back up to position `j`, keeping
    /// the largest sum.
    fn raise_ub(&mut self, i: usize, j: usize)
        requires
            old(self).wf(),
            i < old(self).terms@.len(),
            j <= old(self).terms@[i as int].spec_lits().len(),
        ensures
            final(self).wf(),
            final(self).terms@ == old(self).terms@,
            final(self).lits@ == old(self).lits@,
            final(self).use_optimize == old(self).use_optimize,
            final(self).constant == old(self).constant,
            final(self).undo_list@ == old(self).undo_list@,
            final(self).ub_index@ == old(self).ub_index@.update(i as int, j),
    {
        let n = self.terms.len();
        let cur = self.ub_index[i];
        let ghost ts = self.terms@;
        let ghost u0 = self.ub_index@;
        let hi = self.terms[i].domain[j];
        let lo = self.terms[i].domain[cur];
        proof {
            lemma_ub_sum_update(ts, u0, n as int, i as int, j);
            assert forall|k: int| 0 <= k < n implies (#[trigger] ts[k]).well_shaped() && ts[k].spec_coef() == 1 && u0.update(i as int, j)[k] < ts[k].spec_domain().len() by {
            }
            lemma_ub_sum_bound(ts, u0.update(i as int, j), n as int);
        }
        let total: i64 = self.total_ub as i64 + (hi as i64 - lo as i64);
        self.total_ub = total as i32;
        self.ub_index.set(i, j);
    }
}

/// The positions that taking back the changes recorded after the last
/// marker of `list` gives.
pub open spec fn rolled_back(ub: Seq<usize>, list: Seq<Option<(usize, usize)>>) -> Seq<usize>
    decreases list.len(),
{
    if list.len() == 0 {
        ub
    } else {
        match list.last() {
            None => ub,
            Some((i, j)) => rolled_back(ub.update(i as int, j), list.drop_last()),
        }
    }
}

impl OrderEncodingLinear {
    /// The positions of the largest values that taking back the last
    /// taken-in literal restores.
    pub closed spec fn undo_target(&self) -> Seq<usize> {
        rolled_back(self.ub_index@, self.undo_list@)
    }
}

/// Propagating and then undoing gives back the positions and the largest sum
/// of the sum from before: `before` is a state, `after` the state that
/// `propagate` left, `undone` the state that `undo` left.
pub proof fn lemma_undo_restores(before: OrderEncodingLinear, after: OrderEncodingLinear, undone: OrderEncodingLinear)
    requires
        before.wf(),
        undone.wf(),
        after.undo_target() == before.spec_ub_index(),
        undone.spec_ub_index() == after.undo_target(),
        undone.spec_terms() == before.spec_terms(),
        undone.spec_constant() == before.spec_constant(),
    ensures
        undone.spec_ub_index() == before.spec_ub_index(),
        undone.largest_sum() == before.largest_sum(),
{
}

impl<T: SolverManipulator> CustomPropagator<T> for OrderEncodingLinear {
    closed spec fn inv(&self) -> bool {
        self.wf()
    }

    closed spec fn watches(&self, p: Lit) -> bool {
        lit_wf(p) && exists|k: int| 0 <= k < self.lits@.len() && (#[trigger] self.lits@[k]).0 == p.spec_not()
    }

    closed spec fn can_explain(&self, p: Option<Lit>, extra: Option<Lit>) -> bool {
        self.use_optimize && p is Some ==> exists|k: int| 0 <= k < self.lits@.len() && (#[trigger] self.lits@[k]).0 == p->0
    }

    fn initialize(&mut self, solver: &mut T) -> (r: bool)
        ensures
            r ==> final(self).largest_sum() >= 0,
    {
        let mut keys: Vec<i32> = Vec::new();
        let mut k: usize = 0;
        while k < self.lits.len()
            invariant
                self.wf(),
                k <= self.lits@.len(),
                keys@.len() == k,
                forall|q: int| 0 <= q < k ==> #[trigger] keys@[q] == self.lits@[q].0.spec_not().0,
            decreases self.lits@.len() - k,
        {
            let (l, i, j) = self.lits[k];
            proof {
                assert(l == self.terms@[i as int].spec_lits()[j as int]);
            }
            keys.push(l.negate().0);
            k += 1;
        }
        let watchers = crate::domain::sort_dedup(&keys);
        let m = watchers.len();
        let mut k: usize = 0;
        while k < m
            invariant
                k <= m,
                m == watchers@.len(),
            decreases m - k,
        {
            solver.add_watch(Lit(watchers[k]));
            k += 1;
        }
        let mut k: usize = 0;
        while k < m
            invariant
                self.wf(),
                self.lits@ == old(self).lits@,
                k <= m,
                m == watchers@.len(),
                keys@.len() == self.lits@.len(),
                forall|q: int| 0 <= q < keys@.len() ==> #[trigger] keys@[q] == self.lits@[q].0.spec_not().0,
                forall|x: i32| watchers@.contains(x) <==> keys@.contains(x),
            decreases m - k,
        {
            let w = Lit(watchers[k]);
            proof {
                assert(watchers@.contains(watchers@[k as int]));
                assert(keys@.contains(w.0));
                let q = choose|q: int| 0 <= q < keys@.len() && keys@[q] == w.0;
                let (l, i, j) = self.lits@[q];
                assert(l == self.terms@[i as int].spec_lits()[j as int]);
                crate::sat::lemma_lit_negation(l);
                assert(w == l.spec_not());
                assert(self.lits@[q].0 == w.spec_not());
            }
            match solver.value(w) {
                Some(true) => {
                    if !self.propagate(solver, w, 0) {
                        return false;
                    }
                },
                _ => {},
            }
            k += 1;
        }
        if self.total_ub < 0 {
            return false;
        }
        true
    }

    fn propagate(&mut self, solver: &mut T, p: Lit, num_pending_propagations: i32) -> (r: bool)
        ensures
            final(self).spec_entries() == old(self).spec_entries(),
            final(self).spec_terms() == old(self).spec_terms(),
            r ==> final(self).largest_sum() >= 0,
            final(self).largest_sum() <= old(self).largest_sum(),
            final(self).undo_target() == old(self).spec_ub_index(),
            final(self).spec_constant() == old(self).spec_constant(),
    {
        self.active_lits.push(p);
        let ghost l0 = self.undo_list@;
        self.undo_list.push(None);
        proof {
            assert forall|k: int|
                0 <= k < self.undo_list@.len() implies (#[trigger] self.undo_list@[k] matches Some((a, b)) ==> a < self.terms@.len() && b <= self.terms@[a as int].spec_lits().len()) by {
                if k < l0.len() {
                    assert(self.undo_list@[k] == l0[k]);
                }
            }
            assert(self.undo_list@.last() is None);
        }
        let np = p.negate();
        let mut idx = first_entry(&self.lits, np);
        while idx < self.lits.len() && self.lits[idx].0 == np
            invariant
                self.wf(),
                self.lits@ == old(self).lits@,
                self.terms@ == old(self).terms@,
                self.total_ub <= old(self).total_ub,
                idx <= self.lits@.len(),
                rolled_back(self.ub_index@, self.undo_list@) == old(self).ub_index@,
                self.constant == old(self).constant,
            decreases self.lits@.len() - idx,
        {
            let (_, i, j) = self.lits[idx];
            idx += 1;
            if j < self.ub_index[i] {
                let ghost u0 = self.ub_index@;
                let ghost l0 = self.undo_list@;
                self.lower_ub(i, j);
                proof {
                    assert(self.undo_list@.drop_last() == l0);
                    assert(u0.update(i as int, j).update(i as int, u0[i as int]) =~= u0);
                }
                if self.total_ub < 0 {
                    return false;
                }
            }
        }
        if self.total_ub < 0 {
            return false;
        }
        let n = self.terms.len();
        let mut i: usize = 0;
        while i < n
            invariant
                self.wf(),
                self.lits@ == old(self).lits@,
                self.terms@ == old(self).terms@,
                self.total_ub <= old(self).total_ub,
                self.total_ub >= 0,
                n == self.terms@.len(),
                i <= n,
                rolled_back(self.ub_index@, self.undo_list@) == old(self).ub_index@,
                self.constant == old(self).constant,
            decreases n - i,
        {
            let ubi = self.ub_index[i];
            if ubi > 0 {
                let d = &self.terms[i].domain;
                let slack: i64 = self.total_ub as i64 - (d[ubi] as i64 - d[0] as i64);
                if slack < 0 {
                    let threshold: i64 = d[ubi] as i64 - self.total_ub as i64;
                    let pos = count_below_wide(d, threshold);
                    proof {
                        assert(d@[0] < threshold);
                        assert(d@[ubi as int] >= threshold);
                    }
                    let left = pos - 1;
                    let l = self.terms[i].lits[left];
                    if !solver.enqueue(l) {
                        return false;
                    }
                }
            }
            i += 1;
        }
        true
    }

    fn calc_reason(&mut self, solver: &mut T, p: Option<Lit>, extra: Option<Lit>) -> (r: Vec<Lit>)
        ensures
            forall|k: int| 0 <= k < r@.len() ==> old(self).bound_reason_lit(#[trigger] r@[k]) || Some(r@[k]) == extra,
            extra matches Some(e) ==> r@.contains(e),
            forall|i: int|
                0 <= i < old(self).spec_terms().len() && #[trigger] old(self).spec_ub_index()[i] < old(self).spec_terms()[i].spec_lits().len()
                    && !(p matches Some(q) && exists|k: int|
                    0 <= k < old(self).spec_entries().len() && old(self).spec_entries()[k].0 == q && old(self).spec_entries()[k].1 == i) ==> r@.contains(
                    old(self).spec_terms()[i].spec_lits()[old(self).spec_ub_index()[i] as int].spec_not(),
                ),
    {
        let mut p_idx: Option<usize> = None;
        if self.use_optimize {
            match p {
                Some(q) => {
                    let idx = first_entry(&self.lits, q);
                    proof {
                        assert(CustomPropagator::<T>::can_explain(old(self), p, extra));
                        assert(exists|k: int| 0 <= k < self.lits@.len() && (#[trigger] self.lits@[k]).0 == q);
                        let k = choose|k: int| 0 <= k < self.lits@.len() && (#[trigger] self.lits@[k]).0 == q;
                        assert(idx <= k);
                        assert(idx < self.lits@.len());
                        assert(self.lits@[idx as int].0.0 <= self.lits@[k].0.0);
                    }
                    let len = self.lits.len();
                    assert(idx < len);
                    let next = idx + 1;
                    if next == len || self.lits[next].0 != q {
                        p_idx = Some(self.lits[idx].1);
                    }
                },
                None => {},
            }
        }
        let n = self.terms.len();
        let mut ret: Vec<Lit> = Vec::new();
        let mut i: usize = 0;
        while i < n
            invariant
                self.wf(),
                n == self.terms@.len(),
                i <= n,
                forall|k: int| 0 <= k < ret@.len() ==> self.bound_reason_lit(#[trigger] ret@[k]),
                *self == *old(self),
                p_idx matches Some(x) ==> (p matches Some(q) && exists|k: int|
                    0 <= k < self.lits@.len() && self.lits@[k].0 == q && self.lits@[k].1 == x),
                forall|i2: int|
                    0 <= i2 < i && #[trigger] self.ub_index@[i2] < self.terms@[i2].spec_lits().len() && p_idx != Some(i2 as usize)
                        ==> ret@.contains(self.terms@[i2].spec_lits()[self.ub_index@[i2] as int].spec_not()),
            decreases n - i,
        {
            let skip = match p_idx {
                Some(x) => x == i,
                None => false,
            };
            if !skip {
                let ub = self.ub_index[i];
                if ub < self.terms[i].lits.len() {
                    let l = self.terms[i].lits[ub].negate();
                    let ghost r0 = ret@;
                    ret.push(l);
                    proof {
                        assert(ret@[ret@.len() - 1] == l);
                        assert forall|i2: int|
                            0 <= i2 < i + 1 && #[trigger] self.ub_index@[i2] < self.terms@[i2].spec_lits().len() && p_idx != Some(i2 as usize)
                                implies ret@.contains(self.terms@[i2].spec_lits()[self.ub_index@[i2] as int].spec_not()) by {
                            if i2 < i {
                                let w = self.terms@[i2].spec_lits()[self.ub_index@[i2] as int].spec_not();
                                let k0 = choose|k0: int| 0 <= k0 < r0.len() && r0[k0] == w;
                                assert(ret@[k0] == w);
                            } else {
                                assert(ret@[ret@.len() - 1] == self.terms@[i2].spec_lits()[self.ub_index@[i2] as int].spec_not());
                            }
                        }
                        assert(self.bound_reason_lit(l)) by {
                            assert(self.ub_index@[i as int] < self.terms@[i as int].spec_lits().len());
                        }
                        assert forall|k: int| 0 <= k < ret@.len() implies self.bound_reason_lit(#[trigger] ret@[k]) by {
                            if k < r0.len() {
                                assert(ret@[k] == r0[k]);
                            }
                        }
                    }
                }
            }
            i += 1;
        }
        proof {
            assert forall|i2: int|
                0 <= i2 < old(self).spec_terms().len() && #[trigger] old(self).spec_ub_index()[i2] < old(self).spec_terms()[i2].spec_lits().len()
                    && !(p matches Some(q) && exists|k: int|
                    0 <= k < old(self).spec_entries().len() && old(self).spec_entries()[k].0 == q && old(self).spec_entries()[k].1 == i2) implies ret@.contains(
                    old(self).spec_terms()[i2].spec_lits()[old(self).spec_ub_index()[i2] as int].spec_not(),
                ) by {
                assert(old(self).spec_ub_index()[i2] == self.ub_index@[i2]);
                assert(old(self).spec_terms()[i2] == self.terms@[i2]);
                assert(old(self).spec_entries() == self.lits@);
                if p_idx == Some(i2 as usize) {
                    assert(i2 as usize as int == i2);
                }
                assert(self.ub_index@[i2] < self.terms@[i2].spec_lits().len());
            }
        }
        match extra {
            Some(e) => {
                let ghost r0 = ret@;
                ret.push(e);
                proof {
                    assert(ret@[ret@.len() - 1] == e);
                    assert forall|w: Lit| r0.contains(w) implies ret@.contains(w) by {
                        let k0 = choose|k0: int| 0 <= k0 < r0.len() && r0[k0] == w;
                        assert(ret@[k0] == w);
                    }
                    assert forall|k: int| 0 <= k < ret@.len() implies self.bound_reason_lit(#[trigger] ret@[k]) || Some(ret@[k]) == extra by {
                        if k < r0.len() {
                            assert(ret@[k] == r0[k]);
                        }
                    }
                }
            },
            None => {},
        }
        ret
    }

    fn undo(&mut self, solver: &mut T, p: Lit)
        ensures
            final(self).spec_ub_index() == old(self).undo_target(),
            final(self).spec_terms() == old(self).spec_terms(),
            final(self).spec_constant() == old(self).spec_constant(),
    {
        loop
            invariant
                self.wf(),
                rolled_back(self.ub_index@, self.undo_list@) == rolled_back(old(self).ub_index@, old(self).undo_list@),
                self.terms@ == old(self).terms@,
                self.constant == old(self).constant,
            decreases self.undo_list@.len(),
        {
            let ghost l0 = self.undo_list@;
            match self.undo_list.pop() {
                Some(Some((i, j))) => {
                    proof {
                        assert(self.undo_list@ == l0.drop_last());
                        assert(l0[l0.len() - 1] == Some((i, j)));
                        assert forall|k: int|
                            0 <= k < self.undo_list@.len() implies (#[trigger] self.undo_list@[k] matches Some((a, b)) ==> a < self.terms@.len() && b <= self.terms@[a as int].spec_lits().len()) by {
                            assert(self.undo_list@[k] == l0[k]);
                        }
                    }
                    self.raise_ub(i, j);
                },
                _ => {
                    proof {
                        assert forall|k: int|
                            0 <= k < self.undo_list@.len() implies (#[trigger] self.undo_list@[k] matches Some((a, b)) ==> a < self.terms@.len() && b <= self.terms@[a as int].spec_lits().len()) by {
                            assert(self.undo_list@[k] == l0[k]);
                        }
                        assert(rolled_back(self.ub_index@, l0) == self.ub_index@);
                    }
                    return;
                },
            }
        }
    }
}

} // verus!
