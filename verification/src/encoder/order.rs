use vstd::prelude::*;

use super::ExtendedLit;
use crate::arithmetic::Range;
use crate::domain::strictly_sorted;
use crate::sat::{clause_holds, clause_in_range, clauses_hold, lemma_lit_negation, lit_holds, lit_wf, Lit, SAT};

verus! {

/// Order encoding of an integer variable with values `domain`:
/// `lits[i]` stands for "the value is at least `domain[i + 1]`".
pub struct OrderEncoding {
    pub domain: Vec<i32>,
    pub lits: Vec<Lit>,
}

impl OrderEncoding {
    /// A non-empty increasing domain, one literal per value but the first,
    /// all over the first `n` SAT variables.
    pub open spec fn wf(&self, n: nat) -> bool {
        &&& self.shaped()
        &&& clause_in_range(self.lits@, n as int)
    }

    /// A non-empty increasing domain, one well-formed literal per value
    /// but the first.
    pub open spec fn shaped(&self) -> bool {
        &&& self.domain@.len() >= 1
        &&& strictly_sorted(self.domain@)
        &&& self.lits@.len() + 1 == self.domain@.len()
        &&& forall|i: int| 0 <= i < self.lits@.len() ==> lit_wf(#[trigger] self.lits@[i])
    }

    /// The smallest and largest value, or an empty range.
    pub fn range(&self) -> (r: Range)
        ensures
            self.domain@.len() == 0 ==> r.low == 1 && r.high == 0,
            self.domain@.len() > 0 ==> r.low == self.domain@[0] && r.high == self.domain@[self.domain@.len() - 1],
    {
        if self.domain.len() == 0 {
            Range::empty()
        } else {
            Range::new(self.domain[0], self.domain[self.domain.len() - 1])
        }
    }
}

/// The product of two `i32` values fits in an `i64`.
pub proof fn lemma_mul_i32_fits(a: i32, b: i32)
    ensures
        i64::MIN <= a * b <= i64::MAX,
{
    let x = a as int;
    let y = b as int;
    assert(-0x8000_0000 <= x <= 0x7fff_ffff && -0x8000_0000 <= y <= 0x7fff_ffff ==> -0x4000_0000_0000_0000
        <= x * y <= 0x4000_0000_0000_0000) by (nonlinear_arith);
}

/// An order-encoded variable times a coefficient; with it a term with a
/// negative coefficient reads like one with a positive coefficient.
pub struct LinearInfoForOrderEncoding<'a> {
    pub coef: i32,
    pub encoding: &'a OrderEncoding,
}

impl<'a> LinearInfoForOrderEncoding<'a> {
    pub open spec fn wf(&self, n: nat) -> bool {
        self.coef != 0 && self.encoding.wf(n)
    }

    pub open spec fn shaped(&self) -> bool {
        self.coef != 0 && self.encoding.shaped()
    }

    pub open spec fn size(&self) -> int {
        self.encoding.domain@.len() as int
    }

    /// The `j`-th smallest value of the term.
    pub open spec fn spec_domain(&self, j: int) -> int {
        if self.coef > 0 {
            self.encoding.domain@[j] * self.coef
        } else {
            self.encoding.domain@[self.size() - 1 - j] * self.coef
        }
    }

    /// The literal for "the term is at least its `j`-th smallest value".
    pub open spec fn spec_at_least(&self, j: int) -> Lit {
        if self.coef > 0 {
            self.encoding.lits@[j - 1]
        } else {
            self.encoding.lits@[self.size() - 1 - j].spec_not()
        }
    }

    /// The values of the term strictly increase.
    pub proof fn lemma_increasing(&self)
        requires
            self.shaped(),
        ensures
            forall|i: int, j: int| 0 <= i < j < self.size() ==> self.spec_domain(i) < self.spec_domain(j),
    {
        assert forall|i: int, j: int| 0 <= i < j < self.size() implies self.spec_domain(i) < self.spec_domain(j) by {
            let c = self.coef as int;
            if c > 0 {
                let a = self.encoding.domain@[i] as int;
                let b = self.encoding.domain@[j] as int;
                assert(a < b);
                assert(a * c < b * c) by (nonlinear_arith)
                    requires
                        a < b,
                        c > 0,
                ;
            } else {
                let a = self.encoding.domain@[self.size() - 1 - i] as int;
                let b = self.encoding.domain@[self.size() - 1 - j] as int;
                assert(b < a);
                assert(a * c < b * c) by (nonlinear_arith)
                    requires
                        b < a,
                        c < 0,
                ;
            }
        }
    }

    /// Under `m` the term takes its `j`-th smallest value: the literal for
    /// "at least the `t`-th value" holds exactly for `t` up to `j`.
    pub open spec fn picks(&self, m: Seq<bool>, j: int) -> bool {
        &&& 0 <= j < self.size()
        &&& forall|t: int| 0 < t < self.size() ==> (lit_holds(m, #[trigger] self.spec_at_least(t)) <==> t <= j)
    }

    pub fn new(coef: i32, encoding: &'a OrderEncoding) -> (r: LinearInfoForOrderEncoding<'a>)
        ensures
            r.coef == coef,
            r.encoding == encoding,
    {
        LinearInfoForOrderEncoding { coef, encoding }
    }

    pub fn domain_size(&self) -> (r: usize)
        ensures
            r == self.size(),
    {
        self.encoding.domain.len()
    }

    /// `j`-th smallest value of the term.
    pub fn domain(&self, j: usize) -> (r: i64)
        requires
            j < self.size(),
        ensures
            r == self.spec_domain(j as int),
    {
        let n = self.encoding.domain.len();
        let d = if self.coef > 0 {
            self.encoding.domain[j]
        } else {
            self.encoding.domain[n - 1 - j]
        };
        proof {
            lemma_mul_i32_fits(d, self.coef);
        }
        (d as i64) * (self.coef as i64)
    }

    /// The smallest value of the term.
    pub fn domain_min(&self) -> (r: i64)
        requires
            self.size() > 0,
        ensures
            r == self.spec_domain(0),
    {
        self.domain(0)
    }

    /// The largest value of the term.
    pub fn domain_max(&self) -> (r: i64)
        requires
            self.size() > 0,
        ensures
            r == self.spec_domain(self.size() - 1),
    {
        self.domain(self.domain_size() - 1)
    }

    /// The literal asserting that the term is at least `domain(j)`.
    pub fn at_least(&self, j: usize) -> (r: Lit)
        requires
            self.shaped(),
            0 < j < self.size(),
        ensures
            r == self.spec_at_least(j as int),
            lit_wf(r),
    {
        let n = self.encoding.domain.len();
        if self.coef > 0 {
            assert(lit_wf(self.encoding.lits@[j - 1]));
            self.encoding.lits[j - 1]
        } else {
            assert(lit_wf(self.encoding.lits@[n - 1 - j]));
            self.encoding.lits[n - 1 - j].negate()
        }
    }

    /// The literal asserting that the term is at least `val`, given that it
    /// takes one of its values.
    pub fn at_least_val(&self, val: i128) -> (r: ExtendedLit)
        requires
            self.shaped(),
        ensures
            (r == ExtendedLit::True) == (val <= self.spec_domain(0)),
            (r == ExtendedLit::False) == (val > self.spec_domain(self.size() - 1)),
            r matches ExtendedLit::Lit(l) ==> exists|j: int|
                0 < j < self.size() && self.spec_domain(j - 1) < val <= self.spec_domain(j) && l
                    == self.spec_at_least(j),
    {
        proof {
            self.lemma_increasing();
        }
        let n = self.domain_size();
        if val <= self.domain(0) as i128 {
            ExtendedLit::True
        } else if val > self.domain(n - 1) as i128 {
            ExtendedLit::False
        } else {
            let mut left: usize = 0;
            let mut right: usize = n - 1;
            while left < right
                invariant
                    self.shaped(),
                    n == self.size(),
                    left <= right < n,
                    val <= self.spec_domain(right as int),
                    forall|k: int| 0 <= k < left ==> self.spec_domain(k) < val,
                    val > self.spec_domain(0),
                    forall|i: int, j: int| 0 <= i < j < self.size() ==> self.spec_domain(i) < self.spec_domain(j),
                decreases right - left,
            {
                let mid = left + (right - left) / 2;
                if val <= self.domain(mid) as i128 {
                    right = mid;
                } else {
                    left = mid + 1;
                }
            }
            assert(left > 0);
            let l = self.at_least(left);
            assert(self.spec_domain(left - 1) < val);
            ExtendedLit::Lit(l)
        }
    }
}

/// Under `m` the order encoding `e` reads the value `val`: `val` is one of
/// its values, and the literal for "at least `domain[k + 1]`" holds exactly
/// when `val` is at least that.
pub open spec fn order_reads(e: OrderEncoding, m: Seq<bool>, val: int) -> bool {
    &&& exists|i: int| 0 <= i < e.domain@.len() && e.domain@[i] == val
    &&& forall|k: int| 0 <= k < e.lits@.len() ==> (lit_holds(m, #[trigger] e.lits@[k]) <==> e.domain@[k + 1] <= val)
}

/// The clauses making each literal of `lits` imply the previous one.
pub open spec fn order_chain(lits: Seq<Lit>) -> Seq<Seq<Lit>> {
    Seq::new(
        if lits.len() == 0 { 0 } else { (lits.len() - 1) as nat },
        |i: int| seq![lits[i + 1].spec_not(), lits[i]],
    )
}

/// Encodes an integer variable with the values `domain` (given in
/// increasing order) in order encoding: one fresh literal per value but the
/// first, with clauses making each literal imply the previous one.
pub fn encode_var_order_domain(sat: &mut SAT, domain: Vec<i32>) -> (r: OrderEncoding)
    requires
        old(sat).wf(),
        domain@.len() >= 1,
        strictly_sorted(domain@),
    ensures
        final(sat).wf(),
        r.wf(final(sat).spec_num_vars()),
        r.domain@ == domain@,
        final(sat).spec_num_vars() >= old(sat).spec_num_vars(),
        final(sat).spec_backend() == old(sat).spec_backend(),
        old(sat).spec_exhausted() ==> final(sat).spec_exhausted(),
        final(sat).spec_clauses() == old(sat).spec_clauses() + order_chain(r.lits@),
{
    let lits = sat.fresh_lits(domain.len() - 1);
    let ghost c0 = sat.spec_clauses();
    let mut i: usize = 1;
    while i < lits.len()
        invariant
            sat.wf(),
            clause_in_range(lits@, sat.spec_num_vars() as int),
            1 <= i,
            i <= lits@.len() || i == 1,
            sat.spec_clauses() == c0 + Seq::new(
                (i - 1) as nat,
                |k: int| seq![lits@[k + 1].spec_not(), lits@[k]],
            ),
            sat.spec_num_vars() >= old(sat).spec_num_vars(),
            sat.spec_backend() == old(sat).spec_backend(),
            old(sat).spec_exhausted() ==> sat.spec_exhausted(),
        decreases lits@.len() - i,
    {
        assert(lit_wf(lits@[i as int]) && lit_wf(lits@[i - 1]));
        let a = lits[i].negate();
        let b = lits[i - 1];
        let mut clause: Vec<Lit> = Vec::new();
        clause.push(a);
        clause.push(b);
        proof {
            assert forall|k: int| 0 <= k < clause@.len() implies lit_wf(#[trigger] clause@[k]) && clause@[k].spec_var().0 < sat.spec_num_vars() by {
                if k == 0 {
                    assert(lits@[i as int].spec_var().0 < sat.spec_num_vars());
                }
            }
        }
        sat.add_clause(clause.as_slice());
        proof {
            assert(clause@ == seq![lits@[i as int].spec_not(), lits@[i - 1]]);
            assert(sat.spec_clauses() =~= c0 + Seq::new(
                i as nat,
                |k: int| seq![lits@[k + 1].spec_not(), lits@[k]],
            ));
        }
        i += 1;
    }
    let r = OrderEncoding { domain, lits };
    proof {
        if r.lits@.len() == 0 {
            assert(sat.spec_clauses() =~= c0 + order_chain(r.lits@));
        } else {
            assert(i == r.lits@.len());
            let x = Seq::new(
                (i - 1) as nat,
                |k: int| seq![lits@[k + 1].spec_not(), lits@[k]],
            );
            assert(sat.spec_clauses() == c0 + x);
            assert(x =~= order_chain(r.lits@));
        }
    }
    r
}


/// Under `m`, exactly the first `k` literals of `lits` hold.
pub open spec fn holds_prefix(m: Seq<bool>, lits: Seq<Lit>, k: int) -> bool {
    &&& 0 <= k <= lits.len()
    &&& forall|i: int| 0 <= i < lits.len() ==> (lit_holds(m, #[trigger] lits[i]) <==> i < k)
}

/// The number of literals from position `i` on that hold in a row under `m`.
pub open spec fn leading_true(m: Seq<bool>, lits: Seq<Lit>, i: int) -> int
    decreases lits.len() - i,
{
    if i < 0 || i >= lits.len() {
        0
    } else if lit_holds(m, lits[i]) {
        1 + leading_true(m, lits, i + 1)
    } else {
        0
    }
}

proof fn lemma_leading_true(m: Seq<bool>, lits: Seq<Lit>, i: int)
    requires
        0 <= i <= lits.len(),
    ensures
        0 <= leading_true(m, lits, i) <= lits.len() - i,
        forall|j: int| i <= j < i + leading_true(m, lits, i) ==> lit_holds(m, #[trigger] lits[j]),
        i + leading_true(m, lits, i) < lits.len() ==> !lit_holds(m, lits[i + leading_true(m, lits, i)]),
    decreases lits.len() - i,
{
    if i < lits.len() && lit_holds(m, lits[i]) {
        lemma_leading_true(m, lits, i + 1);
    }
}

/// Under a total assignment, the clauses of an order-encoded variable hold
/// exactly when the literals that hold form a prefix: the variable then
/// takes exactly one value, the one after its last true literal.
pub proof fn lemma_order_chain_exact(m: Seq<bool>, lits: Seq<Lit>)
    requires
        forall|i: int| 0 <= i < lits.len() ==> lit_wf(#[trigger] lits[i]),
    ensures
        clauses_hold(m, order_chain(lits)) <==> exists|k: int| holds_prefix(m, lits, k),
{
    let cs = order_chain(lits);
    if clauses_hold(m, cs) {
        let k = leading_true(m, lits, 0);
        lemma_leading_true(m, lits, 0);
        assert forall|i: int| 0 <= i < lits.len() implies (lit_holds(m, #[trigger] lits[i]) <==> i < k) by {
            if i >= k {
                lemma_false_after(m, lits, k, i);
            }
        }
        assert(holds_prefix(m, lits, k));
    }
    if exists|k: int| holds_prefix(m, lits, k) {
        let k = choose|k: int| holds_prefix(m, lits, k);
        assert forall|j: int| 0 <= j < cs.len() implies clause_holds(m, #[trigger] cs[j]) by {
            lemma_lit_negation(lits[j + 1]);
            let c = cs[j];
            assert(c == seq![lits[j + 1].spec_not(), lits[j]]);
            if j < k {
                assert(lit_holds(m, lits[j]));
                assert(lit_holds(m, c[1]));
            } else {
                assert(!lit_holds(m, lits[j + 1]));
                assert(lit_holds(m, c[0]));
            }
        }
    }
}

/// Where the chain holds, a literal that fails makes every later one fail.
proof fn lemma_false_after(m: Seq<bool>, lits: Seq<Lit>, k: int, i: int)
    requires
        forall|x: int| 0 <= x < lits.len() ==> lit_wf(#[trigger] lits[x]),
        clauses_hold(m, order_chain(lits)),
        0 <= k <= i < lits.len(),
        !lit_holds(m, lits[k]),
    ensures
        !lit_holds(m, lits[i]),
    decreases i - k,
{
    if i > k {
        lemma_false_after(m, lits, k, i - 1);
        let cs = order_chain(lits);
        assert(clause_holds(m, cs[i - 1]));
        lemma_lit_negation(lits[i]);
        let c = cs[i - 1];
        assert(c == seq![lits[i].spec_not(), lits[i - 1]]);
        if lit_holds(m, lits[i]) {
            assert(!lit_holds(m, c[0]));
            assert(!lit_holds(m, c[1]));
        }
    }
}

} // verus!
