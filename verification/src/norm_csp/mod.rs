pub mod linear;
pub mod test_utils;

use vstd::prelude::*;

use crate::arithmetic::CmpOp;
use crate::csp::GraphDivisionOptions;
use crate::domain::{seq_has, strictly_sorted, Domain};
use crate::util::ConvertMapIndex;

pub use linear::{terms_sorted, terms_value, LinearLit, LinearSum};

verus! {

/// A Boolean variable of a normalized CSP.
#[derive(Clone, Copy, Debug, PartialEq, Eq, Structural, PartialOrd, Ord, Hash)]
pub struct BoolVar(pub usize);

/// An integer variable of a normalized CSP.
#[derive(Clone, Copy, Debug, PartialEq, Eq, Structural, PartialOrd, Ord, Hash)]
pub struct IntVar(pub usize);

impl ConvertMapIndex for BoolVar {
    open spec fn spec_to_index(&self) -> usize {
        self.0
    }

    fn to_index(&self) -> (r: usize) {
        self.0
    }
}

impl ConvertMapIndex for IntVar {
    open spec fn spec_to_index(&self) -> usize {
        self.0
    }

    fn to_index(&self) -> (r: usize) {
        self.0
    }
}

impl BoolVar {
    pub fn new(id: usize) -> (r: BoolVar)
        ensures
            r.0 == id,
    {
        BoolVar(id)
    }

    pub fn id(&self) -> (r: usize)
        ensures
            r == self.0,
    {
        self.0
    }
}

impl IntVar {
    pub fn new(id: usize) -> (r: IntVar)
        ensures
            r.0 == id,
    {
        IntVar(id)
    }

    pub fn id(&self) -> (r: usize)
        ensures
            r == self.0,
    {
        self.0
    }
}

/// A Boolean variable or its negation.
#[derive(Clone, Copy, Debug, PartialEq, Eq, Structural)]
pub struct BoolLit {
    pub var: BoolVar,
    pub negated: bool,
}

impl BoolLit {
    pub fn new(var: BoolVar, negated: bool) -> (r: BoolLit)
        ensures
            r.var == var,
            r.negated == negated,
    {
        BoolLit { var, negated }
    }

    /// The literal of the same variable with the other polarity.
    pub fn negate(&self) -> (r: BoolLit)
        ensures
            r.var == self.var,
            r.negated == !self.negated,
    {
        BoolLit { var: self.var, negated: !self.negated }
    }
}

/// How an integer variable of a normalized CSP takes its values: from a
/// domain, or as one of two values selected by a Boolean literal.
#[derive(Clone, Debug, PartialEq, Eq)]
pub enum IntVarRepresentation {
    Domain(Domain),
    Binary { cond: BoolLit, v_false: i32, v_true: i32 },
}

impl IntVarRepresentation {
    /// A non-empty, well-formed set of values.
    pub open spec fn wf(&self) -> bool {
        match self {
            IntVarRepresentation::Domain(d) => d.wf() && !d.spec_is_empty(),
            IntVarRepresentation::Binary { cond: _, v_false, v_true } => *v_false < *v_true,
        }
    }

    pub open spec fn contains(&self, x: int) -> bool {
        match self {
            IntVarRepresentation::Domain(d) => d.contains(x),
            IntVarRepresentation::Binary { cond: _, v_false, v_true } => x == *v_false || x == *v_true,
        }
    }

    /// The values, in increasing order.
    pub fn enumerate(&self) -> (r: Vec<i32>)
        requires
            self.wf(),
        ensures
            strictly_sorted(r@),
            r@.len() > 0,
            forall|x: int| self.contains(x) <==> seq_has(r@, x),
    {
        match self {
            IntVarRepresentation::Domain(d) => {
                let r = d.enumerate();
                proof {
                    let x = choose|x: int| d.contains(x);
                    assert(seq_has(r@, x));
                }
                r
            },
            IntVarRepresentation::Binary { cond: _, v_false, v_true } => {
                let mut r: Vec<i32> = Vec::new();
                r.push(*v_false);
                r.push(*v_true);
                proof {
                    assert forall|x: int| self.contains(x) <==> seq_has(r@, x) by {
                        if x == *v_false {
                            assert(r@[0] == x);
                        }
                        if x == *v_true {
                            assert(r@[1] == x);
                        }
                    }
                }
                r
            },
        }
    }

    /// The smallest value.
    pub fn lower_bound(&self) -> (r: i32)
        requires
            self.wf(),
        ensures
            self.contains(r as int),
            forall|x: int| self.contains(x) ==> r <= x,
    {
        match self {
            IntVarRepresentation::Domain(d) => d.lower_bound_checked(),
            IntVarRepresentation::Binary { cond: _, v_false, v_true: _ } => *v_false,
        }
    }

    /// The largest value.
    pub fn upper_bound(&self) -> (r: i32)
        requires
            self.wf(),
        ensures
            self.contains(r as int),
            forall|x: int| self.contains(x) ==> x <= r,
    {
        match self {
            IntVarRepresentation::Domain(d) => d.upper_bound_checked(),
            IntVarRepresentation::Binary { cond: _, v_false: _, v_true } => *v_true,
        }
    }
}

/// A disjunction of Boolean and linear literals.
pub struct Constraint {
    pub bool_lit: Vec<BoolLit>,
    pub linear_lit: Vec<LinearLit>,
}

impl Constraint {
    pub fn new() -> (r: Constraint)
        ensures
            r.bool_lit@.len() == 0,
            r.linear_lit@.len() == 0,
    {
        Constraint { bool_lit: Vec::new(), linear_lit: Vec::new() }
    }

    pub fn add_bool(&mut self, lit: BoolLit)
        ensures
            final(self).bool_lit@ == old(self).bool_lit@.push(lit),
            final(self).linear_lit@ == old(self).linear_lit@,
    {
        self.bool_lit.push(lit);
    }

    pub fn add_linear(&mut self, lit: LinearLit)
        ensures
            final(self).linear_lit@ == old(self).linear_lit@.push(lit),
            final(self).bool_lit@ == old(self).bool_lit@,
    {
        self.linear_lit.push(lit);
    }
}

/// Constraints of a normalized CSP that are not clauses of literals.
pub enum ExtraConstraint {
    ActiveVerticesConnected(Vec<BoolLit>, Vec<(usize, usize)>),
    Mul(IntVar, IntVar, IntVar),
    ExtensionSupports(Vec<IntVar>, Vec<Vec<Option<i32>>>),
    GraphDivision(Vec<Option<IntVar>>, Vec<(usize, usize)>, Vec<BoolLit>, GraphDivisionOptions),
}

/// The variables of a normalized CSP.
pub struct NormCSPVars {
    pub num_bool_var: usize,
    pub int_var: Vec<IntVarRepresentation>,
}

impl NormCSPVars {
    pub open spec fn wf(&self) -> bool {
        forall|i: int| 0 <= i < self.int_var@.len() ==> (#[trigger] self.int_var@[i]).wf()
    }

    pub open spec fn ni(&self) -> nat {
        self.int_var@.len()
    }

    pub fn new() -> (r: NormCSPVars)
        ensures
            r.wf(),
            r.num_bool_var == 0,
            r.int_var@.len() == 0,
    {
        NormCSPVars { num_bool_var: 0, int_var: Vec::new() }
    }

    pub fn new_bool_var(&mut self) -> (r: BoolVar)
        requires
            old(self).num_bool_var < usize::MAX,
        ensures
            r.0 == old(self).num_bool_var,
            final(self).num_bool_var == old(self).num_bool_var + 1,
            final(self).int_var == old(self).int_var,
    {
        let id = self.num_bool_var;
        self.num_bool_var = id + 1;
        BoolVar(id)
    }

    pub fn new_int_var(&mut self, repr: IntVarRepresentation) -> (r: IntVar)
        requires
            old(self).wf(),
            repr.wf(),
        ensures
            final(self).wf(),
            r.0 == old(self).ni(),
            final(self).int_var@ == old(self).int_var@.push(repr),
            final(self).num_bool_var == old(self).num_bool_var,
    {
        let id = self.int_var.len();
        self.int_var.push(repr);
        proof {
            assert forall|i: int| 0 <= i < self.int_var@.len() implies (#[trigger] self.int_var@[i]).wf() by {
                if i < id {
                    assert(self.int_var@[i] == old(self).int_var@[i]);
                }
            }
        }
        IntVar(id)
    }

    /// How `var` takes its values.
    pub fn int_var(&self, var: IntVar) -> (r: &IntVarRepresentation)
        requires
            var.0 < self.ni(),
        ensures
            *r == self.int_var@[var.0 as int],
    {
        &self.int_var[var.0]
    }

    pub fn num_int_vars(&self) -> (r: usize)
        ensures
            r == self.ni(),
    {
        self.int_var.len()
    }

    pub fn num_bool_vars(&self) -> (r: usize)
        ensures
            r == self.num_bool_var,
    {
        self.num_bool_var
    }

    /// The Boolean variables, by increasing index.
    pub fn bool_vars_iter(&self) -> (r: Vec<BoolVar>)
        ensures
            r@.len() == self.num_bool_var,
            forall|i: int| 0 <= i < r@.len() ==> (#[trigger] r@[i]).0 == i,
    {
        let mut r: Vec<BoolVar> = Vec::new();
        let mut i: usize = 0;
        while i < self.num_bool_var
            invariant
                i <= self.num_bool_var,
                r@.len() == i,
                forall|k: int| 0 <= k < i ==> (#[trigger] r@[k]).0 == k,
            decreases self.num_bool_var - i,
        {
            r.push(BoolVar(i));
            i += 1;
        }
        r
    }

    /// The integer variables, by increasing index.
    pub fn int_vars_iter(&self) -> (r: Vec<IntVar>)
        ensures
            r@.len() == self.ni(),
            forall|i: int| 0 <= i < r@.len() ==> (#[trigger] r@[i]).0 == i,
    {
        let n = self.int_var.len();
        let mut r: Vec<IntVar> = Vec::new();
        let mut i: usize = 0;
        while i < n
            invariant
                n == self.ni(),
                i <= n,
                r@.len() == i,
                forall|k: int| 0 <= k < i ==> (#[trigger] r@[k]).0 == k,
            decreases n - i,
        {
            r.push(IntVar(i));
            i += 1;
        }
        r
    }
}

/// A normalized CSP: variables, clauses of literals and extra constraints.
pub struct NormCSP {
    pub vars: NormCSPVars,
    pub constraints: Vec<Constraint>,
    pub extra_constraints: Vec<ExtraConstraint>,
    pub prenormalize_vars: Vec<BoolVar>,
    pub num_encoded_vars: usize,
}

impl NormCSP {
    pub fn new() -> (r: NormCSP)
        ensures
            r.vars.wf(),
            r.vars.num_bool_var == 0,
            r.vars.ni() == 0,
            r.constraints@.len() == 0,
            r.extra_constraints@.len() == 0,
            r.prenormalize_vars@.len() == 0,
            r.num_encoded_vars == 0,
    {
        NormCSP {
            vars: NormCSPVars::new(),
            constraints: Vec::new(),
            extra_constraints: Vec::new(),
            prenormalize_vars: Vec::new(),
            num_encoded_vars: 0,
        }
    }

    pub fn add_constraint(&mut self, constraint: Constraint)
        ensures
            final(self).constraints@ == old(self).constraints@.push(constraint),
            final(self).vars == old(self).vars,
            final(self).extra_constraints == old(self).extra_constraints,
            final(self).prenormalize_vars == old(self).prenormalize_vars,
            final(self).num_encoded_vars == old(self).num_encoded_vars,
    {
        self.constraints.push(constraint);
    }

    pub fn add_extra_constraint(&mut self, constraint: ExtraConstraint)
        ensures
            final(self).extra_constraints@ == old(self).extra_constraints@.push(constraint),
            final(self).vars == old(self).vars,
            final(self).constraints == old(self).constraints,
            final(self).prenormalize_vars == old(self).prenormalize_vars,
            final(self).num_encoded_vars == old(self).num_encoded_vars,
    {
        self.extra_constraints.push(constraint);
    }

    /// The integer variables added since the last encoding.
    pub fn unencoded_int_vars(&self) -> (r: Vec<IntVar>)
        ensures
            r@.len() == (if self.num_encoded_vars <= self.vars.ni() {
                self.vars.ni() - self.num_encoded_vars
            } else {
                0
            }),
            forall|i: int| 0 <= i < r@.len() ==> (#[trigger] r@[i]).0 == self.num_encoded_vars + i,
    {
        let n = self.vars.int_var.len();
        let mut r: Vec<IntVar> = Vec::new();
        if self.num_encoded_vars >= n {
            return r;
        }
        let mut i: usize = self.num_encoded_vars;
        while i < n
            invariant
                n == self.vars.ni(),
                self.num_encoded_vars <= i <= n,
                r@.len() == i - self.num_encoded_vars,
                forall|k: int| 0 <= k < r@.len() ==> (#[trigger] r@[k]).0 == self.num_encoded_vars + k,
            decreases n - i,
        {
            r.push(IntVar(i));
            i += 1;
        }
        r
    }
}

/// Every integer variable `v` takes a value `vals[v]` of its representation.
pub open spec fn vals_in_domains(vars: NormCSPVars, vals: Seq<int>) -> bool {
    vals.len() >= vars.ni() && forall|v: int| 0 <= v < vars.ni() ==> (#[trigger] vars.int_var@[v]).contains(vals[v])
}

/// The representation of a variable that takes `v_true` where `cond` holds
/// and `v_false` elsewhere, with the smaller value first.
pub open spec fn binary_repr(cond: BoolLit, v_true: i32, v_false: i32) -> IntVarRepresentation {
    if v_false < v_true {
        IntVarRepresentation::Binary { cond, v_false, v_true }
    } else if v_true < v_false {
        IntVarRepresentation::Binary { cond: BoolLit { var: cond.var, negated: !cond.negated }, v_false: v_true, v_true: v_false }
    } else {
        IntVarRepresentation::Domain(Domain::Range(v_true, v_true))
    }
}

/// A product of two `i32` values lies within `2^62` of zero.
pub proof fn lemma_i32_product(a: i32, b: i32)
    ensures
        -0x4000_0000_0000_0000 <= a * b <= 0x4000_0000_0000_0000,
{
    assert(-0x4000_0000_0000_0000 <= a * b <= 0x4000_0000_0000_0000) by (nonlinear_arith)
        requires
            i32::MIN <= a <= i32::MAX,
            i32::MIN <= b <= i32::MAX,
    ;
}

proof fn lemma_term_bounds(c: int, lb: int, ub: int, x: int)
    requires
        lb <= x <= ub,
    ensures
        (if c >= 0 { c * lb } else { c * ub }) <= c * x <= (if c >= 0 { c * ub } else { c * lb }),
{
    if c >= 0 {
        assert(c * lb <= c * x <= c * ub) by (nonlinear_arith)
            requires
                c >= 0,
                lb <= x <= ub,
        ;
    } else {
        assert(c * ub <= c * x <= c * lb) by (nonlinear_arith)
            requires
                c < 0,
                lb <= x <= ub,
        ;
    }
}

impl NormCSP {
    /// A new Boolean variable.
    pub fn new_bool_var(&mut self) -> (r: BoolVar)
        requires
            old(self).vars.num_bool_var < usize::MAX,
        ensures
            r.0 == old(self).vars.num_bool_var,
            final(self).vars.num_bool_var == old(self).vars.num_bool_var + 1,
            final(self).vars.int_var == old(self).vars.int_var,
            final(self).constraints == old(self).constraints,
            final(self).extra_constraints == old(self).extra_constraints,
            final(self).prenormalize_vars == old(self).prenormalize_vars,
            final(self).num_encoded_vars == old(self).num_encoded_vars,
    {
        self.vars.new_bool_var()
    }

    /// Marks `var` to be kept apart during encoding.
    pub fn add_prenormalize_var(&mut self, var: BoolVar)
        ensures
            final(self).prenormalize_vars@ == old(self).prenormalize_vars@.push(var),
            final(self).vars == old(self).vars,
            final(self).constraints == old(self).constraints,
            final(self).extra_constraints == old(self).extra_constraints,
            final(self).num_encoded_vars == old(self).num_encoded_vars,
    {
        self.prenormalize_vars.push(var);
    }

    /// A new integer variable with values `domain`.
    pub fn new_int_var(&mut self, domain: Domain) -> (r: IntVar)
        requires
            old(self).vars.wf(),
            domain.wf(),
            !domain.spec_is_empty(),
        ensures
            final(self).vars.wf(),
            r.0 == old(self).vars.ni(),
            final(self).vars.int_var@ == old(self).vars.int_var@.push(IntVarRepresentation::Domain(domain)),
            final(self).vars.num_bool_var == old(self).vars.num_bool_var,
            final(self).constraints == old(self).constraints,
            final(self).extra_constraints == old(self).extra_constraints,
            final(self).prenormalize_vars == old(self).prenormalize_vars,
            final(self).num_encoded_vars == old(self).num_encoded_vars,
    {
        self.vars.new_int_var(IntVarRepresentation::Domain(domain))
    }

    /// A new integer variable that takes `v_true` where `cond` holds and
    /// `v_false` elsewhere.
    pub fn new_binary_int_var(&mut self, cond: BoolLit, v_true: i32, v_false: i32) -> (r: IntVar)
        requires
            old(self).vars.wf(),
        ensures
            final(self).vars.wf(),
            r.0 == old(self).vars.ni(),
            final(self).vars.int_var@ == old(self).vars.int_var@.push(binary_repr(cond, v_true, v_false)),
            final(self).vars.num_bool_var == old(self).vars.num_bool_var,
            final(self).constraints == old(self).constraints,
            final(self).extra_constraints == old(self).extra_constraints,
            final(self).prenormalize_vars == old(self).prenormalize_vars,
            final(self).num_encoded_vars == old(self).num_encoded_vars,
    {
        let repr = if v_false < v_true {
            IntVarRepresentation::Binary { cond, v_false, v_true }
        } else if v_true < v_false {
            IntVarRepresentation::Binary { cond: cond.negate(), v_false: v_true, v_true: v_false }
        } else {
            let d = Domain::range(v_true, v_true);
            assert(d.contains(v_true as int));
            IntVarRepresentation::Domain(d)
        };
        self.vars.new_int_var(repr)
    }

    /// An interval that holds every value of `sum` when each variable takes
    /// one of its values; `None` where the interval leaves `i32`.
    pub fn get_domain_linear_sum(&self, sum: &LinearSum) -> (r: Option<Domain>)
        requires
            self.vars.wf(),
            sum.wf(),
            forall|i: int| 0 <= i < sum.term@.len() ==> (#[trigger] sum.term@[i]).0.0 < self.vars.ni(),
        ensures
            r matches Some(d) ==> d.wf() && !d.spec_is_empty() && forall|vals: Seq<int>|
                vals_in_domains(self.vars, vals) ==> d.contains(#[trigger] sum.value(vals)),
            r is None <==> !(i32::MIN <= sum.constant + terms_low(self.vars, sum.term@) && sum.constant + terms_high(
                self.vars,
                sum.term@,
            ) <= i32::MAX),
            r matches Some(d) ==> d == Domain::Range(
                (sum.constant + terms_low(self.vars, sum.term@)) as i32,
                (sum.constant + terms_high(self.vars, sum.term@)) as i32,
            ),
    {
        let n = sum.term.len();
        let mut lo: i128 = sum.constant as i128;
        let mut hi: i128 = sum.constant as i128;
        let mut k: usize = 0;
        while k < n
            invariant
                self.vars.wf(),
                sum.wf(),
                n == sum.term@.len(),
                forall|i: int| 0 <= i < sum.term@.len() ==> (#[trigger] sum.term@[i]).0.0 < self.vars.ni(),
                k <= n,
                lo <= hi,
                -0x4000_0000_0000_0000 * (k as int) - 0x8000_0000 <= lo,
                hi <= 0x4000_0000_0000_0000 * (k as int) + 0x8000_0000,
                forall|vals: Seq<int>|
                    vals_in_domains(self.vars, vals) ==> lo <= #[trigger] terms_value(sum.term@.take(k as int), vals) + sum.constant <= hi,
                lo == sum.constant + terms_low(self.vars, sum.term@.take(k as int)),
                hi == sum.constant + terms_high(self.vars, sum.term@.take(k as int)),
            decreases n - k,
        {
            let (v, c) = sum.term[k];
            let repr = self.vars.int_var(v);
            assert(self.vars.int_var@[v.0 as int].wf());
            let lb = repr.lower_bound();
            let ub = repr.upper_bound();
            proof {
                lemma_i32_product(c, lb);
                lemma_i32_product(c, ub);
            }
            let (tl, th): (i128, i128) = if c >= 0 {
                (c as i128 * lb as i128, c as i128 * ub as i128)
            } else {
                (c as i128 * ub as i128, c as i128 * lb as i128)
            };
            proof {
                lemma_term_bounds(c as int, lb as int, ub as int, lb as int);
                assert(-0x4000_0000_0000_0000 <= tl <= th <= 0x4000_0000_0000_0000) by (nonlinear_arith)
                    requires
                        i32::MIN <= c <= i32::MAX,
                        i32::MIN <= lb <= ub <= i32::MAX,
                        tl <= th,
                        tl == (if c >= 0 { c * lb } else { c * ub }),
                        th == (if c >= 0 { c * ub } else { c * lb }),
                ;
                assert(k < usize::MAX);
                assert forall|vals: Seq<int>|
                    vals_in_domains(self.vars, vals) implies lo + tl <= #[trigger] terms_value(sum.term@.take(k + 1), vals) + sum.constant <= hi + th by {
                    assert(sum.term@.take(k + 1).drop_last() =~= sum.term@.take(k as int));
                    assert(self.vars.int_var@[v.0 as int].contains(vals[v.0 as int]));
                    lemma_term_bounds(c as int, lb as int, ub as int, vals[v.0 as int]);
                    assert(lo <= terms_value(sum.term@.take(k as int), vals) + sum.constant <= hi);
                }
            }
            proof {
                lemma_terms_bounds_step(self.vars, sum.term@, k as int, lb as int, ub as int);
            }
            lo = lo + tl;
            hi = hi + th;
            k += 1;
        }
        assert(sum.term@.take(n as int) =~= sum.term@);
        if lo < i32::MIN as i128 || hi > i32::MAX as i128 {
            return None;
        }
        let d = Domain::range(lo as i32, hi as i32);
        proof {
            assert(sum.term@.take(n as int) =~= sum.term@);
            assert(d.contains(lo as int));
        }
        Some(d)
    }
}


/// The smallest value of a variable.
pub open spec fn repr_min(repr: IntVarRepresentation) -> int {
    choose|x: int| repr.contains(x) && forall|y: int| repr.contains(y) ==> x <= y
}

/// The largest value of a variable.
pub open spec fn repr_max(repr: IntVarRepresentation) -> int {
    choose|x: int| repr.contains(x) && forall|y: int| repr.contains(y) ==> y <= x
}

proof fn lemma_repr_min(repr: IntVarRepresentation, m: int)
    requires
        repr.contains(m),
        forall|y: int| repr.contains(y) ==> m <= y,
    ensures
        repr_min(repr) == m,
{
    let x = repr_min(repr);
    assert(repr.contains(x) && forall|y: int| repr.contains(y) ==> x <= y);
}

proof fn lemma_repr_max(repr: IntVarRepresentation, m: int)
    requires
        repr.contains(m),
        forall|y: int| repr.contains(y) ==> y <= m,
    ensures
        repr_max(repr) == m,
{
    let x = repr_max(repr);
    assert(repr.contains(x) && forall|y: int| repr.contains(y) ==> y <= x);
}

proof fn lemma_terms_bounds_step(vars: NormCSPVars, t: Seq<(IntVar, i32)>, k: int, lb: int, ub: int)
    requires
        0 <= k < t.len(),
        vars.int_var@[t[k].0.0 as int].contains(lb),
        forall|y: int| vars.int_var@[t[k].0.0 as int].contains(y) ==> lb <= y,
        vars.int_var@[t[k].0.0 as int].contains(ub),
        forall|y: int| vars.int_var@[t[k].0.0 as int].contains(y) ==> y <= ub,
    ensures
        terms_low(vars, t.take(k + 1)) == terms_low(vars, t.take(k)) + if t[k].1 >= 0 { t[k].1 * lb } else { t[k].1 * ub },
        terms_high(vars, t.take(k + 1)) == terms_high(vars, t.take(k)) + if t[k].1 >= 0 { t[k].1 * ub } else { t[k].1 * lb },
{
    let s = t.take(k + 1);
    assert(s.drop_last() =~= t.take(k));
    assert(s.last() == t[k]);
    lemma_repr_min(vars.int_var@[t[k].0.0 as int], lb);
    lemma_repr_max(vars.int_var@[t[k].0.0 as int], ub);
}

/// The smallest value of the terms `t`: each term at the end of its
/// variable's range that makes it smallest.
pub open spec fn terms_low(vars: NormCSPVars, t: Seq<(IntVar, i32)>) -> int
    decreases t.len(),
{
    if t.len() == 0 {
        0
    } else {
        let (v, c) = t.last();
        let repr = vars.int_var@[v.0 as int];
        terms_low(vars, t.drop_last()) + if c >= 0 { c * repr_min(repr) } else { c * repr_max(repr) }
    }
}

/// The largest value of the terms `t`.
pub open spec fn terms_high(vars: NormCSPVars, t: Seq<(IntVar, i32)>) -> int
    decreases t.len(),
{
    if t.len() == 0 {
        0
    } else {
        let (v, c) = t.last();
        let repr = vars.int_var@[v.0 as int];
        terms_high(vars, t.drop_last()) + if c >= 0 { c * repr_max(repr) } else { c * repr_min(repr) }
    }
}

} // verus!
