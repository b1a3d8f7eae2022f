//! Evaluating a normalized CSP on explicit values, and enumerating its
//! solutions by brute force.

use vstd::prelude::*;
use crate::norm_csp::linear::lemma_terms_value_agree;

use super::{BoolLit, BoolVar, Constraint, ExtraConstraint, IntVar, LinearLit, NormCSP};
use super::linear::terms_value;
use crate::arithmetic::op_holds;
use crate::util::ConvertMap;
use crate::domain::seq_has;

verus! {

/// Values given to some variables of a normalized CSP.
pub struct Assignment {
    bool_val: ConvertMap<BoolVar, bool>,
    int_val: ConvertMap<IntVar, i32>,
}

impl Assignment {
    pub closed spec fn wf(&self) -> bool {
        self.bool_val.wf() && self.int_val.wf()
    }

    pub closed spec fn bool_at(&self, i: int) -> Option<bool> {
        self.bool_val.slot(i)
    }

    pub closed spec fn int_at(&self, i: int) -> Option<i32> {
        self.int_val.slot(i)
    }

    /// Every Boolean variable below `nb` and every integer variable below
    /// `ni` has a value.
    pub open spec fn covers_vars(&self, nb: nat, ni: nat) -> bool {
        &&& forall|i: int| 0 <= i < nb ==> (#[trigger] self.bool_at(i)) is Some
        &&& forall|i: int| 0 <= i < ni ==> (#[trigger] self.int_at(i)) is Some
    }

    /// The integer values as a sequence indexed by variable (`0` where unset).
    pub closed spec fn int_vals(&self) -> Seq<int> {
        Seq::new(self.int_val.spec_len(), |i: int| match self.int_val.slot(i) {
            Some(v) => v as int,
            None => 0int,
        })
    }

    pub proof fn lemma_int_vals(&self)
        ensures
            forall|i: int| (#[trigger] self.int_at(i)) is Some ==> 0 <= i < self.int_vals().len() && self.int_vals()[i] == self.int_at(i)->0 as int,
    {
    }

    pub fn new() -> (r: Assignment)
        ensures
            r.wf(),
            forall|i: int| #[trigger] r.bool_at(i) == None::<bool>,
            forall|i: int| #[trigger] r.int_at(i) == None::<i32>,
    {
        Assignment { bool_val: ConvertMap::new(), int_val: ConvertMap::new() }
    }

    pub fn set_bool(&mut self, var: BoolVar, val: bool)
        requires
            old(self).wf(),
        ensures
            final(self).wf(),
            final(self).bool_at(var.0 as int) == Some(val),
            forall|i: int| i != var.0 ==> #[trigger] final(self).bool_at(i) == old(self).bool_at(i),
            forall|i: int| #[trigger] final(self).int_at(i) == old(self).int_at(i),
    {
        self.bool_val.set(&var, Some(val));
    }

    pub fn set_int(&mut self, var: IntVar, val: i32)
        requires
            old(self).wf(),
        ensures
            final(self).wf(),
            final(self).int_at(var.0 as int) == Some(val),
            forall|i: int| i != var.0 ==> #[trigger] final(self).int_at(i) == old(self).int_at(i),
            forall|i: int| #[trigger] final(self).bool_at(i) == old(self).bool_at(i),
    {
        self.int_val.set(&var, Some(val));
    }

    pub fn get_bool(&self, var: BoolVar) -> (r: Option<bool>)
        requires
            self.wf(),
        ensures
            r == self.bool_at(var.0 as int),
    {
        *self.bool_val.get(&var)
    }

    pub fn get_int(&self, var: IntVar) -> (r: Option<i32>)
        requires
            self.wf(),
        ensures
            r == self.int_at(var.0 as int),
    {
        *self.int_val.get(&var)
    }

    /// The Boolean variables with a value, by increasing index.
    pub fn bool_entries(&self) -> (r: Vec<(usize, bool)>)
        ensures
            forall|a: int, b: int| 0 <= a < b < r@.len() ==> r@[a].0 < r@[b].0,
            forall|a: int| 0 <= a < r@.len() ==> self.bool_at(#[trigger] r@[a].0 as int) == Some(r@[a].1),
            forall|i: int| #[trigger] self.bool_at(i) is Some ==> exists|a: int| 0 <= a < r@.len() && r@[a].0 == i,
    {
        self.bool_val.entries()
    }

    /// The integer variables with a value, by increasing index.
    pub fn int_entries(&self) -> (r: Vec<(usize, i32)>)
        ensures
            forall|a: int, b: int| 0 <= a < b < r@.len() ==> r@[a].0 < r@[b].0,
            forall|a: int| 0 <= a < r@.len() ==> self.int_at(#[trigger] r@[a].0 as int) == Some(r@[a].1),
            forall|i: int| #[trigger] self.int_at(i) is Some ==> exists|a: int| 0 <= a < r@.len() && r@[a].0 == i,
    {
        self.int_val.entries()
    }

    /// The literal holds.
    pub open spec fn bool_lit_holds(&self, l: BoolLit) -> bool {
        self.bool_at(l.var.0 as int) == Some(!l.negated)
    }

    /// Some literal of the clause holds.
    pub open spec fn constraint_holds(&self, c: Constraint) -> bool {
        ||| exists|k: int| 0 <= k < c.bool_lit@.len() && self.bool_lit_holds(#[trigger] c.bool_lit@[k])
        ||| exists|k: int| 0 <= k < c.linear_lit@.len() && (#[trigger] c.linear_lit@[k]).holds(self.int_vals())
    }

    /// Every variable of the clause has a value.
    pub open spec fn assigns(&self, c: Constraint) -> bool {
        &&& forall|k: int| 0 <= k < c.bool_lit@.len() ==> self.bool_at((#[trigger] c.bool_lit@[k]).var.0 as int) is Some
        &&& forall|k: int, t: int|
            0 <= k < c.linear_lit@.len() && 0 <= t < c.linear_lit@[k].sum.term@.len() ==> self.int_at(
                (#[trigger] c.linear_lit@[k].sum.term@[t]).0.0 as int,
            ) is Some
    }

    /// Whether the literal `sum op 0` holds.
    pub fn eval_linear_lit(&self, lit: &LinearLit) -> (r: bool)
        requires
            self.wf(),
            forall|t: int| 0 <= t < lit.sum.term@.len() ==> self.int_at((#[trigger] lit.sum.term@[t]).0.0 as int) is Some,
        ensures
            r == lit.holds(self.int_vals()),
    {
        let n = lit.sum.term.len();
        let mut acc: i128 = lit.sum.constant as i128;
        let mut k: usize = 0;
        proof {
            self.lemma_int_vals();
            assert(lit.sum.term@.take(0) =~= Seq::<(IntVar, i32)>::empty());
        }
        while k < n
            invariant
                self.wf(),
                n == lit.sum.term@.len(),
                k <= n,
                forall|t: int| 0 <= t < lit.sum.term@.len() ==> self.int_at((#[trigger] lit.sum.term@[t]).0.0 as int) is Some,
                forall|i: int| (#[trigger] self.int_at(i)) is Some ==> 0 <= i < self.int_vals().len() && self.int_vals()[i] == self.int_at(i)->0 as int,
                acc == terms_value(lit.sum.term@.take(k as int), self.int_vals()) + lit.sum.constant,
                -0x4000_0000_0000_0000 * (k as int) - 0x8000_0000 <= acc <= 0x4000_0000_0000_0000 * (k as int) + 0x8000_0000,
            decreases n - k,
        {
            let (v, c) = lit.sum.term[k];
            assert(self.int_at(lit.sum.term@[k as int].0.0 as int) is Some);
            let x = match self.get_int(v) {
                Some(x) => x,
                None => 0,
            };
            proof {
                super::lemma_i32_product(c, x);
                assert(lit.sum.term@.take(k + 1).drop_last() =~= lit.sum.term@.take(k as int));
                assert(k < usize::MAX);
            }
            acc = acc + (c as i128) * (x as i128);
            k += 1;
        }
        proof {
            assert(lit.sum.term@.take(n as int) =~= lit.sum.term@);
        }
        match lit.op {
            crate::arithmetic::CmpOp::Eq => acc == 0,
            crate::arithmetic::CmpOp::Ne => acc != 0,
            crate::arithmetic::CmpOp::Le => acc <= 0,
            crate::arithmetic::CmpOp::Lt => acc < 0,
            crate::arithmetic::CmpOp::Ge => acc >= 0,
            crate::arithmetic::CmpOp::Gt => acc > 0,
        }
    }

    /// Whether some literal of the clause holds.
    pub fn eval_constraint(&self, c: &Constraint) -> (r: bool)
        requires
            self.wf(),
            self.assigns(*c),
        ensures
            r == self.constraint_holds(*c),
    {
        let mut i: usize = 0;
        while i < c.bool_lit.len()
            invariant
                self.wf(),
                i <= c.bool_lit@.len(),
                forall|k: int| 0 <= k < i ==> !self.bool_lit_holds(#[trigger] c.bool_lit@[k]),
            decreases c.bool_lit@.len() - i,
        {
            let l = c.bool_lit[i];
            match self.get_bool(l.var) {
                Some(b) => {
                    if b != l.negated {
                        return true;
                    }
                },
                None => {},
            }
            i += 1;
        }
        let mut j: usize = 0;
        while j < c.linear_lit.len()
            invariant
                self.wf(),
                self.assigns(*c),
                j <= c.linear_lit@.len(),
                forall|k: int| 0 <= k < c.bool_lit@.len() ==> !self.bool_lit_holds(#[trigger] c.bool_lit@[k]),
                forall|k: int| 0 <= k < j ==> !(#[trigger] c.linear_lit@[k]).holds(self.int_vals()),
            decreases c.linear_lit@.len() - j,
        {
            let lit = &c.linear_lit[j];
            proof {
                assert forall|t: int| 0 <= t < lit.sum.term@.len() implies self.int_at((#[trigger] lit.sum.term@[t]).0.0 as int) is Some by {
                    assert(self.int_at((c.linear_lit@[j as int].sum.term@[t]).0.0 as int) is Some);
                }
            }
            if self.eval_linear_lit(lit) {
                return true;
            }
            j += 1;
        }
        false
    }
}

/// The clauses of `norm` all hold.
pub open spec fn constraints_hold(a: Assignment, norm: NormCSP) -> bool {
    forall|i: int| 0 <= i < norm.constraints@.len() ==> a.constraint_holds(#[trigger] norm.constraints@[i])
}

/// `s` holds both ends of each edge between active vertices, or neither.
pub open spec fn active_closed(active: Seq<bool>, edges: Seq<(usize, usize)>, s: Set<int>) -> bool {
    forall|e: int|
        0 <= e < edges.len() && (#[trigger] edges[e]).0 < active.len() && edges[e].1 < active.len()
            && active[edges[e].0 as int] && active[edges[e].1 as int] ==> (s.contains(edges[e].0 as int) <==> s.contains(
            edges[e].1 as int,
        ))
}

/// The active vertices are connected through edges between active
/// vertices: a set closed under those edges that holds one active vertex
/// holds them all.
pub open spec fn active_connected(active: Seq<bool>, edges: Seq<(usize, usize)>) -> bool {
    forall|s: Set<int>, i: int, j: int|
        #![trigger active_closed(active, edges, s), s.contains(i), s.contains(j)]
        active_closed(active, edges, s) && 0 <= i < active.len() && 0 <= j < active.len() && active[i] && active[j]
            && s.contains(i) ==> s.contains(j)
}

/// The number of entries that are `true`.
spec fn count_true(s: Seq<bool>) -> nat
    decreases s.len(),
{
    if s.len() == 0 {
        0
    } else {
        count_true(s.drop_last()) + if s.last() { 1nat } else { 0nat }
    }
}

proof fn lemma_count_true_bound(s: Seq<bool>)
    ensures
        count_true(s) <= s.len(),
    decreases s.len(),
{
    if s.len() > 0 {
        lemma_count_true_bound(s.drop_last());
    }
}

proof fn lemma_count_true_set(s: Seq<bool>, i: int)
    requires
        0 <= i < s.len(),
        !s[i],
    ensures
        count_true(s.update(i, true)) == count_true(s) + 1,
    decreases s.len(),
{
    if i < s.len() - 1 {
        assert(s.update(i, true).drop_last() =~= s.drop_last().update(i, true));
        lemma_count_true_set(s.drop_last(), i);
    } else {
        assert(s.update(i, true).drop_last() =~= s.drop_last());
    }
}

proof fn lemma_count_true_pos(s: Seq<bool>, i: int)
    requires
        0 <= i < s.len(),
        s[i],
    ensures
        count_true(s) >= 1,
    decreases s.len(),
{
    if i < s.len() - 1 {
        lemma_count_true_pos(s.drop_last(), i);
    }
}

/// Every position marked in `reached` is in each set closed under the edges
/// between active vertices that holds `start`.
spec fn reach_sound(active: Seq<bool>, edges: Seq<(usize, usize)>, reached: Seq<bool>, start: int) -> bool {
    forall|s: Set<int>, q: int|
        #![trigger active_closed(active, edges, s), reached[q]]
        active_closed(active, edges, s) && s.contains(start) && 0 <= q < reached.len() && reached[q] ==> s.contains(q)
}

/// The set of positions of `reached` that are `true`.
spec fn reached_set(reached: Seq<bool>) -> Set<int> {
    Set::new(|i: int| 0 <= i < reached.len() && reached[i])
}

/// Marks, in `n` rounds, every active vertex reachable from the first
/// active vertex through edges between active vertices, and tells whether
/// all active vertices were reached.
fn active_vertices_connected(active: &Vec<bool>, edges: &Vec<(usize, usize)>) -> (r: bool)
    ensures
        r == active_connected(active@, edges@),
{
    let n = active.len();
    let mut start: usize = n;
    let mut i: usize = 0;
    while i < n
        invariant
            i <= n,
            n == active@.len(),
            start <= n,
            start < n ==> active@[start as int],
            start == n ==> forall|k: int| 0 <= k < i ==> !active@[k],
        decreases n - i,
    {
        if active[i] && start == n {
            start = i;
        }
        i += 1;
    }
    if start == n {
        return true;
    }
    let mut reached: Vec<bool> = Vec::new();
    let mut k: usize = 0;
    while k < n
        invariant
            k <= n,
            start < n,
            reached@.len() == k,
            forall|q: int| 0 <= q < k ==> reached@[q] == (q == start),
        decreases n - k,
    {
        reached.push(k == start);
        k += 1;
    }
    proof {
        lemma_count_true_pos(reached@, start as int);
    }
    let mut round: usize = 0;
    while round < n
        invariant
            round <= n,
            reached@.len() == n,
            n == active@.len(),
            start < n,
            reached@[start as int],
            reach_sound(active@, edges@, reached@, start as int),
            active_closed(active@, edges@, reached_set(reached@)) || count_true(reached@) >= round + 1,
        decreases n - round,
    {
        let ghost r0 = reached@;
        let ghost mut changed = false;
        let mut e: usize = 0;
        while e < edges.len()
            invariant
                e <= edges@.len(),
                reached@.len() == n,
                n == active@.len(),
                start < n,
                reached@[start as int],
                reach_sound(active@, edges@, reached@, start as int),
                !changed ==> reached@ == r0,
                changed ==> count_true(reached@) > count_true(r0),
                active_closed(active@, edges@, reached_set(r0)) ==> !changed,
                !changed ==> forall|x: int|
                    0 <= x < e && (#[trigger] edges@[x]).0 < n && edges@[x].1 < n && active@[edges@[x].0 as int]
                        && active@[edges@[x].1 as int] ==> (reached@[edges@[x].0 as int] <==> reached@[edges@[x].1 as int]),
            decreases edges@.len() - e,
        {
            let (u, v) = edges[e];
            if u < n && v < n && active[u] && active[v] {
                if reached[u] && !reached[v] {
                    proof {
                        if active_closed(active@, edges@, reached_set(r0)) {
                            assert(reached_set(r0).contains(u as int));
                            assert(edges@[e as int] == (u, v));
                        }
                        lemma_count_true_set(reached@, v as int);
                        assert forall|s: Set<int>, q: int|
                            #![trigger active_closed(active@, edges@, s), reached@.update(v as int, true)[q]]
                            active_closed(active@, edges@, s) && s.contains(start as int) && 0 <= q < n && reached@.update(v as int, true)[q]
                                implies s.contains(q) by {
                            if q == v {
                                assert(reached@[u as int]);
                                assert(edges@[e as int] == (u, v));
                                assert(s.contains(u as int));
                            } else {
                                assert(reached@[q]);
                            }
                        }
                        changed = true;
                    }
                    reached.set(v, true);
                } else if reached[v] && !reached[u] {
                    proof {
                        if active_closed(active@, edges@, reached_set(r0)) {
                            assert(reached_set(r0).contains(v as int));
                            assert(edges@[e as int] == (u, v));
                        }
                        lemma_count_true_set(reached@, u as int);
                        assert forall|s: Set<int>, q: int|
                            #![trigger active_closed(active@, edges@, s), reached@.update(u as int, true)[q]]
                            active_closed(active@, edges@, s) && s.contains(start as int) && 0 <= q < n && reached@.update(u as int, true)[q]
                                implies s.contains(q) by {
                            if q == u {
                                assert(reached@[v as int]);
                                assert(edges@[e as int] == (u, v));
                                assert(s.contains(v as int));
                            } else {
                                assert(reached@[q]);
                            }
                        }
                        changed = true;
                    }
                    reached.set(u, true);
                }
            }
            e += 1;
        }
        proof {
            if !changed {
                assert forall|x: int|
                    0 <= x < edges@.len() && (#[trigger] edges@[x]).0 < active@.len() && edges@[x].1 < active@.len()
                        && active@[edges@[x].0 as int] && active@[edges@[x].1 as int] implies (reached_set(reached@).contains(edges@[x].0 as int)
                        <==> reached_set(reached@).contains(edges@[x].1 as int)) by {
                }
            }
        }
        round += 1;
    }
    proof {
        lemma_count_true_bound(reached@);
        assert(active_closed(active@, edges@, reached_set(reached@)));
    }
    let mut i: usize = 0;
    while i < n
        invariant
            i <= n,
            n == active@.len(),
            reached@.len() == n,
            start < n,
            active@[start as int],
            reached@[start as int],
            reach_sound(active@, edges@, reached@, start as int),
            active_closed(active@, edges@, reached_set(reached@)),
            forall|q: int| 0 <= q < i && active@[q] ==> reached@[q],
        decreases n - i,
    {
        if active[i] && !reached[i] {
            proof {
                let s = reached_set(reached@);
                assert(s.contains(start as int));
                assert(!s.contains(i as int));
                assert(active_closed(active@, edges@, s));
            }
            return false;
        }
        i += 1;
    }
    proof {
        assert forall|s: Set<int>, a: int, b: int|
            #![trigger active_closed(active@, edges@, s), s.contains(a), s.contains(b)]
            active_closed(active@, edges@, s) && 0 <= a < active@.len() && 0 <= b < active@.len() && active@[a] && active@[b]
                && s.contains(a) implies s.contains(b) by {
            if !s.contains(start as int) {
                let c = Set::new(|x: int| !s.contains(x));
                assert(active_closed(active@, edges@, c));
                assert(c.contains(start as int));
                assert(reached@[a]);
                assert(c.contains(a));
            } else {
                assert(reached@[b]);
            }
        }
    }
    true
}

/// Which vertices the literals make active under `a`.
pub open spec fn active_of(a: Assignment, lits: Seq<BoolLit>) -> Seq<bool> {
    Seq::new(lits.len(), |k: int| a.bool_lit_holds(lits[k]))
}

/// What an extra constraint states of the values.
pub open spec fn extra_holds(a: Assignment, e: ExtraConstraint) -> bool {
    match e {
        ExtraConstraint::ActiveVerticesConnected(lits, edges) => active_connected(active_of(a, lits@), edges@),
        ExtraConstraint::Mul(x, y, m) => a.int_vals()[x.0 as int] * a.int_vals()[y.0 as int] == a.int_vals()[m.0 as int],
        ExtraConstraint::ExtensionSupports(vars, supports) => exists|r: int|
            0 <= r < supports@.len() && row_matches(#[trigger] supports@[r]@, vars@, a.int_vals()),
        _ => true,
    }
}

/// The values agree with the row wherever the row gives one.
pub open spec fn row_matches(row: Seq<Option<i32>>, vars: Seq<IntVar>, vals: Seq<int>) -> bool {
    forall|i: int| 0 <= i < vars.len() ==> (#[trigger] row[i]) is None || row[i]->0 as int == vals[vars[i].0 as int]
}

/// Every variable that a clause or an extra constraint of `norm` mentions
/// occurs in the lists; there is no region-division constraint, and every
/// row of an extension constraint covers its variables.
pub open spec fn lists_cover(norm: NormCSP, bool_vars: Seq<BoolVar>, int_vars: Seq<IntVar>) -> bool {
    &&& forall|i: int, k: int|
        0 <= i < norm.constraints@.len() && 0 <= k < norm.constraints@[i].bool_lit@.len() ==> bool_vars.contains(
            (#[trigger] norm.constraints@[i].bool_lit@[k]).var,
        )
    &&& forall|i: int, k: int, t: int|
        0 <= i < norm.constraints@.len() && 0 <= k < norm.constraints@[i].linear_lit@.len() && 0 <= t
            < norm.constraints@[i].linear_lit@[k].sum.term@.len() ==> int_vars.contains(
            (#[trigger] norm.constraints@[i].linear_lit@[k].sum.term@[t]).0,
        )
    &&& forall|i: int| 0 <= i < norm.extra_constraints@.len() ==> extra_covered(#[trigger] norm.extra_constraints@[i], bool_vars, int_vars)
}

pub open spec fn extra_covered(e: ExtraConstraint, bool_vars: Seq<BoolVar>, int_vars: Seq<IntVar>) -> bool {
    match e {
        ExtraConstraint::ActiveVerticesConnected(lits, _) => forall|k: int| 0 <= k < lits@.len() ==> bool_vars.contains((#[trigger] lits@[k]).var),
        ExtraConstraint::Mul(x, y, m) => int_vars.contains(x) && int_vars.contains(y) && int_vars.contains(m),
        ExtraConstraint::ExtensionSupports(vars, supports) => (forall|k: int| 0 <= k < vars@.len() ==> int_vars.contains(#[trigger] vars@[k]))
            && forall|r: int| 0 <= r < supports@.len() ==> (#[trigger] supports@[r])@.len() >= vars@.len(),
        ExtraConstraint::GraphDivision(_, _, _, _) => false,
    }
}

/// Every variable in the lists has a value.
pub open spec fn assigns_lists(a: Assignment, bool_vars: Seq<BoolVar>, int_vars: Seq<IntVar>) -> bool {
    &&& forall|k: int| 0 <= k < bool_vars.len() ==> a.bool_at((#[trigger] bool_vars[k]).0 as int) is Some
    &&& forall|k: int| 0 <= k < int_vars.len() ==> a.int_at((#[trigger] int_vars[k]).0 as int) is Some
}

/// `x` and `y` give each listed variable the same value.
pub open spec fn agree_on_lists(x: Assignment, y: Assignment, bool_vars: Seq<BoolVar>, int_vars: Seq<IntVar>) -> bool {
    &&& forall|k: int| 0 <= k < bool_vars.len() ==> x.bool_at((#[trigger] bool_vars[k]).0 as int) == y.bool_at(bool_vars[k].0 as int)
    &&& forall|k: int| 0 <= k < int_vars.len() ==> x.int_at((#[trigger] int_vars[k]).0 as int) == y.int_at(int_vars[k].0 as int)
}

/// `a` satisfies every clause and every extra constraint of `norm`.
pub open spec fn satisfies(a: Assignment, norm: NormCSP) -> bool {
    &&& constraints_hold(a, norm)
    &&& forall|i: int| 0 <= i < norm.extra_constraints@.len() ==> extra_holds(a, #[trigger] norm.extra_constraints@[i])
}

/// No variable occurs twice in a list.
pub open spec fn lists_distinct(bool_vars: Seq<BoolVar>, int_vars: Seq<IntVar>) -> bool {
    &&& forall|a: int, b: int| 0 <= a < b < bool_vars.len() ==> bool_vars[a] != bool_vars[b]
    &&& forall|a: int, b: int| 0 <= a < b < int_vars.len() ==> int_vars[a] != int_vars[b]
}

/// Two assignments that agree on the listed variables, which cover what
/// `norm` mentions, satisfy it alike.
proof fn lemma_satisfies_agree(x: Assignment, y: Assignment, norm: NormCSP, bool_vars: Seq<BoolVar>, int_vars: Seq<IntVar>)
    requires
        x.wf(),
        y.wf(),
        lists_cover(norm, bool_vars, int_vars),
        assigns_lists(x, bool_vars, int_vars),
        assigns_lists(y, bool_vars, int_vars),
        agree_on_lists(x, y, bool_vars, int_vars),
    ensures
        satisfies(x, norm) == satisfies(y, norm),
{
    x.lemma_int_vals();
    y.lemma_int_vals();
    assert forall|v: IntVar| int_vars.contains(v) implies x.int_vals()[v.0 as int] == y.int_vals()[v.0 as int] by {
        let k = choose|k: int| 0 <= k < int_vars.len() && int_vars[k] == v;
        assert(x.int_at(int_vars[k].0 as int) == y.int_at(int_vars[k].0 as int));
        assert(x.int_at(v.0 as int) is Some);
    }
    assert forall|v: BoolVar| bool_vars.contains(v) implies x.bool_at(v.0 as int) == y.bool_at(v.0 as int) by {
        let k = choose|k: int| 0 <= k < bool_vars.len() && bool_vars[k] == v;
        assert(x.bool_at(bool_vars[k].0 as int) == y.bool_at(bool_vars[k].0 as int));
    }
    assert forall|i: int| 0 <= i < norm.constraints@.len() implies x.constraint_holds(#[trigger] norm.constraints@[i]) == y.constraint_holds(norm.constraints@[i]) by {
        let c = norm.constraints@[i];
        assert forall|k: int| 0 <= k < c.bool_lit@.len() implies x.bool_lit_holds(#[trigger] c.bool_lit@[k]) == y.bool_lit_holds(c.bool_lit@[k]) by {
            assert(bool_vars.contains(norm.constraints@[i].bool_lit@[k].var));
        }
        assert forall|k: int| 0 <= k < c.linear_lit@.len() implies (#[trigger] c.linear_lit@[k]).holds(x.int_vals()) == c.linear_lit@[k].holds(y.int_vals()) by {
            let t = c.linear_lit@[k].sum.term@;
            assert forall|j: int| 0 <= j < t.len() implies x.int_vals()[(#[trigger] t[j]).0.0 as int] == y.int_vals()[t[j].0.0 as int] by {
                assert(int_vars.contains(norm.constraints@[i].linear_lit@[k].sum.term@[j].0));
            }
            lemma_terms_value_agree(t, x.int_vals(), y.int_vals());
        }
        if x.constraint_holds(c) {
            if exists|k: int| 0 <= k < c.bool_lit@.len() && x.bool_lit_holds(#[trigger] c.bool_lit@[k]) {
                let k = choose|k: int| 0 <= k < c.bool_lit@.len() && x.bool_lit_holds(#[trigger] c.bool_lit@[k]);
                assert(y.bool_lit_holds(c.bool_lit@[k]));
            } else {
                let k = choose|k: int| 0 <= k < c.linear_lit@.len() && (#[trigger] c.linear_lit@[k]).holds(x.int_vals());
                assert(c.linear_lit@[k].holds(y.int_vals()));
            }
        }
        if y.constraint_holds(c) {
            if exists|k: int| 0 <= k < c.bool_lit@.len() && y.bool_lit_holds(#[trigger] c.bool_lit@[k]) {
                let k = choose|k: int| 0 <= k < c.bool_lit@.len() && y.bool_lit_holds(#[trigger] c.bool_lit@[k]);
                assert(x.bool_lit_holds(c.bool_lit@[k]));
            } else {
                let k = choose|k: int| 0 <= k < c.linear_lit@.len() && (#[trigger] c.linear_lit@[k]).holds(y.int_vals());
                assert(c.linear_lit@[k].holds(x.int_vals()));
            }
        }
    }
    assert forall|i: int| 0 <= i < norm.extra_constraints@.len() implies extra_holds(x, #[trigger] norm.extra_constraints@[i]) == extra_holds(y, norm.extra_constraints@[i]) by {
        assert(extra_covered(norm.extra_constraints@[i], bool_vars, int_vars));
        match norm.extra_constraints@[i] {
            ExtraConstraint::ActiveVerticesConnected(lits, edges) => {
                assert(active_of(x, lits@) =~= active_of(y, lits@)) by {
                    assert forall|k: int| 0 <= k < lits@.len() implies x.bool_lit_holds(#[trigger] lits@[k]) == y.bool_lit_holds(lits@[k]) by {
                        assert(bool_vars.contains(lits@[k].var));
                    }
                }
            },
            ExtraConstraint::ExtensionSupports(vars, supports) => {
                assert forall|r: int| 0 <= r < supports@.len() implies row_matches(#[trigger] supports@[r]@, vars@, x.int_vals()) == row_matches(supports@[r]@, vars@, y.int_vals()) by {
                    assert forall|q: int| 0 <= q < vars@.len() implies x.int_vals()[(#[trigger] vars@[q]).0 as int] == y.int_vals()[vars@[q].0 as int] by {
                        assert(int_vars.contains(vars@[q]));
                    }
                }
                if extra_holds(x, norm.extra_constraints@[i]) {
                    let r = choose|r: int| 0 <= r < supports@.len() && row_matches(#[trigger] supports@[r]@, vars@, x.int_vals());
                    assert(row_matches(supports@[r]@, vars@, y.int_vals()));
                }
                if extra_holds(y, norm.extra_constraints@[i]) {
                    let r = choose|r: int| 0 <= r < supports@.len() && row_matches(#[trigger] supports@[r]@, vars@, y.int_vals());
                    assert(row_matches(supports@[r]@, vars@, x.int_vals()));
                }
            },
            _ => {},
        }
    }
}

/// Whether `assignment`, which gives every variable of `norm` a value,
/// satisfies every clause and extra constraint of `norm`.
pub fn is_norm_csp_satisfied(assignment: &Assignment, norm: &NormCSP) -> (r: bool)
    requires
        assignment.wf(),
        norm_vars_in_range(*norm),
        assigns_lists(
            *assignment,
            Seq::new(norm.vars.num_bool_var as nat, |i: int| BoolVar(i as usize)),
            Seq::new(norm.vars.ni(), |i: int| IntVar(i as usize)),
        ),
    ensures
        r == satisfies(*assignment, *norm),
{
    satisfied_for_lists(
        assignment,
        norm,
        Ghost(Seq::new(norm.vars.num_bool_var as nat, |i: int| BoolVar(i as usize))),
        Ghost(Seq::new(norm.vars.ni(), |i: int| IntVar(i as usize))),
    )
}

fn satisfied_for_lists(assignment: &Assignment, norm: &NormCSP, Ghost(bool_vars): Ghost<Seq<BoolVar>>, Ghost(int_vars): Ghost<Seq<IntVar>>) -> (r: bool)
    requires
        assignment.wf(),
        lists_cover(*norm, bool_vars, int_vars),
        assigns_lists(*assignment, bool_vars, int_vars),
    ensures
        r == satisfies(*assignment, *norm),
{
    let mut i: usize = 0;
    while i < norm.constraints.len()
        invariant
            assignment.wf(),
            lists_cover(*norm, bool_vars, int_vars),
            assigns_lists(*assignment, bool_vars, int_vars),
            i <= norm.constraints@.len(),
            forall|k: int| 0 <= k < i ==> assignment.constraint_holds(#[trigger] norm.constraints@[k]),
        decreases norm.constraints@.len() - i,
    {
        let c = &norm.constraints[i];
        proof {
            assert forall|k: int| 0 <= k < c.bool_lit@.len() implies assignment.bool_at((#[trigger] c.bool_lit@[k]).var.0 as int) is Some by {
                assert(bool_vars.contains(norm.constraints@[i as int].bool_lit@[k].var));
            }
            assert forall|k: int, t: int| 0 <= k < c.linear_lit@.len() && 0 <= t < c.linear_lit@[k].sum.term@.len() implies assignment.int_at(
                (#[trigger] c.linear_lit@[k].sum.term@[t]).0.0 as int) is Some by {
                assert(int_vars.contains(norm.constraints@[i as int].linear_lit@[k].sum.term@[t].0));
            }
        }
        if !assignment.eval_constraint(c) {
            return false;
        }
        i += 1;
    }
    let mut e: usize = 0;
    while e < norm.extra_constraints.len()
        invariant
            assignment.wf(),
            lists_cover(*norm, bool_vars, int_vars),
            assigns_lists(*assignment, bool_vars, int_vars),
            constraints_hold(*assignment, *norm),
            e <= norm.extra_constraints@.len(),
            forall|k: int| 0 <= k < e ==> extra_holds(*assignment, #[trigger] norm.extra_constraints@[k]),
        decreases norm.extra_constraints@.len() - e,
    {
        proof {
            assignment.lemma_int_vals();
        }
        assert(extra_covered(norm.extra_constraints@[e as int], bool_vars, int_vars));
        match &norm.extra_constraints[e] {
            ExtraConstraint::ActiveVerticesConnected(lits, edges) => {
                let mut active: Vec<bool> = Vec::new();
                let mut k: usize = 0;
                while k < lits.len()
                    invariant
                        assignment.wf(),
                        assigns_lists(*assignment, bool_vars, int_vars),
                        forall|q: int| 0 <= q < lits@.len() ==> bool_vars.contains((#[trigger] lits@[q]).var),
                        k <= lits@.len(),
                        active@ == active_of(*assignment, lits@).take(k as int),
                    decreases lits@.len() - k,
                {
                    let l = lits[k];
                    assert(bool_vars.contains(lits@[k as int].var));
                    let b = match assignment.get_bool(l.var) {
                        Some(b) => b,
                        None => false,
                    };
                    proof {
                        let q = choose|q: int| 0 <= q < bool_vars.len() && bool_vars[q] == l.var;
                        assert(assignment.bool_at(bool_vars[q].0 as int) is Some);
                    }
                    active.push(b != l.negated);
                    proof {
                        assert(active@ =~= active_of(*assignment, lits@).take(k + 1));
                    }
                    k += 1;
                }
                proof {
                    assert(active@ =~= active_of(*assignment, lits@));
                }
                if !active_vertices_connected(&active, edges) {
                    return false;
                }
            },
            ExtraConstraint::Mul(x, y, m) => {
                let vx = match assignment.get_int(*x) { Some(v) => v, None => 0 };
                let vy = match assignment.get_int(*y) { Some(v) => v, None => 0 };
                let vm = match assignment.get_int(*m) { Some(v) => v, None => 0 };
                proof {
                    super::lemma_i32_product(vx, vy);
                }
                if (vx as i64) * (vy as i64) != vm as i64 {
                    proof {
                        assert(!extra_holds(*assignment, norm.extra_constraints@[e as int]));
                    }
                    return false;
                }
            },
            ExtraConstraint::ExtensionSupports(vars, supports) => {
                let mut found = false;
                let mut r: usize = 0;
                while r < supports.len()
                    invariant
                        assignment.wf(),
                        assigns_lists(*assignment, bool_vars, int_vars),
                        forall|k: int| 0 <= k < vars@.len() ==> int_vars.contains(#[trigger] vars@[k]),
                        forall|q: int| 0 <= q < supports@.len() ==> (#[trigger] supports@[q])@.len() >= vars@.len(),
                        forall|i: int| (#[trigger] assignment.int_at(i)) is Some ==> 0 <= i < assignment.int_vals().len() && assignment.int_vals()[i] == assignment.int_at(i)->0 as int,
                        r <= supports@.len(),
                        found ==> exists|q: int| 0 <= q < supports@.len() && row_matches(#[trigger] supports@[q]@, vars@, assignment.int_vals()),
                        !found ==> forall|q: int| 0 <= q < r ==> !row_matches(#[trigger] supports@[q]@, vars@, assignment.int_vals()),
                    decreases supports@.len() - r,
                {
                    let row = &supports[r];
                    let mut ok = true;
                    let mut i: usize = 0;
                    while i < vars.len()
                        invariant
                            assignment.wf(),
                            assigns_lists(*assignment, bool_vars, int_vars),
                            forall|k: int| 0 <= k < vars@.len() ==> int_vars.contains(#[trigger] vars@[k]),
                            forall|i: int| (#[trigger] assignment.int_at(i)) is Some ==> 0 <= i < assignment.int_vals().len() && assignment.int_vals()[i] == assignment.int_at(i)->0 as int,
                            row@.len() >= vars@.len(),
                            *row == supports@[r as int],
                            i <= vars@.len(),
                            ok == forall|k: int| 0 <= k < i ==> (#[trigger] row@[k]) is None || row@[k]->0 as int == assignment.int_vals()[vars@[k].0 as int],
                        decreases vars@.len() - i,
                    {
                        assert(int_vars.contains(vars@[i as int]));
                        match row[i] {
                            Some(n) => {
                                let v = match assignment.get_int(vars[i]) { Some(v) => v, None => 0 };
                                if v != n {
                                    ok = false;
                                }
                            },
                            None => {},
                        }
                        i += 1;
                    }
                    if ok {
                        found = true;
                        assert(row_matches(supports@[r as int]@, vars@, assignment.int_vals()));
                    } else {
                        assert(!row_matches(supports@[r as int]@, vars@, assignment.int_vals()));
                    }
                    r += 1;
                }
                if !found {
                    proof {
                        assert(!extra_holds(*assignment, norm.extra_constraints@[e as int]));
                    }
                    return false;
                }
            },
            ExtraConstraint::GraphDivision(_, _, _, _) => {
                assert(false);
            },
        }
        e += 1;
    }
    true
}

/// The assignment giving `bool_vars[k]` the value `vb[k]` and `int_vars[k]`
/// the value `vi[k]`.
fn build_assignment(bool_vars: &Vec<BoolVar>, int_vars: &Vec<IntVar>, vb: &Vec<bool>, vi: &Vec<i32>) -> (r: Assignment)
    requires
        vb@.len() == bool_vars@.len(),
        vi@.len() == int_vars@.len(),
    ensures
        r.wf(),
        assigns_lists(r, bool_vars@, int_vars@),
        lists_distinct(bool_vars@, int_vars@) ==> forall|k: int| 0 <= k < bool_vars@.len() ==> r.bool_at((#[trigger] bool_vars@[k]).0 as int) == Some(vb@[k]),
        lists_distinct(bool_vars@, int_vars@) ==> forall|k: int| 0 <= k < int_vars@.len() ==> r.int_at((#[trigger] int_vars@[k]).0 as int) == Some(vi@[k]),
{
    let mut a = Assignment::new();
    let mut i: usize = 0;
    while i < bool_vars.len()
        invariant
            a.wf(),
            i <= bool_vars@.len(),
            vb@.len() == bool_vars@.len(),
            forall|k: int| 0 <= k < i ==> a.bool_at((#[trigger] bool_vars@[k]).0 as int) is Some,
            forall|k: int| #[trigger] a.int_at(k) == None::<i32>,
            lists_distinct(bool_vars@, int_vars@) ==> forall|k: int| 0 <= k < i ==> a.bool_at((#[trigger] bool_vars@[k]).0 as int) == Some(vb@[k]),
        decreases bool_vars@.len() - i,
    {
        a.set_bool(bool_vars[i], vb[i]);
        proof {
            if lists_distinct(bool_vars@, int_vars@) {
                assert forall|k: int| 0 <= k < i implies a.bool_at((#[trigger] bool_vars@[k]).0 as int) == Some(vb@[k]) by {
                    assert(bool_vars@[k] != bool_vars@[i as int]);
                }
            }
        }
        i += 1;
    }
    let mut j: usize = 0;
    while j < int_vars.len()
        invariant
            a.wf(),
            j <= int_vars@.len(),
            vi@.len() == int_vars@.len(),
            forall|k: int| 0 <= k < bool_vars@.len() ==> a.bool_at((#[trigger] bool_vars@[k]).0 as int) is Some,
            forall|k: int| 0 <= k < j ==> a.int_at((#[trigger] int_vars@[k]).0 as int) is Some,
            lists_distinct(bool_vars@, int_vars@) ==> forall|k: int| 0 <= k < bool_vars@.len() ==> a.bool_at((#[trigger] bool_vars@[k]).0 as int) == Some(vb@[k]),
            lists_distinct(bool_vars@, int_vars@) ==> forall|k: int| 0 <= k < j ==> a.int_at((#[trigger] int_vars@[k]).0 as int) == Some(vi@[k]),
        decreases int_vars@.len() - j,
    {
        a.set_int(int_vars[j], vi[j]);
        proof {
            if lists_distinct(bool_vars@, int_vars@) {
                assert forall|k: int| 0 <= k < j implies a.int_at((#[trigger] int_vars@[k]).0 as int) == Some(vi@[k]) by {
                    assert(int_vars@[k] != int_vars@[j as int]);
                }
            }
        }
        j += 1;
    }
    a
}

/// `a` gives the first listed variables the values `vb` and `vi`.
pub open spec fn extends_values(a: Assignment, bool_vars: Seq<BoolVar>, int_vars: Seq<IntVar>, vb: Seq<bool>, vi: Seq<i32>) -> bool {
    &&& forall|k: int| 0 <= k < vb.len() ==> a.bool_at((#[trigger] bool_vars[k]).0 as int) == Some(vb[k])
    &&& forall|k: int| 0 <= k < vi.len() ==> a.int_at((#[trigger] int_vars[k]).0 as int) == Some(vi[k])
}

/// Each listed integer variable has a value of its list in `domains`.
pub open spec fn values_in(a: Assignment, int_vars: Seq<IntVar>, domains: Seq<Vec<i32>>) -> bool {
    forall|k: int| 0 <= k < int_vars.len() ==> seq_has(domains[k]@, a.int_at((#[trigger] int_vars[k]).0 as int)->0 as int)
}

/// One of the assignments `rs` agrees with `a` on the listed variables.
pub open spec fn found_among(rs: Seq<Assignment>, a: Assignment, bool_vars: Seq<BoolVar>, int_vars: Seq<IntVar>) -> bool {
    exists|k: int| 0 <= k < rs.len() && agree_on_lists(#[trigger] rs[k], a, bool_vars, int_vars)
}

proof fn lemma_found_grows(rs: Seq<Assignment>, ts: Seq<Assignment>, a: Assignment, bool_vars: Seq<BoolVar>, int_vars: Seq<IntVar>)
    requires
        rs.is_prefix_of(ts),
        found_among(rs, a, bool_vars, int_vars),
    ensures
        found_among(ts, a, bool_vars, int_vars),
{
    let k = choose|k: int| 0 <= k < rs.len() && agree_on_lists(#[trigger] rs[k], a, bool_vars, int_vars);
    assert(ts[k] == rs[k]);
}

/// Collects into `out` every completion of `vb` and `vi` (Boolean values
/// first, then integer values from `domains`) that satisfies `norm`.
fn enumerate_assignments(
    norm: &NormCSP,
    bool_vars: &Vec<BoolVar>,
    int_vars: &Vec<IntVar>,
    domains: &Vec<Vec<i32>>,
    vb: &mut Vec<bool>,
    vi: &mut Vec<i32>,
    out: &mut Vec<Assignment>,
)
    requires
        lists_cover(*norm, bool_vars@, int_vars@),
        domains@.len() == int_vars@.len(),
        old(vb)@.len() <= bool_vars@.len(),
        old(vi)@.len() <= int_vars@.len(),
        old(vi)@.len() > 0 ==> old(vb)@.len() == bool_vars@.len(),
        forall|k: int| 0 <= k < old(out)@.len() ==> (#[trigger] old(out)@[k]).wf() && satisfies(old(out)@[k], *norm),
    ensures
        final(vb)@ == old(vb)@,
        final(vi)@ == old(vi)@,
        forall|k: int| 0 <= k < final(out)@.len() ==> (#[trigger] final(out)@[k]).wf() && satisfies(final(out)@[k], *norm),
        old(out)@.is_prefix_of(final(out)@),
        lists_distinct(bool_vars@, int_vars@) ==> forall|a: Assignment|
            a.wf() && assigns_lists(a, bool_vars@, int_vars@) && satisfies(a, *norm) && values_in(a, int_vars@, domains@)
                && extends_values(a, bool_vars@, int_vars@, old(vb)@, old(vi)@)
                ==> #[trigger] found_among(final(out)@, a, bool_vars@, int_vars@),
    decreases bool_vars@.len() + int_vars@.len() - old(vb)@.len() - old(vi)@.len(),
{
    let ghost vb0 = vb@;
    let ghost vi0 = vi@;
    let ghost out0 = out@;
    if vb.len() < bool_vars.len() {
        vb.push(false);
        enumerate_assignments(norm, bool_vars, int_vars, domains, vb, vi, out);
        let ghost out1 = out@;
        vb.pop();
        vb.push(true);
        enumerate_assignments(norm, bool_vars, int_vars, domains, vb, vi, out);
        vb.pop();
        assert(vb@ =~= old(vb)@);
        proof {
            if lists_distinct(bool_vars@, int_vars@) {
                assert forall|a: Assignment|
                    a.wf() && assigns_lists(a, bool_vars@, int_vars@) && satisfies(a, *norm) && values_in(a, int_vars@, domains@)
                        && extends_values(a, bool_vars@, int_vars@, vb0, vi0)
                        implies #[trigger] found_among(out@, a, bool_vars@, int_vars@) by {
                    let n = vb0.len() as int;
                    assert(a.bool_at(bool_vars@[n].0 as int) is Some);
                    let b = a.bool_at(bool_vars@[n].0 as int)->0;
                    assert(extends_values(a, bool_vars@, int_vars@, vb0.push(b), vi0)) by {
                        assert forall|k: int| 0 <= k < vb0.push(b).len() implies a.bool_at((#[trigger] bool_vars@[k]).0 as int) == Some(vb0.push(b)[k]) by {
                            if k < n {
                                assert(vb0.push(b)[k] == vb0[k]);
                            }
                        }
                    }
                    if !b {
                        assert(found_among(out1, a, bool_vars@, int_vars@));
                        lemma_found_grows(out1, out@, a, bool_vars@, int_vars@);
                    }
                }
            }
        }
    } else if vi.len() < int_vars.len() {
        let d = &domains[vi.len()];
        let ghost n = vi0.len() as int;
        let mut t: usize = 0;
        while t < d.len()
            invariant
                lists_cover(*norm, bool_vars@, int_vars@),
                domains@.len() == int_vars@.len(),
                vb@ == old(vb)@,
                vi@ == old(vi)@,
                vb0 == old(vb)@,
                vi0 == old(vi)@,
                n == vi0.len(),
                *d == domains@[n],
                vb@.len() == bool_vars@.len(),
                vi@.len() < int_vars@.len(),
                t <= d@.len(),
                forall|k: int| 0 <= k < out@.len() ==> (#[trigger] out@[k]).wf() && satisfies(out@[k], *norm),
                out0 == old(out)@,
                out0.is_prefix_of(out@),
                lists_distinct(bool_vars@, int_vars@) ==> forall|a: Assignment, t2: int|
                    a.wf() && assigns_lists(a, bool_vars@, int_vars@) && satisfies(a, *norm) && values_in(a, int_vars@, domains@)
                        && extends_values(a, bool_vars@, int_vars@, vb0, vi0) && 0 <= t2 < t
                        && a.int_at(int_vars@[n].0 as int) == Some(#[trigger] d@[t2])
                        ==> #[trigger] found_among(out@, a, bool_vars@, int_vars@),
            decreases d@.len() - t,
        {
            let ghost out_b = out@;
            vi.push(d[t]);
            enumerate_assignments(norm, bool_vars, int_vars, domains, vb, vi, out);
            vi.pop();
            assert(vi@ =~= old(vi)@);
            proof {
                if lists_distinct(bool_vars@, int_vars@) {
                    assert forall|a: Assignment, t2: int|
                        a.wf() && assigns_lists(a, bool_vars@, int_vars@) && satisfies(a, *norm) && values_in(a, int_vars@, domains@)
                            && extends_values(a, bool_vars@, int_vars@, vb0, vi0) && 0 <= t2 < t + 1
                            && a.int_at(int_vars@[n].0 as int) == Some(#[trigger] d@[t2])
                            implies #[trigger] found_among(out@, a, bool_vars@, int_vars@) by {
                        if t2 < t {
                            assert(found_among(out_b, a, bool_vars@, int_vars@));
                            lemma_found_grows(out_b, out@, a, bool_vars@, int_vars@);
                        } else {
                            assert(extends_values(a, bool_vars@, int_vars@, vb0, vi0.push(d@[t as int]))) by {
                                assert forall|k: int| 0 <= k < vi0.push(d@[t as int]).len() implies a.int_at((#[trigger] int_vars@[k]).0 as int) == Some(vi0.push(d@[t as int])[k]) by {
                                    if k < n {
                                        assert(vi0.push(d@[t as int])[k] == vi0[k]);
                                    }
                                }
                            }
                        }
                    }
                }
            }
            t += 1;
        }
        proof {
            if lists_distinct(bool_vars@, int_vars@) {
                assert forall|a: Assignment|
                    a.wf() && assigns_lists(a, bool_vars@, int_vars@) && satisfies(a, *norm) && values_in(a, int_vars@, domains@)
                        && extends_values(a, bool_vars@, int_vars@, vb0, vi0)
                        implies #[trigger] found_among(out@, a, bool_vars@, int_vars@) by {
                    assert(seq_has(domains@[n]@, a.int_at(int_vars@[n].0 as int)->0 as int));
                    let t2 = choose|t2: int| 0 <= t2 < d@.len() && d@[t2] == a.int_at(int_vars@[n].0 as int)->0 as int;
                    assert(a.int_at(int_vars@[n].0 as int) is Some);
                    assert(a.int_at(int_vars@[n].0 as int) == Some(d@[t2]));
                }
            }
        }
    } else {
        let b = build_assignment(bool_vars, int_vars, vb, vi);
        if satisfied_for_lists(&b, norm, Ghost(bool_vars@), Ghost(int_vars@)) {
            out.push(b);
        }
        proof {
            if lists_distinct(bool_vars@, int_vars@) {
                assert forall|a: Assignment|
                    a.wf() && assigns_lists(a, bool_vars@, int_vars@) && satisfies(a, *norm) && values_in(a, int_vars@, domains@)
                        && extends_values(a, bool_vars@, int_vars@, vb0, vi0)
                        implies #[trigger] found_among(out@, a, bool_vars@, int_vars@) by {
                    assert(agree_on_lists(b, a, bool_vars@, int_vars@));
                    lemma_satisfies_agree(b, a, *norm, bool_vars@, int_vars@);
                    assert(out@[out0.len() as int] == b);
                    assert(agree_on_lists(out@[out0.len() as int], a, bool_vars@, int_vars@));
                }
            }
        }
    }
}

/// Every assignment of the listed variables (Boolean ones to both values,
/// integer ones to their values) that satisfies `norm`.
pub fn norm_csp_all_assignments_for_vars(norm: &NormCSP, bool_vars: &Vec<BoolVar>, int_vars: &Vec<IntVar>) -> (r: Vec<Assignment>)
    requires
        norm.vars.wf(),
        lists_cover(*norm, bool_vars@, int_vars@),
        forall|k: int| 0 <= k < int_vars@.len() ==> (#[trigger] int_vars@[k]).0 < norm.vars.ni(),
    ensures
        forall|k: int| 0 <= k < r@.len() ==> (#[trigger] r@[k]).wf() && satisfies(r@[k], *norm),
        lists_distinct(bool_vars@, int_vars@) ==> forall|a: Assignment|
            a.wf() && assigns_lists(a, bool_vars@, int_vars@) && satisfies(a, *norm) && (forall|k: int|
                0 <= k < int_vars@.len() ==> norm.vars.int_var@[(#[trigger] int_vars@[k]).0 as int].contains(
                    a.int_at(int_vars@[k].0 as int)->0 as int,
                )) ==> #[trigger] found_among(r@, a, bool_vars@, int_vars@),
{
    let mut domains: Vec<Vec<i32>> = Vec::new();
    let mut k: usize = 0;
    while k < int_vars.len()
        invariant
            norm.vars.wf(),
            k <= int_vars@.len(),
            domains@.len() == k,
            forall|j: int| 0 <= j < int_vars@.len() ==> (#[trigger] int_vars@[j]).0 < norm.vars.ni(),
            forall|j: int, x: int| 0 <= j < k ==> (#[trigger] norm.vars.int_var@[int_vars@[j].0 as int].contains(x) <==> #[trigger] seq_has(domains@[j]@, x)),
        decreases int_vars@.len() - k,
    {
        assert(norm.vars.int_var@[int_vars@[k as int].0 as int].wf());
        domains.push(norm.vars.int_var(int_vars[k]).enumerate());
        k += 1;
    }
    let mut vb: Vec<bool> = Vec::new();
    let mut vi: Vec<i32> = Vec::new();
    let mut out: Vec<Assignment> = Vec::new();
    enumerate_assignments(norm, bool_vars, int_vars, &domains, &mut vb, &mut vi, &mut out);
    proof {
        if lists_distinct(bool_vars@, int_vars@) {
            assert forall|a: Assignment|
                a.wf() && assigns_lists(a, bool_vars@, int_vars@) && satisfies(a, *norm) && (forall|k: int|
                    0 <= k < int_vars@.len() ==> norm.vars.int_var@[(#[trigger] int_vars@[k]).0 as int].contains(
                        a.int_at(int_vars@[k].0 as int)->0 as int,
                    )) implies #[trigger] found_among(out@, a, bool_vars@, int_vars@) by {
                assert(values_in(a, int_vars@, domains@)) by {
                    assert forall|k: int| 0 <= k < int_vars@.len() implies seq_has(domains@[k]@, a.int_at((#[trigger] int_vars@[k]).0 as int)->0 as int) by {
                        assert(norm.vars.int_var@[int_vars@[k].0 as int].contains(a.int_at(int_vars@[k].0 as int)->0 as int));
                    }
                }
                assert(extends_values(a, bool_vars@, int_vars@, vb@, vi@));
            }
        }
    }
    out
}

/// The Boolean variables below `n`, in order.
pub open spec fn all_bool_vars(n: nat) -> Seq<BoolVar> {
    Seq::new(n, |i: int| BoolVar(i as usize))
}

/// The integer variables below `n`, in order.
pub open spec fn all_int_vars(n: nat) -> Seq<IntVar> {
    Seq::new(n, |i: int| IntVar(i as usize))
}

/// The variables that the clauses and extra constraints of `norm` mention
/// are variables of `norm`; there is no region-division constraint, and
/// every row of an extension constraint covers its variables.
pub open spec fn norm_vars_in_range(norm: NormCSP) -> bool {
    lists_cover(
        norm,
        Seq::new(norm.vars.num_bool_var as nat, |i: int| BoolVar(i as usize)),
        Seq::new(norm.vars.ni(), |i: int| IntVar(i as usize)),
    )
}

/// Every assignment of all variables of `norm` that satisfies it.
pub fn norm_csp_all_assignments(norm: &NormCSP) -> (r: Vec<Assignment>)
    requires
        norm.vars.wf(),
        norm_vars_in_range(*norm),
    ensures
        forall|k: int| 0 <= k < r@.len() ==> (#[trigger] r@[k]).wf() && satisfies(r@[k], *norm),
        forall|a: Assignment|
            a.wf() && a.covers_vars(norm.vars.num_bool_var as nat, norm.vars.ni()) && satisfies(a, *norm) && (forall|i: int|
                0 <= i < norm.vars.ni() ==> #[trigger] norm.vars.int_var@[i].contains(a.int_at(i)->0 as int))
                ==> #[trigger] found_among(r@, a, all_bool_vars(norm.vars.num_bool_var as nat), all_int_vars(norm.vars.ni())),
{
    let bool_vars = norm.vars.bool_vars_iter();
    let int_vars = norm.vars.int_vars_iter();
    assert(bool_vars@ =~= Seq::new(norm.vars.num_bool_var as nat, |i: int| BoolVar(i as usize)));
    assert(int_vars@ =~= Seq::new(norm.vars.ni(), |i: int| IntVar(i as usize)));
    let r = norm_csp_all_assignments_for_vars(norm, &bool_vars, &int_vars);
    proof {
        assert(bool_vars@ =~= all_bool_vars(norm.vars.num_bool_var as nat));
        assert(int_vars@ =~= all_int_vars(norm.vars.ni()));
        assert(lists_distinct(bool_vars@, int_vars@));
        {
            assert forall|a: Assignment|
                a.wf() && a.covers_vars(norm.vars.num_bool_var as nat, norm.vars.ni()) && satisfies(a, *norm) && (forall|i: int|
                    0 <= i < norm.vars.ni() ==> #[trigger] norm.vars.int_var@[i].contains(a.int_at(i)->0 as int))
                    implies #[trigger] found_among(r@, a, all_bool_vars(norm.vars.num_bool_var as nat), all_int_vars(norm.vars.ni())) by {
                assert(assigns_lists(a, bool_vars@, int_vars@));
                assert forall|k: int| 0 <= k < int_vars@.len() implies norm.vars.int_var@[(#[trigger] int_vars@[k]).0 as int].contains(
                    a.int_at(int_vars@[k].0 as int)->0 as int) by {
                    assert(int_vars@[k].0 == k);
                }
                assert(found_among(r@, a, bool_vars@, int_vars@));
            }
        }
    }
    r
}

} // verus!
