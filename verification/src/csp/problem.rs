use vstd::prelude::*;

use super::propagation::{negated_var, lemma_masks_small, lemma_refine_weight, masks_of, masks_refine, masks_weight};
use super::repr::{bool_ok, eval_bool, BoolExpr, BoolVar, Env, IntVar};
use super::stmt::{lemma_stmt_equiv_refl, lemma_stmt_equiv_trans, lemma_stmt_ok_mono, stmt_equiv, stmt_ok};
use super::{mask_allows, BoolVarData, BoolVarStatus, CSPVars, IntVarData, Stmt};
use crate::domain::Domain;
use crate::util::{status_join, ConvertMap, UpdateStatus};

verus! {

/// The variable of a constraint that is a bare Boolean literal, and
/// whether the literal is negated.
pub open spec fn bare_lit(s: Stmt) -> Option<(BoolVar, bool)> {
    match s {
        Stmt::Expr(BoolExpr::Var(v)) => Some((v, false)),
        Stmt::Expr(BoolExpr::Not(x)) => match *x {
            BoolExpr::Var(v) => Some((v, true)),
            _ => None,
        },
        _ => None,
    }
}


/// The state of an integer variable after propagation.
#[derive(Clone, Copy, Debug, PartialEq, Eq, Structural)]
pub enum IntVarStatus {
    Infeasible,
    Fixed(i32),
    /// Not fixed; the value is one the variable may still take.
    Unfixed(i32),
}

/// `s` holds under `env` as far as a plain Boolean constraint goes; the
/// other kinds of constraint are left to the solver.
pub open spec fn stmt_expr_holds(s: Stmt, env: Env) -> bool {
    match s {
        Stmt::Expr(e) => eval_bool(e, env),
        _ => true,
    }
}

/// Taking in the plain Boolean constraint `s` changes nothing (the other
/// kinds of statement are not propagated).
pub open spec fn stmt_stable(vars: CSPVars, s: Stmt) -> bool {
    match s {
        Stmt::Expr(e) => vars.prop_stable(e, true),
        _ => true,
    }
}

/// Every plain Boolean constraint of `cs` holds under `env`.
pub open spec fn exprs_hold(cs: Seq<Stmt>, env: Env) -> bool {
    forall|i: int| 0 <= i < cs.len() ==> stmt_expr_holds(#[trigger] cs[i], env)
}

/// Constraints `b` are those of `a`, one for one, up to the values of their
/// expressions under `env`.
pub open spec fn stmts_equiv(a: Seq<Stmt>, b: Seq<Stmt>, env: Env) -> bool {
    &&& a.len() == b.len()
    &&& forall|i: int| 0 <= i < a.len() ==> stmt_equiv(#[trigger] a[i], b[i], env)
}

/// Every constraint list is equivalent to itself.
pub proof fn lemma_stmts_equiv_refl(a: Seq<Stmt>, env: Env)
    ensures
        stmts_equiv(a, a, env),
{
    assert forall|i: int| 0 <= i < a.len() implies stmt_equiv(#[trigger] a[i], a[i], env) by {
        lemma_stmt_equiv_refl(a[i], env);
    }
}

/// Equivalence of constraint lists chains.
pub proof fn lemma_stmts_equiv_trans(a: Seq<Stmt>, b: Seq<Stmt>, c: Seq<Stmt>, env: Env)
    requires
        stmts_equiv(a, b, env),
        stmts_equiv(b, c, env),
    ensures
        stmts_equiv(a, c, env),
{
    assert forall|i: int| 0 <= i < a.len() implies stmt_equiv(#[trigger] a[i], c[i], env) by {
        lemma_stmt_equiv_trans(a[i], b[i], c[i], env);
    }
}

/// Equivalent constraint lists agree on their plain Boolean constraints.
pub proof fn lemma_stmts_equiv_exprs(a: Seq<Stmt>, b: Seq<Stmt>, env: Env)
    requires
        stmts_equiv(a, b, env),
    ensures
        exprs_hold(a, env) == exprs_hold(b, env),
{
    if exprs_hold(a, env) {
        assert forall|i: int| 0 <= i < b.len() implies stmt_expr_holds(#[trigger] b[i], env) by {
            assert(stmt_equiv(a[i], b[i], env));
            assert(stmt_expr_holds(a[i], env));
        }
    }
    if exprs_hold(b, env) {
        assert forall|i: int| 0 <= i < a.len() implies stmt_expr_holds(#[trigger] a[i], env) by {
            assert(stmt_equiv(a[i], b[i], env));
            assert(stmt_expr_holds(b[i], env));
        }
    }
}

/// A constraint satisfaction problem: variables with what is known of them,
/// and the constraints over them.
pub struct CSP {
    pub vars: CSPVars,
    pub constraints: Vec<Stmt>,
    pub inconsistent: bool,
    pub prenormalize_vars: Vec<BoolVar>,
}

impl CSP {
    pub open spec fn nb(&self) -> nat {
        self.vars.nb()
    }

    pub open spec fn ni(&self) -> nat {
        self.vars.ni()
    }

    /// Variables are well formed, constraints and marked variables refer to
    /// existing variables, and a problem not known to be inconsistent has no
    /// Boolean variable without a possible value.
    pub open spec fn wf(&self) -> bool {
        &&& self.vars.wf()
        &&& !self.inconsistent ==> self.vars.all_feasible()
        &&& forall|i: int|
            0 <= i < self.constraints@.len() ==> stmt_ok(#[trigger] self.constraints@[i], self.nb(), self.ni())
        &&& forall|i: int| 0 <= i < self.prenormalize_vars@.len() ==> (#[trigger] self.prenormalize_vars@[i]).0 < self.nb()
    }

    /// The empty problem.
    pub fn new() -> (r: CSP)
        ensures
            r.wf(),
            r.nb() == 0,
            r.ni() == 0,
            r.constraints@.len() == 0,
            r.prenormalize_vars@.len() == 0,
            !r.inconsistent,
    {
        CSP {
            vars: CSPVars { bool_var: Vec::new(), int_var: Vec::new() },
            constraints: Vec::new(),
            inconsistent: false,
            prenormalize_vars: Vec::new(),
        }
    }

    /// Adds a Boolean variable that may take both values.
    pub fn new_bool_var(&mut self) -> (r: BoolVar)
        requires
            old(self).wf(),
        ensures
            final(self).wf(),
            r.0 == old(self).nb(),
            final(self).vars.bool_var@ == old(self).vars.bool_var@.push(BoolVarData { possibility_mask: 3 }),
            final(self).vars.int_var == old(self).vars.int_var,
            final(self).constraints == old(self).constraints,
            final(self).prenormalize_vars == old(self).prenormalize_vars,
            final(self).inconsistent == old(self).inconsistent,
    {
        let id = self.vars.bool_var.len();
        self.vars.bool_var.push(BoolVarData::new());
        proof {
            self.lemma_constraints_still_ok(old(self).nb(), old(self).ni());
        }
        BoolVar::new(id)
    }

    /// Adds an integer variable that may take the values of `domain`.
    pub fn new_int_var(&mut self, domain: Domain) -> (r: IntVar)
        requires
            old(self).wf(),
            domain.wf(),
        ensures
            final(self).wf(),
            r.0 == old(self).ni(),
            final(self).vars.int_var@ == old(self).vars.int_var@.push(IntVarData { domain }),
            final(self).vars.bool_var == old(self).vars.bool_var,
            final(self).constraints == old(self).constraints,
            final(self).prenormalize_vars == old(self).prenormalize_vars,
            final(self).inconsistent == old(self).inconsistent,
    {
        let id = self.vars.int_var.len();
        self.vars.int_var.push(IntVarData::new(domain));
        proof {
            self.lemma_constraints_still_ok(old(self).nb(), old(self).ni());
        }
        IntVar::new(id)
    }

    /// Marks `var` to be kept apart from the rest during normalization.
    pub fn add_prenormalize_var(&mut self, var: BoolVar)
        requires
            old(self).wf(),
            var.0 < old(self).nb(),
        ensures
            final(self).wf(),
            final(self).prenormalize_vars@ == old(self).prenormalize_vars@.push(var),
            final(self).vars == old(self).vars,
            final(self).constraints == old(self).constraints,
            final(self).inconsistent == old(self).inconsistent,
    {
        self.prenormalize_vars.push(var);
    }

    /// Adds an integer variable that may take exactly the listed values,
    /// given in any order and possibly repeated.
    pub fn new_int_var_from_list(&mut self, domain_list: Vec<i32>) -> (r: IntVar)
        requires
            old(self).wf(),
            domain_list@.len() > 0,
        ensures
            final(self).wf(),
            r.0 == old(self).ni(),
            final(self).vars.int_var@.len() == old(self).vars.int_var@.len() + 1,
            final(self).vars.int_var@[r.0 as int].domain is Enumerative,
            forall|x: int|
                final(self).vars.int_var@[r.0 as int].domain.contains(x) <==> (exists|i: int|
                    #![trigger domain_list@[i]]
                    0 <= i < domain_list@.len() && domain_list@[i] == x),
            forall|i: int| 0 <= i < old(self).ni() ==> #[trigger] final(self).vars.int_var@[i] == old(self).vars.int_var@[i],
            final(self).vars.bool_var == old(self).vars.bool_var,
            final(self).constraints == old(self).constraints,
            final(self).prenormalize_vars == old(self).prenormalize_vars,
            final(self).inconsistent == old(self).inconsistent,
    {
        let domain = Domain::enumerative_from_list(&domain_list);
        self.new_int_var(domain)
    }

    /// Adds a constraint.
    pub fn add_constraint(&mut self, stmt: Stmt)
        requires
            old(self).wf(),
            stmt_ok(stmt, old(self).nb(), old(self).ni()),
        ensures
            final(self).wf(),
            final(self).constraints@ == old(self).constraints@.push(stmt),
            final(self).vars == old(self).vars,
            final(self).prenormalize_vars == old(self).prenormalize_vars,
            final(self).inconsistent == old(self).inconsistent,
    {
        self.constraints.push(stmt);
        proof {
            assert forall|i: int| 0 <= i < self.constraints@.len() implies stmt_ok(#[trigger] self.constraints@[i], self.nb(), self.ni()) by {
                if i < old(self).constraints@.len() {
                    assert(self.constraints@[i] == old(self).constraints@[i]);
                }
            }
        }
    }

    /// Whether propagation found that the problem has no solution.
    pub fn is_inconsistent(&self) -> (r: bool)
        ensures
            r == self.inconsistent,
    {
        self.inconsistent
    }

    /// What is known of the value of `var`.
    pub fn get_bool_var_status(&self, var: BoolVar) -> (r: BoolVarStatus)
        requires
            self.wf(),
            var.0 < self.nb(),
        ensures
            ({
                let m = self.vars.bool_var@[var.0 as int].possibility_mask;
                r == (if m == 0 {
                    BoolVarStatus::Infeasible
                } else if m == 1 {
                    BoolVarStatus::Fixed(false)
                } else if m == 2 {
                    BoolVarStatus::Fixed(true)
                } else {
                    BoolVarStatus::Unfixed
                })
            }),
    {
        assert(self.vars.bool_var@[var.0 as int].wf());
        self.vars.bool_var[var.0].get_status()
    }

    /// What is known of the value of `var`.
    pub fn get_int_var_status(&self, var: IntVar) -> (r: IntVarStatus)
        requires
            self.wf(),
            var.0 < self.ni(),
        ensures
            ({
                let d = self.vars.int_var@[var.0 as int].domain;
                match r {
                    IntVarStatus::Infeasible => d.spec_is_empty(),
                    IntVarStatus::Fixed(c) => d.is_singleton(c as int),
                    IntVarStatus::Unfixed(c) => d.contains(c as int) && !d.spec_is_empty() && !(exists|k: int|
                        #[trigger] d.is_singleton(k)) && (forall|x: int| d.contains(x) ==> c <= x),
                }
            }),
    {
        let domain = &self.vars.int_var[var.0].domain;
        assert(domain.wf());
        if domain.is_infeasible() {
            IntVarStatus::Infeasible
        } else {
            match domain.as_constant() {
                Some(v) => IntVarStatus::Fixed(v),
                None => IntVarStatus::Unfixed(domain.lower_bound_checked()),
            }
        }
    }

    /// Folds every constraint with what is known of the variables.
    pub fn apply_constant_folding(&mut self)
        requires
            old(self).wf(),
            old(self).vars.all_feasible(),
        ensures
            final(self).wf(),
            final(self).vars == old(self).vars,
            final(self).inconsistent == old(self).inconsistent,
            final(self).prenormalize_vars == old(self).prenormalize_vars,
            final(self).constraints@.len() == old(self).constraints@.len(),
            forall|i: int|
                0 <= i < final(self).constraints@.len() ==> final(self).vars.stmt_folded(
                    #[trigger] final(self).constraints@[i],
                ),
            forall|env: Env|
                old(self).vars.agrees_with_fixed(env) ==> stmts_equiv(old(self).constraints@, final(self).constraints@, env),
    {
        let mut rest: Vec<Stmt> = Vec::new();
        std::mem::swap(&mut rest, &mut self.constraints);
        let ghost orig = rest@;
        let n = rest.len();
        let mut out: Vec<Stmt> = Vec::new();
        let mut i: usize = 0;
        while i < n
            invariant
                self.vars == old(self).vars,
                self.vars.wf(),
                self.vars.all_feasible(),
                orig == old(self).constraints@,
                n == orig.len(),
                i <= n,
                out@.len() == i,
                rest@ == orig.subrange(i as int, n as int),
                forall|k: int| 0 <= k < orig.len() ==> stmt_ok(#[trigger] orig[k], self.nb(), self.ni()),
                forall|k: int| 0 <= k < i ==> stmt_ok(#[trigger] out@[k], self.nb(), self.ni()),
                forall|k: int| 0 <= k < i ==> self.vars.stmt_folded(#[trigger] out@[k]),
                forall|env: Env, k: int|
                    #![trigger stmt_equiv(orig[k], out@[k], env)]
                    self.vars.agrees_with_fixed(env) && 0 <= k < i ==> stmt_equiv(orig[k], out@[k], env),
            decreases n - i,
        {
            let st = rest.remove(0);
            assert(st == orig[i as int]);
            let f = self.vars.fold_stmt(st);
            out.push(f);
            proof {
                assert(out@[i as int] == f);
            }
            i += 1;
        }
        self.constraints = out;
    }

    /// Propagates every plain Boolean constraint once into the variables.
    fn propagate_exprs(&mut self) -> (r: UpdateStatus)
        requires
            old(self).wf(),
        ensures
            final(self).constraints == old(self).constraints,
            final(self).prenormalize_vars == old(self).prenormalize_vars,
            final(self).inconsistent == old(self).inconsistent,
            final(self).vars.wf(),
            final(self).vars.int_var == old(self).vars.int_var,
            final(self).vars.bool_var@.len() == old(self).vars.bool_var@.len(),
            forall|env: Env| final(self).vars.consistent(env) ==> old(self).vars.consistent(env),
            forall|env: Env|
                old(self).vars.consistent(env) && exprs_hold(old(self).constraints@, env)
                    ==> final(self).vars.consistent(env),
            r == UpdateStatus::Unsatisfiable ==> forall|env: Env|
                !(old(self).vars.consistent(env) && exprs_hold(old(self).constraints@, env)),
            r == UpdateStatus::NotUpdated ==> final(self).vars == old(self).vars,
            (r == UpdateStatus::NotUpdated) == (forall|k: int|
                0 <= k < old(self).constraints@.len() ==> stmt_stable(old(self).vars, #[trigger] old(self).constraints@[k])),
            masks_weight(masks_of(final(self).vars.bool_var@)) <= masks_weight(masks_of(old(self).vars.bool_var@)),
            r == UpdateStatus::Updated ==> masks_weight(masks_of(final(self).vars.bool_var@)) < masks_weight(
                masks_of(old(self).vars.bool_var@),
            ),
            r != UpdateStatus::Unsatisfiable && old(self).vars.all_feasible() ==> final(self).vars.all_feasible(),
            (exists|k: int| 0 <= k < old(self).constraints@.len() && #[trigger] old(self).constraints@[k] == Stmt::Expr(BoolExpr::Const(false)))
                ==> r == UpdateStatus::Unsatisfiable,
            r == UpdateStatus::NotUpdated ==> forall|k: int|
                0 <= k < old(self).constraints@.len() && (#[trigger] bare_lit(old(self).constraints@[k])) is Some
                    ==> !mask_allows(
                    old(self).vars.bool_var@[bare_lit(old(self).constraints@[k]).unwrap().0.0 as int].possibility_mask,
                    bare_lit(old(self).constraints@[k]).unwrap().1,
                ),
    {
        let ghost v0 = self.vars;
        let ghost cs = self.constraints@;
        let mut status = UpdateStatus::NotUpdated;
        let mut j: usize = 0;
        while j < self.constraints.len()
            invariant
                self.constraints == old(self).constraints,
                self.prenormalize_vars == old(self).prenormalize_vars,
                self.inconsistent == old(self).inconsistent,
                v0 == old(self).vars,
                cs == self.constraints@,
                v0.wf(),
                forall|k: int| 0 <= k < cs.len() ==> stmt_ok(#[trigger] cs[k], v0.nb(), v0.ni()),
                j <= cs.len(),
                self.vars.wf(),
                self.vars.int_var == v0.int_var,
                self.vars.bool_var@.len() == v0.bool_var@.len(),
                forall|env: Env| self.vars.consistent(env) ==> v0.consistent(env),
                forall|env: Env| v0.consistent(env) && exprs_hold(cs, env) ==> self.vars.consistent(env),
                status == UpdateStatus::Unsatisfiable ==> forall|env: Env| !(v0.consistent(env) && exprs_hold(cs, env)),
                status == UpdateStatus::NotUpdated ==> self.vars == v0,
                (status == UpdateStatus::NotUpdated) == (forall|k: int| 0 <= k < j ==> stmt_stable(v0, #[trigger] cs[k])),
                masks_weight(masks_of(self.vars.bool_var@)) <= masks_weight(masks_of(v0.bool_var@)),
                status == UpdateStatus::Updated ==> masks_weight(masks_of(self.vars.bool_var@)) < masks_weight(
                    masks_of(v0.bool_var@),
                ),
                status != UpdateStatus::Unsatisfiable && v0.all_feasible() ==> self.vars.all_feasible(),
                (exists|k: int| 0 <= k < j && #[trigger] cs[k] == Stmt::Expr(BoolExpr::Const(false))) ==> status == UpdateStatus::Unsatisfiable,
                status == UpdateStatus::NotUpdated ==> forall|k: int|
                    0 <= k < j && (#[trigger] bare_lit(cs[k])) is Some
                        ==> !mask_allows(v0.bool_var@[bare_lit(cs[k]).unwrap().0.0 as int].possibility_mask, bare_lit(cs[k]).unwrap().1),
            decreases cs.len() - j,
        {
            let ghost v1 = self.vars;
            match &self.constraints[j] {
                Stmt::Expr(e) => {
                    assert(stmt_ok(cs[j as int], v0.nb(), v0.ni()));
                    let r = self.vars.constant_prop_bool(e, true);
                    proof {
                        lemma_masks_small(self.vars);
                        lemma_masks_small(v1);
                        lemma_refine_weight(masks_of(self.vars.bool_var@), masks_of(v1.bool_var@));
                        assert forall|env: Env| v0.consistent(env) && exprs_hold(cs, env) implies self.vars.consistent(env) by {
                            assert(stmt_expr_holds(cs[j as int], env));
                        }
                        if r == UpdateStatus::Unsatisfiable {
                            assert forall|env: Env| !(v0.consistent(env) && exprs_hold(cs, env)) by {
                                if v0.consistent(env) && exprs_hold(cs, env) {
                                    assert(stmt_expr_holds(cs[j as int], env));
                                    assert(v1.consistent(env));
                                }
                            }
                        }
                    }
                    let ghost st0 = status;
                    status = status.or(r);
                    proof {
                        if st0 == UpdateStatus::NotUpdated {
                            assert(v1 == v0);
                            assert(stmt_stable(v0, cs[j as int]) == (r == UpdateStatus::NotUpdated));
                        } else {
                            assert(!(forall|k: int| 0 <= k < j ==> stmt_stable(v0, #[trigger] cs[k])));
                        }
                        assert((status == UpdateStatus::NotUpdated) == (forall|k: int| 0 <= k < j + 1 ==> stmt_stable(v0, #[trigger] cs[k])));
                        if status == UpdateStatus::NotUpdated {
                            assert(st0 == UpdateStatus::NotUpdated && r == UpdateStatus::NotUpdated);
                            assert(v1 == v0);
                            if let BoolExpr::Var(v) = *e {
                                assert(!mask_allows(v0.bool_var@[v.0 as int].possibility_mask, false));
                            }
                            if let Some(v) = negated_var(*e) {
                                assert(!mask_allows(v0.bool_var@[v.0 as int].possibility_mask, true));
                            }
                        }
                        if exists|k: int| 0 <= k < j + 1 && #[trigger] cs[k] == Stmt::Expr(BoolExpr::Const(false)) {
                            let k = choose|k: int| 0 <= k < j + 1 && #[trigger] cs[k] == Stmt::Expr(BoolExpr::Const(false));
                            if k == j {
                                assert(r == UpdateStatus::Unsatisfiable);
                            } else {
                                assert(st0 == UpdateStatus::Unsatisfiable);
                            }
                        }
                    }
                },
                _ => {
                    proof {
                        assert(stmt_stable(v0, cs[j as int]));
                        assert((status == UpdateStatus::NotUpdated) == (forall|k: int| 0 <= k < j + 1 ==> stmt_stable(v0, #[trigger] cs[k])));
                        if exists|k: int| 0 <= k < j + 1 && #[trigger] cs[k] == Stmt::Expr(BoolExpr::Const(false)) {
                            let k = choose|k: int| 0 <= k < j + 1 && #[trigger] cs[k] == Stmt::Expr(BoolExpr::Const(false));
                            assert(k != j);
                        }
                    }
                },
            }
            j += 1;
        }
        status
    }

    /// Simplifies the problem: folds the constraints and, with
    /// `use_propagate`, alternates folding with propagation of the plain
    /// Boolean constraints until nothing changes or a contradiction is found.
    pub fn optimize(&mut self, use_propagate: bool)
        requires
            old(self).wf(),
            old(self).vars.all_feasible(),
        ensures
            final(self).wf(),
            final(self).prenormalize_vars == old(self).prenormalize_vars,
            final(self).nb() == old(self).nb(),
            final(self).ni() == old(self).ni(),
            final(self).constraints@.len() == old(self).constraints@.len(),
            !use_propagate ==> final(self).vars == old(self).vars && final(self).inconsistent == old(self).inconsistent,
            old(self).inconsistent ==> final(self).inconsistent,
            forall|env: Env|
                final(self).vars.consistent(env) ==> old(self).vars.consistent(env) && stmts_equiv(
                    old(self).constraints@,
                    final(self).constraints@,
                    env,
                ),
            forall|env: Env|
                old(self).vars.consistent(env) && exprs_hold(old(self).constraints@, env)
                    ==> final(self).vars.consistent(env),
            final(self).inconsistent && !old(self).inconsistent ==> forall|env: Env|
                !(old(self).vars.consistent(env) && exprs_hold(old(self).constraints@, env)),
            !use_propagate || !final(self).inconsistent ==> forall|i: int|
                0 <= i < final(self).constraints@.len() ==> final(self).vars.stmt_folded(
                    #[trigger] final(self).constraints@[i],
                ),
            use_propagate && !final(self).inconsistent ==> forall|i: int|
                0 <= i < final(self).constraints@.len() ==> (#[trigger] bare_lit(final(self).constraints@[i])) is None,
            use_propagate && !final(self).inconsistent ==> forall|i: int|
                0 <= i < final(self).constraints@.len() ==> stmt_stable(final(self).vars, #[trigger] final(self).constraints@[i]),
            !final(self).inconsistent ==> final(self).vars.all_feasible(),
    {
        if !use_propagate {
            self.apply_constant_folding();
            proof {
                assert forall|env: Env| self.vars.consistent(env) implies stmts_equiv(old(self).constraints@, self.constraints@, env) by {
                    self.vars.lemma_consistent_agrees(env);
                }
            }
            return;
        }
        let ghost orig = self.constraints@;
        let ghost ov = self.vars;
        let mut done = false;
        proof {
            assert forall|env: Env| self.vars.consistent(env) implies stmts_equiv(orig, self.constraints@, env) by {
                lemma_stmts_equiv_refl(orig, env);
            }
        }
        while !done
            invariant
                use_propagate,
                self.wf(),
                self.vars.all_feasible(),
                self.inconsistent == old(self).inconsistent,
                self.prenormalize_vars == old(self).prenormalize_vars,
                orig == old(self).constraints@,
                ov == old(self).vars,
                self.nb() == ov.nb(),
                self.ni() == ov.ni(),
                self.constraints@.len() == orig.len(),
                forall|env: Env| #[trigger] self.vars.consistent(env) ==> ov.consistent(env) && stmts_equiv(orig, self.constraints@, env),
                forall|env: Env| #[trigger] ov.consistent(env) && exprs_hold(orig, env) ==> self.vars.consistent(env),
                done ==> forall|i: int|
                    0 <= i < self.constraints@.len() ==> self.vars.stmt_folded(#[trigger] self.constraints@[i]),
                done ==> forall|i: int|
                    0 <= i < self.constraints@.len() ==> (#[trigger] bare_lit(self.constraints@[i])) is None,
                done ==> forall|i: int|
                    0 <= i < self.constraints@.len() ==> stmt_stable(self.vars, #[trigger] self.constraints@[i]),
            decreases masks_weight(masks_of(self.vars.bool_var@)) + (if done { 0nat } else { 1nat }),
        {
            let ghost before = self.constraints@;
            let ghost vb = self.vars;
            assert forall|env: Env| vb.consistent(env) implies ov.consistent(env) && stmts_equiv(orig, before, env) by {
                assert(self.vars.consistent(env));
            }
            self.apply_constant_folding();
            proof {
                assert forall|env: Env| self.vars.consistent(env) implies ov.consistent(env) && stmts_equiv(orig, self.constraints@, env) by {
                    assert(vb.consistent(env));
                    vb.lemma_consistent_agrees(env);
                    lemma_stmts_equiv_trans(orig, before, self.constraints@, env);
                }
                assert forall|env: Env| ov.consistent(env) && exprs_hold(orig, env) implies exprs_hold(self.constraints@, env) by {
                    lemma_stmts_equiv_exprs(orig, self.constraints@, env);
                }
            }
            let ghost folded = self.constraints@;
            let ghost vf = self.vars;
            let status = self.propagate_exprs();
            match status {
                UpdateStatus::NotUpdated => {
                    done = true;
                    proof {
                        assert forall|i: int| 0 <= i < self.constraints@.len() implies (#[trigger] bare_lit(self.constraints@[i])) is None by {
                            if let Some((v, neg)) = bare_lit(self.constraints@[i]) {
                                assert(stmt_ok(self.constraints@[i], self.nb(), self.ni()));
                                if neg {
                                    if let Stmt::Expr(BoolExpr::Not(x)) = self.constraints@[i] {
                                        assert(bool_ok(*x, self.nb(), self.ni()));
                                        assert(self.vars.folded_bool(BoolExpr::Not(x)));
                                        assert(self.vars.folded_bool(*x));
                                        assert(!self.vars.bool_fixed(v));
                                    }
                                }
                                assert(v.0 < self.nb());
                                assert(self.vars.stmt_folded(self.constraints@[i]));
                                assert(!mask_allows(vf.bool_var@[v.0 as int].possibility_mask, neg));
                                assert(self.vars.bool_var@[v.0 as int].possibility_mask != 0);
                            }
                        }
                    }
                },
                UpdateStatus::Updated => {},
                UpdateStatus::Unsatisfiable => {
                    self.inconsistent = true;
                    proof {
                        assert forall|env: Env| !(ov.consistent(env) && exprs_hold(orig, env)) by {
                            if ov.consistent(env) && exprs_hold(orig, env) {
                                assert(vf.consistent(env));
                                assert(exprs_hold(folded, env));
                            }
                        }
                    }
                    return;
                },
            }
        }
    }

    /// Constraints stay well scoped when variables are added.
    proof fn lemma_constraints_still_ok(&self, nb0: nat, ni0: nat)
        requires
            nb0 <= self.nb(),
            ni0 <= self.ni(),
            forall|i: int| 0 <= i < self.constraints@.len() ==> stmt_ok(#[trigger] self.constraints@[i], nb0, ni0),
        ensures
            forall|i: int| 0 <= i < self.constraints@.len() ==> stmt_ok(#[trigger] self.constraints@[i], self.nb(), self.ni()),
    {
        assert forall|i: int| 0 <= i < self.constraints@.len() implies stmt_ok(#[trigger] self.constraints@[i], self.nb(), self.ni()) by {
            lemma_stmt_ok_mono(self.constraints@[i], nb0, ni0, self.nb(), self.ni());
        }
    }
}

/// Values given to some of the variables of a problem.
pub struct Assignment {
    bool_val: ConvertMap<BoolVar, bool>,
    int_val: ConvertMap<IntVar, i32>,
}

impl Assignment {
    pub closed spec fn wf(&self) -> bool {
        self.bool_val.wf() && self.int_val.wf()
    }

    /// The value given to the Boolean variable with index `i`, if any.
    pub closed spec fn bool_at(&self, i: int) -> Option<bool> {
        self.bool_val.slot(i)
    }

    /// The value given to the integer variable with index `i`, if any.
    pub closed spec fn int_at(&self, i: int) -> Option<i32> {
        self.int_val.slot(i)
    }

    /// Every Boolean variable below `nb` and every integer variable below
    /// `ni` has a value.
    pub open spec fn covers(&self, nb: nat, ni: nat) -> bool {
        &&& forall|i: int| 0 <= i < nb ==> (#[trigger] self.bool_at(i)) is Some
        &&& forall|i: int| 0 <= i < ni ==> (#[trigger] self.int_at(i)) is Some
    }

    /// The values of the assignment as an environment; variables without a
    /// value read as `false` or `0`.
    pub closed spec fn env(&self) -> Env {
        Env {
            bools: Seq::new(
                self.bool_val.spec_len(),
                |i: int|
                    match self.bool_val.slot(i) {
                        Some(b) => b,
                        None => false,
                    },
            ),
            ints: Seq::new(
                self.int_val.spec_len(),
                |i: int|
                    match self.int_val.slot(i) {
                        Some(v) => v as int,
                        None => 0int,
                    },
            ),
        }
    }

    /// The environment of an assignment holds the assigned values.
    pub proof fn lemma_env(&self)
        ensures
            forall|i: int|
                (#[trigger] self.bool_at(i)) is Some ==> 0 <= i < self.env().bools.len()
                    && self.env().bools[i] == self.bool_at(i)->0,
            forall|i: int|
                (#[trigger] self.int_at(i)) is Some ==> 0 <= i < self.env().ints.len()
                    && self.env().ints[i] == self.int_at(i)->0 as int,
    {
    }

    /// The assignment that gives no variable a value.
    pub fn new() -> (r: Assignment)
        ensures
            r.wf(),
            forall|i: int| #[trigger] r.bool_at(i) == None::<bool>,
            forall|i: int| #[trigger] r.int_at(i) == None::<i32>,
    {
        Assignment { bool_val: ConvertMap::new(), int_val: ConvertMap::new() }
    }

    pub fn set_bool(&mut self, var: BoolVar, val: bool)
        requires
            old(self).wf(),
        ensures
            final(self).wf(),
            final(self).bool_at(var.0 as int) == Some(val),
            forall|i: int| i != var.0 ==> #[trigger] final(self).bool_at(i) == old(self).bool_at(i),
            forall|i: int| #[trigger] final(self).int_at(i) == old(self).int_at(i),
    {
        self.bool_val.set(&var, Some(val));
    }

    pub fn set_int(&mut self, var: IntVar, val: i32)
        requires
            old(self).wf(),
        ensures
            final(self).wf(),
            final(self).int_at(var.0 as int) == Some(val),
            forall|i: int| i != var.0 ==> #[trigger] final(self).int_at(i) == old(self).int_at(i),
            forall|i: int| #[trigger] final(self).bool_at(i) == old(self).bool_at(i),
    {
        self.int_val.set(&var, Some(val));
    }

    pub fn get_bool(&self, var: BoolVar) -> (r: Option<bool>)
        requires
            self.wf(),
        ensures
            r == self.bool_at(var.0 as int),
    {
        *self.bool_val.get(&var)
    }

    pub fn get_int(&self, var: IntVar) -> (r: Option<i32>)
        requires
            self.wf(),
        ensures
            r == self.int_at(var.0 as int),
    {
        *self.int_val.get(&var)
    }

    /// Takes the value of `var` away, returning it.
    pub fn remove_bool(&mut self, var: BoolVar) -> (r: Option<bool>)
        requires
            old(self).wf(),
        ensures
            final(self).wf(),
            r == old(self).bool_at(var.0 as int),
            final(self).bool_at(var.0 as int) == None::<bool>,
            forall|i: int| i != var.0 ==> #[trigger] final(self).bool_at(i) == old(self).bool_at(i),
            forall|i: int| #[trigger] final(self).int_at(i) == old(self).int_at(i),
    {
        let r = *self.bool_val.get(&var);
        if r.is_some() {
            self.bool_val.set(&var, None);
        }
        r
    }

    /// Takes the value of `var` away, returning it.
    pub fn remove_int(&mut self, var: IntVar) -> (r: Option<i32>)
        requires
            old(self).wf(),
        ensures
            final(self).wf(),
            r == old(self).int_at(var.0 as int),
            final(self).int_at(var.0 as int) == None::<i32>,
            forall|i: int| i != var.0 ==> #[trigger] final(self).int_at(i) == old(self).int_at(i),
            forall|i: int| #[trigger] final(self).bool_at(i) == old(self).bool_at(i),
    {
        let r = *self.int_val.get(&var);
        if r.is_some() {
            self.int_val.set(&var, None);
        }
        r
    }

    /// The Boolean variables that have a value, with it, by increasing index.
    pub fn bool_iter(&self) -> (r: Vec<(BoolVar, bool)>)
        requires
            self.wf(),
        ensures
            forall|a: int, b: int| 0 <= a < b < r@.len() ==> r@[a].0.0 < r@[b].0.0,
            forall|a: int| 0 <= a < r@.len() ==> self.bool_at(#[trigger] r@[a].0.0 as int) == Some(r@[a].1),
            forall|i: int|
                #[trigger] self.bool_at(i) is Some ==> exists|a: int| 0 <= a < r@.len() && r@[a].0.0 == i,
    {
        let es = self.bool_val.entries();
        let mut r: Vec<(BoolVar, bool)> = Vec::new();
        let mut k: usize = 0;
        while k < es.len()
            invariant
                k <= es@.len(),
                r@.len() == k,
                forall|a: int| 0 <= a < k ==> (#[trigger] r@[a]).0.0 == es@[a].0 && r@[a].1 == es@[a].1,
            decreases es@.len() - k,
        {
            let (i, v) = es[k];
            r.push((BoolVar::new(i), v));
            k += 1;
        }
        proof {
            assert forall|i: int| #[trigger] self.bool_at(i) is Some implies exists|a: int| 0 <= a < r@.len() && r@[a].0.0 == i by {
                assert(self.bool_val.slot(i) is Some);
                let a = choose|a: int| 0 <= a < es@.len() && es@[a].0 == i;
                assert(r@[a].0.0 == es@[a].0);
            }
            assert forall|a: int| 0 <= a < r@.len() implies self.bool_at(#[trigger] r@[a].0.0 as int) == Some(r@[a].1) by {
                assert(r@[a].0.0 == es@[a].0);
                assert(self.bool_val.slot(es@[a].0 as int) == Some(es@[a].1));
            }
            assert forall|a: int, b: int| 0 <= a < b < r@.len() implies r@[a].0.0 < r@[b].0.0 by {
                assert(r@[a].0.0 == es@[a].0);
                assert(r@[b].0.0 == es@[b].0);
            }
        }
        r
    }

    /// The integer variables that have a value, with it, by increasing index.
    pub fn int_iter(&self) -> (r: Vec<(IntVar, i32)>)
        requires
            self.wf(),
        ensures
            forall|a: int, b: int| 0 <= a < b < r@.len() ==> r@[a].0.0 < r@[b].0.0,
            forall|a: int| 0 <= a < r@.len() ==> self.int_at(#[trigger] r@[a].0.0 as int) == Some(r@[a].1),
            forall|i: int|
                #[trigger] self.int_at(i) is Some ==> exists|a: int| 0 <= a < r@.len() && r@[a].0.0 == i,
    {
        let es = self.int_val.entries();
        let mut r: Vec<(IntVar, i32)> = Vec::new();
        let mut k: usize = 0;
        while k < es.len()
            invariant
                k <= es@.len(),
                r@.len() == k,
                forall|a: int| 0 <= a < k ==> (#[trigger] r@[a]).0.0 == es@[a].0 && r@[a].1 == es@[a].1,
            decreases es@.len() - k,
        {
            let (i, v) = es[k];
            r.push((IntVar::new(i), v));
            k += 1;
        }
        proof {
            assert forall|i: int| #[trigger] self.int_at(i) is Some implies exists|a: int| 0 <= a < r@.len() && r@[a].0.0 == i by {
                assert(self.int_val.slot(i) is Some);
                let a = choose|a: int| 0 <= a < es@.len() && es@[a].0 == i;
                assert(r@[a].0.0 == es@[a].0);
            }
            assert forall|a: int| 0 <= a < r@.len() implies self.int_at(#[trigger] r@[a].0.0 as int) == Some(r@[a].1) by {
                assert(r@[a].0.0 == es@[a].0);
                assert(self.int_val.slot(es@[a].0 as int) == Some(es@[a].1));
            }
            assert forall|a: int, b: int| 0 <= a < b < r@.len() implies r@[a].0.0 < r@[b].0.0 by {
                assert(r@[a].0.0 == es@[a].0);
                assert(r@[b].0.0 == es@[b].0);
            }
        }
        r
    }
}

} // verus!
