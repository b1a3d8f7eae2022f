use vstd::prelude::*;

use super::repr::{
    bool_ok, eval_bool, eval_int, int_ok, lemma_bool_ok_mono, lemma_int_ok_mono, BoolExpr, Env,
    IntExpr,
};
use super::repr::{BoolVar, IntVar};
use super::{BoolVarData, CSPVars, IntVarData, Stmt};

verus! {

pub open spec fn bools_ok(es: Seq<BoolExpr>, nb: nat, ni: nat) -> bool {
    forall|i: int| 0 <= i < es.len() ==> bool_ok(#[trigger] es[i], nb, ni)
}

pub open spec fn ints_ok(es: Seq<IntExpr>, nb: nat, ni: nat) -> bool {
    forall|i: int| 0 <= i < es.len() ==> int_ok(#[trigger] es[i], nb, ni)
}

pub open spec fn opt_ints_ok(es: Seq<Option<IntExpr>>, nb: nat, ni: nat) -> bool {
    forall|i: int| 0 <= i < es.len() && (#[trigger] es[i]) is Some ==> int_ok(es[i]->0, nb, ni)
}

/// Every variable of `s` is among the first `nb` Boolean and `ni` integer variables.
pub open spec fn stmt_ok(s: Stmt, nb: nat, ni: nat) -> bool {
    match s {
        Stmt::Expr(e) => bool_ok(e, nb, ni),
        Stmt::AllDifferent(es) => ints_ok(es@, nb, ni),
        Stmt::ActiveVerticesConnected(vs, _) => bools_ok(vs@, nb, ni),
        Stmt::Circuit(es) => ints_ok(es@, nb, ni),
        Stmt::ExtensionSupports(es, _) => ints_ok(es@, nb, ni),
        Stmt::GraphDivision(sizes, _, lits, _) => opt_ints_ok(sizes@, nb, ni) && bools_ok(lits@, nb, ni),
    }
}

pub open spec fn bools_equiv(a: Seq<BoolExpr>, b: Seq<BoolExpr>, env: Env) -> bool {
    &&& a.len() == b.len()
    &&& forall|i: int| 0 <= i < a.len() ==> eval_bool(#[trigger] a[i], env) == eval_bool(b[i], env)
}

pub open spec fn ints_equiv(a: Seq<IntExpr>, b: Seq<IntExpr>, env: Env) -> bool {
    &&& a.len() == b.len()
    &&& forall|i: int| 0 <= i < a.len() ==> eval_int(#[trigger] a[i], env) == eval_int(b[i], env)
}

pub open spec fn opt_ints_equiv(a: Seq<Option<IntExpr>>, b: Seq<Option<IntExpr>>, env: Env) -> bool {
    &&& a.len() == b.len()
    &&& forall|i: int|
        0 <= i < a.len() ==> ((#[trigger] a[i]) is Some <==> b[i] is Some) && (a[i] is Some
            ==> eval_int(a[i]->0, env) == eval_int(b[i]->0, env))
}

/// `a` and `b` are the same constraint up to the values of their
/// expressions under `env`.
pub open spec fn stmt_equiv(a: Stmt, b: Stmt, env: Env) -> bool {
    match (a, b) {
        (Stmt::Expr(x), Stmt::Expr(y)) => eval_bool(x, env) == eval_bool(y, env),
        (Stmt::AllDifferent(xs), Stmt::AllDifferent(ys)) => ints_equiv(xs@, ys@, env),
        (Stmt::ActiveVerticesConnected(xs, e1), Stmt::ActiveVerticesConnected(ys, e2)) => bools_equiv(
            xs@,
            ys@,
            env,
        ) && e1@ == e2@,
        (Stmt::Circuit(xs), Stmt::Circuit(ys)) => ints_equiv(xs@, ys@, env),
        (Stmt::ExtensionSupports(xs, s1), Stmt::ExtensionSupports(ys, s2)) => ints_equiv(xs@, ys@, env)
            && s1 == s2,
        (Stmt::GraphDivision(s1, e1, l1, o1), Stmt::GraphDivision(s2, e2, l2, o2)) => opt_ints_equiv(
            s1@,
            s2@,
            env,
        ) && e1@ == e2@ && bools_equiv(l1@, l2@, env) && o1 == o2,
        _ => false,
    }
}

/// Every statement is equivalent to itself.
pub proof fn lemma_stmt_equiv_refl(a: Stmt, env: Env)
    ensures
        stmt_equiv(a, a, env),
{
}

/// Equivalence of statements chains.
pub proof fn lemma_stmt_equiv_trans(a: Stmt, b: Stmt, c: Stmt, env: Env)
    requires
        stmt_equiv(a, b, env),
        stmt_equiv(b, c, env),
    ensures
        stmt_equiv(a, c, env),
{
    match (a, b, c) {
        (Stmt::AllDifferent(xs), Stmt::AllDifferent(ys), Stmt::AllDifferent(zs)) => {
            assert forall|i: int| 0 <= i < xs@.len() implies eval_int(#[trigger] xs@[i], env) == eval_int(zs@[i], env) by {
                assert(eval_int(ys@[i], env) == eval_int(zs@[i], env));
            }
        },
        (Stmt::Circuit(xs), Stmt::Circuit(ys), Stmt::Circuit(zs)) => {
            assert forall|i: int| 0 <= i < xs@.len() implies eval_int(#[trigger] xs@[i], env) == eval_int(zs@[i], env) by {
                assert(eval_int(ys@[i], env) == eval_int(zs@[i], env));
            }
        },
        (Stmt::ExtensionSupports(xs, _), Stmt::ExtensionSupports(ys, _), Stmt::ExtensionSupports(zs, _)) => {
            assert forall|i: int| 0 <= i < xs@.len() implies eval_int(#[trigger] xs@[i], env) == eval_int(zs@[i], env) by {
                assert(eval_int(ys@[i], env) == eval_int(zs@[i], env));
            }
        },
        (Stmt::ActiveVerticesConnected(xs, _), Stmt::ActiveVerticesConnected(ys, _), Stmt::ActiveVerticesConnected(zs, _)) => {
            assert forall|i: int| 0 <= i < xs@.len() implies eval_bool(#[trigger] xs@[i], env) == eval_bool(zs@[i], env) by {
                assert(eval_bool(ys@[i], env) == eval_bool(zs@[i], env));
            }
        },
        (Stmt::GraphDivision(xs, _, l1, _), Stmt::GraphDivision(ys, _, l2, _), Stmt::GraphDivision(zs, _, l3, _)) => {
            assert forall|i: int| 0 <= i < xs@.len() implies ((#[trigger] xs@[i]) is Some <==> zs@[i] is Some) && (xs@[i] is Some
                ==> eval_int(xs@[i]->0, env) == eval_int(zs@[i]->0, env)) by {
                assert(ys@[i] is Some <==> zs@[i] is Some);
            }
            assert forall|i: int| 0 <= i < l1@.len() implies eval_bool(#[trigger] l1@[i], env) == eval_bool(l3@[i], env) by {
                assert(eval_bool(l2@[i], env) == eval_bool(l3@[i], env));
            }
        },
        _ => {},
    }
}

/// Adding variables keeps a statement well-scoped.
pub proof fn lemma_stmt_ok_mono(s: Stmt, nb: nat, ni: nat, nb2: nat, ni2: nat)
    requires
        stmt_ok(s, nb, ni),
        nb <= nb2,
        ni <= ni2,
    ensures
        stmt_ok(s, nb2, ni2),
{
    match s {
        Stmt::Expr(e) => lemma_bool_ok_mono(e, nb, ni, nb2, ni2),
        Stmt::AllDifferent(es) | Stmt::Circuit(es) | Stmt::ExtensionSupports(es, _) => {
            assert forall|i: int| 0 <= i < es@.len() implies int_ok(#[trigger] es@[i], nb2, ni2) by {
                lemma_int_ok_mono(es@[i], nb, ni, nb2, ni2);
            }
        },
        Stmt::ActiveVerticesConnected(vs, _) => {
            assert forall|i: int| 0 <= i < vs@.len() implies bool_ok(#[trigger] vs@[i], nb2, ni2) by {
                lemma_bool_ok_mono(vs@[i], nb, ni, nb2, ni2);
            }
        },
        Stmt::GraphDivision(sizes, _, lits, _) => {
            assert forall|i: int| 0 <= i < sizes@.len() && (#[trigger] sizes@[i]) is Some implies int_ok(sizes@[i]->0, nb2, ni2) by {
                lemma_int_ok_mono(sizes@[i]->0, nb, ni, nb2, ni2);
            }
            assert forall|i: int| 0 <= i < lits@.len() implies bool_ok(#[trigger] lits@[i], nb2, ni2) by {
                lemma_bool_ok_mono(lits@[i], nb, ni, nb2, ni2);
            }
        },
    }
}

impl CSPVars {
    /// The Boolean variables, by increasing index.
    pub fn bool_vars_iter(&self) -> (r: Vec<BoolVar>)
        ensures
            r@.len() == self.nb(),
            forall|i: int| 0 <= i < r@.len() ==> (#[trigger] r@[i]).0 == i,
    {
        let n = self.bool_var.len();
        let mut r: Vec<BoolVar> = Vec::new();
        let mut i: usize = 0;
        while i < n
            invariant
                n == self.nb(),
                i <= n,
                r@.len() == i,
                forall|k: int| 0 <= k < i ==> (#[trigger] r@[k]).0 == k,
            decreases n - i,
        {
            r.push(BoolVar::new(i));
            i += 1;
        }
        r
    }

    /// The integer variables, by increasing index.
    pub fn int_vars_iter(&self) -> (r: Vec<IntVar>)
        ensures
            r@.len() == self.ni(),
            forall|i: int| 0 <= i < r@.len() ==> (#[trigger] r@[i]).0 == i,
    {
        let n = self.int_var.len();
        let mut r: Vec<IntVar> = Vec::new();
        let mut i: usize = 0;
        while i < n
            invariant
                n == self.ni(),
                i <= n,
                r@.len() == i,
                forall|k: int| 0 <= k < i ==> (#[trigger] r@[k]).0 == k,
            decreases n - i,
        {
            r.push(IntVar::new(i));
            i += 1;
        }
        r
    }

    /// The data of the integer variable `var`.
    pub fn int_var(&self, var: IntVar) -> (r: &IntVarData)
        requires
            var.0 < self.ni(),
        ensures
            *r == self.int_var@[var.0 as int],
    {
        &self.int_var[var.0]
    }

    /// The data of the Boolean variable `var`.
    pub fn bool_var(&self, var: BoolVar) -> (r: &BoolVarData)
        requires
            var.0 < self.nb(),
        ensures
            *r == self.bool_var@[var.0 as int],
    {
        &self.bool_var[var.0]
    }

    /// Folds `expr` in place (see `fold_bool`).
    pub fn constant_folding_bool(&self, expr: &mut BoolExpr)
        requires
            self.wf(),
            self.bool_feasible(*old(expr)),
            bool_ok(*old(expr), self.nb(), self.ni()),
        ensures
            bool_ok(*final(expr), self.nb(), self.ni()),
            self.folded_bool(*final(expr)),
            forall|env: Env| self.agrees_with_fixed(env) ==> eval_bool(*final(expr), env) == eval_bool(*old(expr), env),
    {
        let mut taken = BoolExpr::Const(false);
        std::mem::swap(&mut taken, expr);
        *expr = self.fold_bool(taken);
    }

    /// Folds `expr` in place (see `fold_int`).
    pub fn constant_folding_int(&self, expr: &mut IntExpr)
        requires
            self.wf(),
            self.int_feasible(*old(expr)),
            int_ok(*old(expr), self.nb(), self.ni()),
        ensures
            int_ok(*final(expr), self.nb(), self.ni()),
            self.folded_int(*final(expr)),
            forall|env: Env| self.agrees_with_fixed(env) ==> eval_int(*final(expr), env) == eval_int(*old(expr), env),
    {
        let mut taken = IntExpr::Const(0);
        std::mem::swap(&mut taken, expr);
        *expr = self.fold_int(taken);
    }

    pub open spec fn bools_folded(&self, es: Seq<BoolExpr>) -> bool {
        forall|i: int| 0 <= i < es.len() ==> self.folded_bool(#[trigger] es[i])
    }

    pub open spec fn ints_folded(&self, es: Seq<IntExpr>) -> bool {
        forall|i: int| 0 <= i < es.len() ==> self.folded_int(#[trigger] es[i])
    }

    pub open spec fn opt_ints_folded(&self, es: Seq<Option<IntExpr>>) -> bool {
        forall|i: int| 0 <= i < es.len() && (#[trigger] es[i]) is Some ==> self.folded_int(es[i]->0)
    }

    /// Every expression of `s` is in folded form.
    pub open spec fn stmt_folded(&self, s: Stmt) -> bool {
        match s {
            Stmt::Expr(e) => self.folded_bool(e),
            Stmt::AllDifferent(es) => self.ints_folded(es@),
            Stmt::ActiveVerticesConnected(vs, _) => self.bools_folded(vs@),
            Stmt::Circuit(es) => self.ints_folded(es@),
            Stmt::ExtensionSupports(es, _) => self.ints_folded(es@),
            Stmt::GraphDivision(sizes, _, lits, _) => self.opt_ints_folded(sizes@) && self.bools_folded(lits@),
        }
    }

    /// Folds each expression of a list.
    pub fn fold_bool_vec(&self, v: Vec<BoolExpr>) -> (r: Vec<BoolExpr>)
        requires
            self.wf(),
            self.all_feasible(),
            bools_ok(v@, self.nb(), self.ni()),
        ensures
            bools_ok(r@, self.nb(), self.ni()),
            self.bools_folded(r@),
            forall|env: Env| self.agrees_with_fixed(env) ==> bools_equiv(v@, r@, env),
    {
        let ghost orig = v@;
        let n = v.len();
        let mut rest = v;
        let mut out: Vec<BoolExpr> = Vec::new();
        let mut i: usize = 0;
        while i < n
            invariant
                self.wf(),
                self.all_feasible(),
                n == orig.len(),
                i <= n,
                out@.len() == i,
                rest@ == orig.subrange(i as int, n as int),
                bools_ok(orig, self.nb(), self.ni()),
                bools_ok(out@, self.nb(), self.ni()),
                self.bools_folded(out@),
                forall|env: Env, k: int| #![trigger eval_bool(out@[k], env)] self.agrees_with_fixed(env) && 0 <= k < i ==> eval_bool(out@[k], env) == eval_bool(orig[k], env),
            decreases n - i,
        {
            let e = rest.remove(0);
            assert(e == orig[i as int]);
            proof {
                self.lemma_bool_feasible(e);
            }
            let f = self.fold_bool(e);
            out.push(f);
            i += 1;
        }
        out
    }

    /// Folds each expression of a list.
    pub fn fold_int_vec(&self, v: Vec<IntExpr>) -> (r: Vec<IntExpr>)
        requires
            self.wf(),
            self.all_feasible(),
            ints_ok(v@, self.nb(), self.ni()),
        ensures
            ints_ok(r@, self.nb(), self.ni()),
            self.ints_folded(r@),
            forall|env: Env| self.agrees_with_fixed(env) ==> ints_equiv(v@, r@, env),
    {
        let ghost orig = v@;
        let n = v.len();
        let mut rest = v;
        let mut out: Vec<IntExpr> = Vec::new();
        let mut i: usize = 0;
        while i < n
            invariant
                self.wf(),
                self.all_feasible(),
                n == orig.len(),
                i <= n,
                out@.len() == i,
                rest@ == orig.subrange(i as int, n as int),
                ints_ok(orig, self.nb(), self.ni()),
                ints_ok(out@, self.nb(), self.ni()),
                self.ints_folded(out@),
                forall|env: Env, k: int| #![trigger eval_int(out@[k], env)] self.agrees_with_fixed(env) && 0 <= k < i ==> eval_int(out@[k], env) == eval_int(orig[k], env),
            decreases n - i,
        {
            let e = rest.remove(0);
            assert(e == orig[i as int]);
            proof {
                self.lemma_int_feasible(e);
            }
            let f = self.fold_int(e);
            out.push(f);
            i += 1;
        }
        out
    }

    /// Folds each present expression of a list.
    pub fn fold_opt_int_vec(&self, v: Vec<Option<IntExpr>>) -> (r: Vec<Option<IntExpr>>)
        requires
            self.wf(),
            self.all_feasible(),
            opt_ints_ok(v@, self.nb(), self.ni()),
        ensures
            opt_ints_ok(r@, self.nb(), self.ni()),
            self.opt_ints_folded(r@),
            forall|env: Env| self.agrees_with_fixed(env) ==> opt_ints_equiv(v@, r@, env),
    {
        let ghost orig = v@;
        let n = v.len();
        let mut rest = v;
        let mut out: Vec<Option<IntExpr>> = Vec::new();
        let mut i: usize = 0;
        while i < n
            invariant
                self.wf(),
                self.all_feasible(),
                n == orig.len(),
                i <= n,
                out@.len() == i,
                rest@ == orig.subrange(i as int, n as int),
                opt_ints_ok(orig, self.nb(), self.ni()),
                opt_ints_ok(out@, self.nb(), self.ni()),
                self.opt_ints_folded(out@),
                forall|k: int| 0 <= k < i ==> ((#[trigger] out@[k]) is Some <==> orig[k] is Some),
                forall|env: Env, k: int| #![trigger eval_int(out@[k]->0, env)] self.agrees_with_fixed(env) && 0 <= k < i && orig[k] is Some ==> eval_int(out@[k]->0, env) == eval_int(orig[k]->0, env),
            decreases n - i,
        {
            let e = rest.remove(0);
            assert(e == orig[i as int]);
            match e {
                Some(x) => {
                    proof {
                        self.lemma_int_feasible(x);
                    }
                    let f = self.fold_int(x);
                    out.push(Some(f));
                },
                None => {
                    out.push(None);
                },
            }
            i += 1;
        }
        out
    }

    /// Folds every expression of a statement.
    pub fn fold_stmt(&self, s: Stmt) -> (r: Stmt)
        requires
            self.wf(),
            self.all_feasible(),
            stmt_ok(s, self.nb(), self.ni()),
        ensures
            stmt_ok(r, self.nb(), self.ni()),
            self.stmt_folded(r),
            forall|env: Env| self.agrees_with_fixed(env) ==> stmt_equiv(s, r, env),
    {
        match s {
            Stmt::Expr(e) => {
                proof {
                    self.lemma_bool_feasible(e);
                }
                Stmt::Expr(self.fold_bool(e))
            },
            Stmt::AllDifferent(es) => Stmt::AllDifferent(self.fold_int_vec(es)),
            Stmt::ActiveVerticesConnected(vs, edges) => Stmt::ActiveVerticesConnected(self.fold_bool_vec(vs), edges),
            Stmt::Circuit(es) => Stmt::Circuit(self.fold_int_vec(es)),
            Stmt::ExtensionSupports(es, supports) => Stmt::ExtensionSupports(self.fold_int_vec(es), supports),
            Stmt::GraphDivision(sizes, edges, lits, opts) => {
                let s2 = self.fold_opt_int_vec(sizes);
                let l2 = self.fold_bool_vec(lits);
                Stmt::GraphDivision(s2, edges, l2, opts)
            },
        }
    }
}

} // verus!
