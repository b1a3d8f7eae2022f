use vstd::prelude::*;

use super::repr::{
    lemma_eval_all_push, lemma_eval_any_push, lemma_eval_linear_push,
    all_bool_ok, bool_ok, eval_all, eval_any, eval_bool, eval_int, eval_linear, int_ok, terms_ok,
    BoolExpr, BoolVar, Env, IntExpr, IntVar,
};
use super::{mask_allows, BoolVarStatus, CSPVars};

verus! {

impl CSPVars {
    pub open spec fn nb(&self) -> nat {
        self.bool_var@.len()
    }

    pub open spec fn ni(&self) -> nat {
        self.int_var@.len()
    }

    pub open spec fn wf(&self) -> bool {
        &&& forall|i: int| 0 <= i < self.bool_var@.len() ==> (#[trigger] self.bool_var@[i]).wf()
        &&& forall|i: int| 0 <= i < self.int_var@.len() ==> (#[trigger] self.int_var@[i]).domain.wf()
    }

    /// No Boolean variable has lost both of its values.
    pub open spec fn all_feasible(&self) -> bool {
        forall|i: int| 0 <= i < self.bool_var@.len() ==> (#[trigger] self.bool_var@[i]).possibility_mask != 0
    }

    /// `env` gives every variable a value it may still take.
    pub open spec fn consistent(&self, env: Env) -> bool {
        &&& env.bools.len() == self.bool_var@.len()
        &&& env.ints.len() == self.int_var@.len()
        &&& forall|i: int|
            0 <= i < self.bool_var@.len() ==> mask_allows(
                (#[trigger] self.bool_var@[i]).possibility_mask,
                env.bools[i],
            )
        &&& forall|i: int|
            0 <= i < self.int_var@.len() ==> (#[trigger] self.int_var@[i]).domain.contains(env.ints[i])
    }

    /// `env` gives each fixed variable its value: a Boolean variable that
    /// may only be `false` (`true`) reads `false` (`true`), and an integer
    /// variable with a one-value domain reads that value.
    pub open spec fn agrees_with_fixed(&self, env: Env) -> bool {
        &&& env.bools.len() == self.bool_var@.len()
        &&& env.ints.len() == self.int_var@.len()
        &&& forall|i: int|
            0 <= i < self.bool_var@.len() ==> ((#[trigger] self.bool_var@[i]).possibility_mask == 1 ==> !env.bools[i])
                && (self.bool_var@[i].possibility_mask == 2 ==> env.bools[i])
        &&& forall|i: int, c: int|
            0 <= i < self.int_var@.len() && #[trigger] self.int_var@[i].domain.is_singleton(c) ==> env.ints[i] == c
    }

    /// Values that each variable may take agree with the fixed ones.
    pub proof fn lemma_consistent_agrees(&self, env: Env)
        requires
            self.consistent(env),
        ensures
            self.agrees_with_fixed(env),
    {
        assert forall|i: int, c: int|
            0 <= i < self.int_var@.len() && #[trigger] self.int_var@[i].domain.is_singleton(c) implies env.ints[i] == c by {
            assert(self.int_var@[i].domain.contains(env.ints[i]));
        }
    }

    pub open spec fn bool_fixed(&self, v: BoolVar) -> bool {
        self.bool_var@[v.0 as int].possibility_mask == 1 || self.bool_var@[v.0 as int].possibility_mask == 2
    }

    pub open spec fn int_fixed(&self, v: IntVar) -> bool {
        exists|c: int| #[trigger] self.int_var@[v.0 as int].domain.is_singleton(c)
    }

    /// Every Boolean variable of `e` may still take a value.
    pub open spec fn bool_feasible(&self, e: BoolExpr) -> bool
        decreases e,
    {
        match e {
            BoolExpr::Const(_) => true,
            BoolExpr::Var(v) => self.bool_var@[v.0 as int].possibility_mask != 0,
            BoolExpr::And(es) => self.all_bool_feasible(es@),
            BoolExpr::Or(es) => self.all_bool_feasible(es@),
            BoolExpr::Not(x) => self.bool_feasible(*x),
            BoolExpr::Xor(x, y) => self.bool_feasible(*x) && self.bool_feasible(*y),
            BoolExpr::Iff(x, y) => self.bool_feasible(*x) && self.bool_feasible(*y),
            BoolExpr::Imp(x, y) => self.bool_feasible(*x) && self.bool_feasible(*y),
            BoolExpr::Cmp(_, x, y) => self.int_feasible(*x) && self.int_feasible(*y),
        }
    }

    pub open spec fn all_bool_feasible(&self, es: Seq<Box<BoolExpr>>) -> bool
        decreases es,
    {
        forall|i: int| 0 <= i < es.len() ==> self.bool_feasible(*#[trigger] es[i])
    }

    /// Every Boolean variable of `e` may still take a value.
    pub open spec fn int_feasible(&self, e: IntExpr) -> bool
        decreases e,
    {
        match e {
            IntExpr::Const(_) => true,
            IntExpr::Var(_) => true,
            IntExpr::Linear(ts) => self.terms_feasible(ts@),
            IntExpr::If(c, t, f) => self.bool_feasible(*c) && self.int_feasible(*t) && self.int_feasible(*f),
            IntExpr::Abs(x) => self.int_feasible(*x),
            IntExpr::Mul(x, y) => self.int_feasible(*x) && self.int_feasible(*y),
        }
    }

    pub open spec fn terms_feasible(&self, ts: Seq<(Box<IntExpr>, i32)>) -> bool
        decreases ts,
    {
        forall|i: int| 0 <= i < ts.len() ==> self.int_feasible(*(#[trigger] ts[i]).0)
    }

    /// Where no Boolean variable has lost both values, neither has one of `e`.
    pub proof fn lemma_bool_feasible(&self, e: BoolExpr)
        requires
            self.all_feasible(),
            bool_ok(e, self.nb(), self.ni()),
        ensures
            self.bool_feasible(e),
        decreases e,
    {
        match e {
            BoolExpr::Const(_) => {},
            BoolExpr::Var(_) => {},
            BoolExpr::And(es) => {
                assert(all_bool_ok(es@, self.nb(), self.ni()));
                assert forall|i: int| 0 <= i < es@.len() implies self.bool_feasible(*#[trigger] es@[i]) by {
                    assert(decreases_to!(e => es));
                    assert(decreases_to!(es => es@));
                    assert(decreases_to!(es@ => es@[i]));
                    assert(bool_ok(*es@[i], self.nb(), self.ni()));
                    self.lemma_bool_feasible(*es@[i]);
                }
                assert(self.all_bool_feasible(es@));
            },
            BoolExpr::Or(es) => {
                assert(all_bool_ok(es@, self.nb(), self.ni()));
                assert forall|i: int| 0 <= i < es@.len() implies self.bool_feasible(*#[trigger] es@[i]) by {
                    assert(decreases_to!(e => es));
                    assert(decreases_to!(es => es@));
                    assert(decreases_to!(es@ => es@[i]));
                    assert(bool_ok(*es@[i], self.nb(), self.ni()));
                    self.lemma_bool_feasible(*es@[i]);
                }
                assert(self.all_bool_feasible(es@));
            },
            BoolExpr::Not(x) => {
                self.lemma_bool_feasible(*x);
            },
            BoolExpr::Xor(x, y) => {
                self.lemma_bool_feasible(*x);
                self.lemma_bool_feasible(*y);
            },
            BoolExpr::Iff(x, y) => {
                self.lemma_bool_feasible(*x);
                self.lemma_bool_feasible(*y);
            },
            BoolExpr::Imp(x, y) => {
                self.lemma_bool_feasible(*x);
                self.lemma_bool_feasible(*y);
            },
            BoolExpr::Cmp(_, x, y) => {
                self.lemma_int_feasible(*x);
                self.lemma_int_feasible(*y);
            },
        }
    }

    /// Where no Boolean variable has lost both values, neither has one of `e`.
    pub proof fn lemma_int_feasible(&self, e: IntExpr)
        requires
            self.all_feasible(),
            int_ok(e, self.nb(), self.ni()),
        ensures
            self.int_feasible(e),
        decreases e,
    {
        match e {
            IntExpr::Const(_) => {},
            IntExpr::Var(_) => {},
            IntExpr::Linear(ts) => {
                assert(terms_ok(ts@, self.nb(), self.ni()));
                assert forall|i: int| 0 <= i < ts@.len() implies self.int_feasible(*(#[trigger] ts@[i]).0) by {
                    assert(int_ok(*ts@[i].0, self.nb(), self.ni()));
                    assert(decreases_to!(e => ts));
                    assert(decreases_to!(ts => ts@));
                    assert(decreases_to!(ts@ => ts@[i]));
                    assert(decreases_to!(ts@[i] => ts@[i].0));
                    self.lemma_int_feasible(*ts@[i].0);
                }
                assert(self.terms_feasible(ts@));
            },
            IntExpr::If(c, t, f) => {
                self.lemma_bool_feasible(*c);
                self.lemma_int_feasible(*t);
                self.lemma_int_feasible(*f);
            },
            IntExpr::Abs(x) => {
                self.lemma_int_feasible(*x);
            },
            IntExpr::Mul(x, y) => {
                self.lemma_int_feasible(*x);
                self.lemma_int_feasible(*y);
            },
        }
    }

    /// `e` is in folded form: no fixed variable, and no constant below the
    /// top except where folding keeps one (terms of a sum, operands of `Abs`).
    pub open spec fn folded_bool(&self, e: BoolExpr) -> bool
        decreases e,
    {
        match e {
            BoolExpr::Const(_) => true,
            BoolExpr::Var(v) => !self.bool_fixed(v),
            BoolExpr::And(es) => es@.len() >= 2 && self.all_folded_nonconst(es@),
            BoolExpr::Or(es) => es@.len() >= 2 && self.all_folded_nonconst(es@),
            BoolExpr::Not(x) => self.folded_bool(*x) && !(*x is Const),
            BoolExpr::Xor(x, y) => self.folded_bool(*x) && self.folded_bool(*y) && !(*x is Const)
                && !(*y is Const),
            BoolExpr::Iff(x, y) => self.folded_bool(*x) && self.folded_bool(*y) && !(*x is Const)
                && !(*y is Const),
            BoolExpr::Imp(x, y) => self.folded_bool(*x) && self.folded_bool(*y) && !(*x is Const)
                && !(*y is Const),
            BoolExpr::Cmp(_, x, y) => self.folded_int(*x) && self.folded_int(*y),
        }
    }

    pub open spec fn all_folded_nonconst(&self, es: Seq<Box<BoolExpr>>) -> bool
        decreases es,
    {
        forall|i: int| 0 <= i < es.len() ==> self.folded_bool(*#[trigger] es[i]) && !(*es[i] is Const)
    }

    pub open spec fn folded_int(&self, e: IntExpr) -> bool
        decreases e,
    {
        match e {
            IntExpr::Const(_) => true,
            IntExpr::Var(v) => !self.int_fixed(v),
            IntExpr::Linear(ts) => self.terms_folded(ts@) && ts@.len() > 0,
            IntExpr::If(c, t, f) => self.folded_bool(*c) && !(*c is Const) && self.folded_int(*t)
                && self.folded_int(*f),
            IntExpr::Abs(x) => self.folded_int(*x),
            IntExpr::Mul(x, y) => self.folded_int(*x) && self.folded_int(*y) && !(*x is Const)
                && !(*y is Const),
        }
    }

    pub open spec fn terms_folded(&self, ts: Seq<(Box<IntExpr>, i32)>) -> bool
        decreases ts,
    {
        forall|i: int| 0 <= i < ts.len() ==> self.folded_int(*(#[trigger] ts[i]).0)
    }

    /// Replaces fixed variables by their values and simplifies the
    /// operators whose operands became constant.
    #[verifier::loop_isolation(false)]
    pub fn fold_bool(&self, e: BoolExpr) -> (r: BoolExpr)
        requires
            self.wf(),
            self.bool_feasible(e),
            bool_ok(e, self.nb(), self.ni()),
        ensures
            bool_ok(r, self.nb(), self.ni()),
            self.folded_bool(r),
            forall|env: Env| self.agrees_with_fixed(env) ==> eval_bool(r, env) == eval_bool(e, env),
        decreases e, 1int,
    {
        let ghost e0 = e;
        match e {
            BoolExpr::Const(b) => BoolExpr::Const(b),
            BoolExpr::Var(v) => {
                let data = &self.bool_var[v.0];
                assert(data.wf());
                match data.get_status() {
                    BoolVarStatus::Fixed(b) => {
                        proof {
                            assert forall|env: Env| self.agrees_with_fixed(env) implies b == env.bools[v.0 as int] by {
                                assert(mask_allows(self.bool_var@[v.0 as int].possibility_mask, env.bools[v.0 as int]));
                            }
                        }
                        BoolExpr::Const(b)
                    },
                    _ => BoolExpr::Var(v),
                }
            },
            BoolExpr::And(es) => self.fold_and(es, Ghost(e0)),
            BoolExpr::Or(es) => self.fold_or(es, Ghost(e0)),
            BoolExpr::Not(x) => self.fold_not(*x, Ghost(e0)),
            BoolExpr::Xor(x, y) => self.fold_xor(*x, *y, Ghost(e0)),
            BoolExpr::Iff(x, y) => self.fold_iff(*x, *y, Ghost(e0)),
            BoolExpr::Imp(x, y) => self.fold_imp(*x, *y, Ghost(e0)),
            BoolExpr::Cmp(op, x, y) => {
                let f1 = self.fold_int(*x);
                let f2 = self.fold_int(*y);
                BoolExpr::Cmp(op, Box::new(f1), Box::new(f2))
            },
        }
    }

    fn fold_not(&self, x: BoolExpr, Ghost(e0): Ghost<BoolExpr>) -> (r: BoolExpr)
        requires
            self.wf(),
            self.bool_feasible(e0),
            e0 == BoolExpr::Not(Box::new(x)),
            bool_ok(e0, self.nb(), self.ni()),
        ensures
            bool_ok(r, self.nb(), self.ni()),
            self.folded_bool(r),
            forall|env: Env| self.agrees_with_fixed(env) ==> eval_bool(r, env) == eval_bool(e0, env),
        decreases e0, 0int,
    {
        proof {
            assert(decreases_to!(e0 => e0->Not_0));
        }
        let f = self.fold_bool(x);
        match f.is_const() {
            Some(b) => BoolExpr::Const(!b),
            None => BoolExpr::Not(Box::new(f)),
        }
    }

    fn fold_xor(&self, x: BoolExpr, y: BoolExpr, Ghost(e0): Ghost<BoolExpr>) -> (r: BoolExpr)
        requires
            self.wf(),
            self.bool_feasible(e0),
            e0 == BoolExpr::Xor(Box::new(x), Box::new(y)),
            bool_ok(e0, self.nb(), self.ni()),
        ensures
            bool_ok(r, self.nb(), self.ni()),
            self.folded_bool(r),
            forall|env: Env| self.agrees_with_fixed(env) ==> eval_bool(r, env) == eval_bool(e0, env),
        decreases e0, 0int,
    {
        proof {
            assert(decreases_to!(e0 => e0->Xor_0));
            assert(decreases_to!(e0 => e0->Xor_1));
        }
        let f1 = self.fold_bool(x);
        let f2 = self.fold_bool(y);
        match (f1.is_const(), f2.is_const()) {
            (Some(b1), Some(b2)) => BoolExpr::Const(b1 != b2),
            (Some(true), None) => BoolExpr::Not(Box::new(f2)),
            (Some(false), None) => f2,
            (None, Some(true)) => BoolExpr::Not(Box::new(f1)),
            (None, Some(false)) => f1,
            (None, None) => BoolExpr::Xor(Box::new(f1), Box::new(f2)),
        }
    }

    fn fold_iff(&self, x: BoolExpr, y: BoolExpr, Ghost(e0): Ghost<BoolExpr>) -> (r: BoolExpr)
        requires
            self.wf(),
            self.bool_feasible(e0),
            e0 == BoolExpr::Iff(Box::new(x), Box::new(y)),
            bool_ok(e0, self.nb(), self.ni()),
        ensures
            bool_ok(r, self.nb(), self.ni()),
            self.folded_bool(r),
            forall|env: Env| self.agrees_with_fixed(env) ==> eval_bool(r, env) == eval_bool(e0, env),
        decreases e0, 0int,
    {
        proof {
            assert(decreases_to!(e0 => e0->Iff_0));
            assert(decreases_to!(e0 => e0->Iff_1));
        }
        let f1 = self.fold_bool(x);
        let f2 = self.fold_bool(y);
        match (f1.is_const(), f2.is_const()) {
            (Some(b1), Some(b2)) => BoolExpr::Const(b1 == b2),
            (Some(false), None) => BoolExpr::Not(Box::new(f2)),
            (Some(true), None) => f2,
            (None, Some(false)) => BoolExpr::Not(Box::new(f1)),
            (None, Some(true)) => f1,
            (None, None) => BoolExpr::Iff(Box::new(f1), Box::new(f2)),
        }
    }

    fn fold_imp(&self, x: BoolExpr, y: BoolExpr, Ghost(e0): Ghost<BoolExpr>) -> (r: BoolExpr)
        requires
            self.wf(),
            self.bool_feasible(e0),
            e0 == BoolExpr::Imp(Box::new(x), Box::new(y)),
            bool_ok(e0, self.nb(), self.ni()),
        ensures
            bool_ok(r, self.nb(), self.ni()),
            self.folded_bool(r),
            forall|env: Env| self.agrees_with_fixed(env) ==> eval_bool(r, env) == eval_bool(e0, env),
        decreases e0, 0int,
    {
        proof {
            assert(decreases_to!(e0 => e0->Imp_0));
            assert(decreases_to!(e0 => e0->Imp_1));
        }
        let f1 = self.fold_bool(x);
        let f2 = self.fold_bool(y);
        match (f1.is_const(), f2.is_const()) {
            (Some(b1), Some(b2)) => BoolExpr::Const(!b1 || b2),
            (Some(false), None) | (None, Some(true)) => BoolExpr::Const(true),
            (Some(true), None) => f2,
            (None, Some(false)) => BoolExpr::Not(Box::new(f1)),
            (None, None) => BoolExpr::Imp(Box::new(f1), Box::new(f2)),
        }
    }

    #[verifier::loop_isolation(false)]
    fn fold_and(&self, es: Vec<Box<BoolExpr>>, Ghost(e0): Ghost<BoolExpr>) -> (r: BoolExpr)
        requires
            self.wf(),
            self.bool_feasible(e0),
            e0 == BoolExpr::And(es),
            bool_ok(e0, self.nb(), self.ni()),
        ensures
            bool_ok(r, self.nb(), self.ni()),
            self.folded_bool(r),
            forall|env: Env| self.agrees_with_fixed(env) ==> eval_bool(r, env) == eval_bool(e0, env),
        decreases e0, 0int,
    {

        let ghost orig = es@;
        let ghost es0 = es;
        let n = es.len();
        let mut rest = es;
        let mut out: Vec<Box<BoolExpr>> = Vec::new();
        let mut i: usize = 0;
        while i < n
            invariant
                self.wf(),
                self.bool_feasible(e0),
                e0 == BoolExpr::And(es0),
                es0@ == orig,
                n == orig.len(),
                i <= n,
                rest@ == orig.subrange(i as int, n as int),
                all_bool_ok(orig, self.nb(), self.ni()),
                all_bool_ok(out@, self.nb(), self.ni()),
                self.all_folded_nonconst(out@),
                forall|env: Env| self.agrees_with_fixed(env) ==> (eval_all(out@, env) <==> (forall|k: int| 0 <= k < i ==> eval_bool(*#[trigger] orig[k], env))),
            decreases n - i,
        {
            let b = rest.remove(0);
            assert(*b == orig[i as int]);
            proof {
                assert(e0->And_0 == es0);
                assert(decreases_to!(e0 => e0->And_0));
                assert(decreases_to!(e0->And_0 => e0->And_0@));
                assert(decreases_to!(e0->And_0@ => e0->And_0@[i as int]));
                assert(decreases_to!(e0 => *b));
            }
            assert(bool_ok(*orig[i as int], self.nb(), self.ni()));
            assert(self.all_bool_feasible(es0@));
            assert(self.bool_feasible(*orig[i as int]));
            let f = self.fold_bool(*b);
            match f {
                BoolExpr::Const(true) => {
                    proof {
                        assert forall|env: Env| self.agrees_with_fixed(env) implies (eval_all(out@, env) <==> (forall|k: int| 0 <= k < i + 1 ==> eval_bool(*#[trigger] orig[k], env))) by {
                            assert(eval_bool(*orig[i as int], env));
                        }
                    }
                },
                BoolExpr::Const(false) => {
                    proof {
                        assert forall|env: Env| self.agrees_with_fixed(env) implies eval_bool(BoolExpr::Const(false), env) == eval_bool(e0, env) by {
                            assert(!eval_bool(*orig[i as int], env));
                            assert(eval_bool(e0, env) == eval_all(es0@, env));
                            assert(!eval_bool(*es0@[i as int], env));
                        }
                    }
                    return BoolExpr::Const(false);
                },
                _ => {
                    let ghost prev = out@;
                    let ghost fb = Box::new(f);
                    out.push(Box::new(f));
                    proof {
                        assert(out@ == prev.push(fb));
                        assert forall|env: Env| self.agrees_with_fixed(env) implies (eval_all(out@, env) <==> (forall|k: int| 0 <= k < i + 1 ==> eval_bool(*#[trigger] orig[k], env))) by {
                            lemma_eval_all_push(prev, fb, env);
                        }
                        assert forall|k: int| 0 <= k < out@.len() implies self.folded_bool(*#[trigger] out@[k]) && !(*out@[k] is Const) && bool_ok(*out@[k], self.nb(), self.ni()) by {
                            if k < prev.len() {
                                assert(out@[k] == prev[k]);
                            }
                        }
                    }
                },
            }
            i += 1;
        }
        proof {
            assert forall|env: Env| self.agrees_with_fixed(env) implies eval_all(out@, env) == eval_bool(e0, env) by {
                assert(eval_bool(e0, env) == eval_all(orig, env));
            }
            if out.len() == 1 {
                assert forall|env: Env| self.agrees_with_fixed(env) implies eval_all(out@, env) == eval_bool(*out@[0], env) by {
                }
            }
        }
        if out.len() == 0 {
            BoolExpr::Const(true)
        } else if out.len() == 1 {
            let b = out.remove(0);
            *b
        } else {
            BoolExpr::And(out)
        }
    }

    #[verifier::loop_isolation(false)]
    fn fold_or(&self, es: Vec<Box<BoolExpr>>, Ghost(e0): Ghost<BoolExpr>) -> (r: BoolExpr)
        requires
            self.wf(),
            self.bool_feasible(e0),
            e0 == BoolExpr::Or(es),
            bool_ok(e0, self.nb(), self.ni()),
        ensures
            bool_ok(r, self.nb(), self.ni()),
            self.folded_bool(r),
            forall|env: Env| self.agrees_with_fixed(env) ==> eval_bool(r, env) == eval_bool(e0, env),
        decreases e0, 0int,
    {

        let ghost orig = es@;
        let ghost es0 = es;
        let n = es.len();
        let mut rest = es;
        let mut out: Vec<Box<BoolExpr>> = Vec::new();
        let mut i: usize = 0;
        while i < n
            invariant
                self.wf(),
                self.bool_feasible(e0),
                e0 == BoolExpr::Or(es0),
                es0@ == orig,
                n == orig.len(),
                i <= n,
                rest@ == orig.subrange(i as int, n as int),
                all_bool_ok(orig, self.nb(), self.ni()),
                all_bool_ok(out@, self.nb(), self.ni()),
                self.all_folded_nonconst(out@),
                forall|env: Env| self.agrees_with_fixed(env) ==> (eval_any(out@, env) <==> (exists|k: int| 0 <= k < i && eval_bool(*#[trigger] orig[k], env))),
            decreases n - i,
        {
            let b = rest.remove(0);
            assert(*b == orig[i as int]);
            proof {
                assert(e0->Or_0 == es0);
                assert(decreases_to!(e0 => e0->Or_0));
                assert(decreases_to!(e0->Or_0 => e0->Or_0@));
                assert(decreases_to!(e0->Or_0@ => e0->Or_0@[i as int]));
                assert(decreases_to!(e0 => *b));
            }
            assert(bool_ok(*orig[i as int], self.nb(), self.ni()));
            assert(self.all_bool_feasible(es0@));
            assert(self.bool_feasible(*orig[i as int]));
            let f = self.fold_bool(*b);
            match f {
                BoolExpr::Const(false) => {
                    proof {
                        assert forall|env: Env| self.agrees_with_fixed(env) implies (eval_any(out@, env) <==> (exists|k: int| 0 <= k < i + 1 && eval_bool(*#[trigger] orig[k], env))) by {
                            assert(!eval_bool(*orig[i as int], env));
                        }
                    }
                },
                BoolExpr::Const(true) => {
                    proof {
                        assert forall|env: Env| self.agrees_with_fixed(env) implies eval_bool(BoolExpr::Const(true), env) == eval_bool(e0, env) by {
                            assert(eval_bool(*orig[i as int], env));
                            assert(eval_bool(e0, env) == eval_any(es0@, env));
                            assert(eval_bool(*es0@[i as int], env));
                        }
                    }
                    return BoolExpr::Const(true);
                },
                _ => {
                    let ghost prev = out@;
                    let ghost fb = Box::new(f);
                    out.push(Box::new(f));
                    proof {
                        assert(out@ == prev.push(fb));
                        assert forall|env: Env| self.agrees_with_fixed(env) implies (eval_any(out@, env) <==> (exists|k: int| 0 <= k < i + 1 && eval_bool(*#[trigger] orig[k], env))) by {
                            lemma_eval_any_push(prev, fb, env);
                        }
                        assert forall|k: int| 0 <= k < out@.len() implies self.folded_bool(*#[trigger] out@[k]) && !(*out@[k] is Const) && bool_ok(*out@[k], self.nb(), self.ni()) by {
                            if k < prev.len() {
                                assert(out@[k] == prev[k]);
                            }
                        }
                    }
                },
            }
            i += 1;
        }
        proof {
            assert forall|env: Env| self.agrees_with_fixed(env) implies eval_any(out@, env) == eval_bool(e0, env) by {
                assert(eval_bool(e0, env) == eval_any(orig, env));
            }
            if out.len() == 1 {
                assert forall|env: Env| self.agrees_with_fixed(env) implies eval_any(out@, env) == eval_bool(*out@[0], env) by {
                }
            }
        }
        if out.len() == 0 {
            BoolExpr::Const(false)
        } else if out.len() == 1 {
            let b = out.remove(0);
            *b
        } else {
            BoolExpr::Or(out)
        }
    }

    #[verifier::loop_isolation(false)]
    fn fold_linear(&self, ts: Vec<(Box<IntExpr>, i32)>, Ghost(e0): Ghost<IntExpr>) -> (r: IntExpr)
        requires
            self.wf(),
            self.int_feasible(e0),
            e0 == IntExpr::Linear(ts),
            int_ok(e0, self.nb(), self.ni()),
        ensures
            int_ok(r, self.nb(), self.ni()),
            self.folded_int(r),
            forall|env: Env| self.agrees_with_fixed(env) ==> eval_int(r, env) == eval_int(e0, env),
        decreases e0, 0int,
    {

        let ghost orig = ts@;
        let ghost ts0 = ts;
        let n = ts.len();
        let mut rest = ts;
        let mut out: Vec<(Box<IntExpr>, i32)> = Vec::new();
        let mut i: usize = 0;
        while i < n
            invariant
                self.wf(),
                self.int_feasible(e0),
                e0 == IntExpr::Linear(ts0),
                ts0@ == orig,
                n == orig.len(),
                i <= n,
                out@.len() == i,
                rest@ == orig.subrange(i as int, n as int),
                terms_ok(orig, self.nb(), self.ni()),
                terms_ok(out@, self.nb(), self.ni()),
                self.terms_folded(out@),
                forall|k: int| 0 <= k < i ==> (#[trigger] out@[k]).1 == orig[k].1,
                forall|env: Env| self.agrees_with_fixed(env) ==> eval_linear(out@, env) == eval_linear(orig.subrange(0, i as int), env),
            decreases n - i,
        {
            let (b, c) = rest.remove(0);
            assert(*b == *orig[i as int].0);
            proof {
                assert(e0->Linear_0 == ts0);
                assert(decreases_to!(e0 => e0->Linear_0));
                assert(decreases_to!(e0->Linear_0 => e0->Linear_0@));
                assert(decreases_to!(e0->Linear_0@ => e0->Linear_0@[i as int]));
                assert(decreases_to!(e0->Linear_0@[i as int] => e0->Linear_0@[i as int].0));
                assert(decreases_to!(e0 => *b));
                assert(int_ok(*orig[i as int].0, self.nb(), self.ni()));
                assert(self.terms_feasible(ts0@));
                assert(self.int_feasible(*orig[i as int].0));
            }
            let f = self.fold_int(*b);
            let ghost prev = out@;
            let ghost t = (Box::new(f), c);
            out.push((Box::new(f), c));
            proof {
                assert(out@ == prev.push(t));
                assert(orig.subrange(0, i + 1).drop_last() =~= orig.subrange(0, i as int));
                assert(orig.subrange(0, i + 1).last() == orig[i as int]);
                assert forall|env: Env| self.agrees_with_fixed(env) implies eval_linear(out@, env) == eval_linear(orig.subrange(0, i + 1), env) by {
                    lemma_eval_linear_push(prev, t, env);
                }
                assert forall|k: int| 0 <= k < out@.len() implies self.folded_int(*(#[trigger] out@[k]).0) && int_ok(*out@[k].0, self.nb(), self.ni()) && out@[k].1 == orig[k].1 by {
                    if k < prev.len() {
                        assert(out@[k] == prev[k]);
                    }
                }
            }
            i += 1;
        }
        proof {
            assert(orig.subrange(0, n as int) =~= orig);
        }
        if out.len() == 0 {
            IntExpr::Const(0)
        } else if out.len() == 1 && out[0].1 == 1 {
            let ghost o = out@;
            let (b, _) = out.remove(0);
            proof {
                assert(o == Seq::<(Box<IntExpr>, i32)>::empty().push(o[0]));
                assert forall|env: Env| self.agrees_with_fixed(env) implies eval_int(*b, env) == eval_linear(o, env) by {
                    lemma_eval_linear_push(Seq::<(Box<IntExpr>, i32)>::empty(), o[0], env);
                }
            }
            *b
        } else {
            IntExpr::Linear(out)
        }
    }

    #[verifier::loop_isolation(false)]
    fn fold_if(&self, c: BoolExpr, t: IntExpr, f: IntExpr, Ghost(e0): Ghost<IntExpr>) -> (r: IntExpr)
        requires
            self.wf(),
            self.int_feasible(e0),
            e0 == IntExpr::If(Box::new(c), Box::new(t), Box::new(f)),
            int_ok(e0, self.nb(), self.ni()),
        ensures
            int_ok(r, self.nb(), self.ni()),
            self.folded_int(r),
            forall|env: Env| self.agrees_with_fixed(env) ==> eval_int(r, env) == eval_int(e0, env),
        decreases e0, 0int,
    {
        proof {
            assert(decreases_to!(e0 => e0->If_0));
            assert(decreases_to!(e0 => e0->If_1));
            assert(decreases_to!(e0 => e0->If_2));
        }
        let fc = self.fold_bool(c);
        let ft = self.fold_int(t);
        let ff = self.fold_int(f);
        match fc.is_const() {
            Some(true) => ft,
            Some(false) => ff,
            None => IntExpr::If(Box::new(fc), Box::new(ft), Box::new(ff)),
        }
    }

    #[verifier::loop_isolation(false)]
    fn fold_mul(&self, x: IntExpr, y: IntExpr, Ghost(e0): Ghost<IntExpr>) -> (r: IntExpr)
        requires
            self.wf(),
            self.int_feasible(e0),
            e0 == IntExpr::Mul(Box::new(x), Box::new(y)),
            int_ok(e0, self.nb(), self.ni()),
        ensures
            int_ok(r, self.nb(), self.ni()),
            self.folded_int(r),
            forall|env: Env| self.agrees_with_fixed(env) ==> eval_int(r, env) == eval_int(e0, env),
        decreases e0, 0int,
    {

        proof {
            assert(decreases_to!(e0 => e0->Mul_0));
            assert(decreases_to!(e0 => e0->Mul_1));
        }
        let f1 = self.fold_int(x);
        let f2 = self.fold_int(y);
        let c1 = f1.as_const();
        let c2 = f2.as_const();
        if c1.is_some() && c2.is_some() {
            let a = c1.unwrap();
            let b = c2.unwrap();
            match a.checked_mul(b) {
                Some(p) => {
                    proof {
                        assert forall|env: Env| self.agrees_with_fixed(env) implies eval_int(e0, env) == p by {
                            assert(eval_int(e0, env) == eval_int(x, env) * eval_int(y, env));
                        }
                    }
                    IntExpr::Const(p)
                },
                None => {
                    let ghost t = (Box::new(IntExpr::Const(b)), a);
                    let mut ts: Vec<(Box<IntExpr>, i32)> = Vec::new();
                    ts.push((Box::new(IntExpr::Const(b)), a));
                    proof {
                        assert(ts@ == Seq::<(Box<IntExpr>, i32)>::empty().push(t));
                        assert forall|env: Env| self.agrees_with_fixed(env) implies eval_int(IntExpr::Linear(ts), env) == eval_int(e0, env) by {
                            lemma_eval_linear_push(Seq::empty(), t, env);
                            assert((b as int) * (a as int) == (a as int) * (b as int)) by (nonlinear_arith);
                            assert(eval_int(e0, env) == eval_int(x, env) * eval_int(y, env));
                        }
                        assert(int_ok(*ts@[0].0, self.nb(), self.ni()));
                        assert(self.folded_int(*ts@[0].0));
                        assert(terms_ok(ts@, self.nb(), self.ni()));
                        assert(self.terms_folded(ts@));
                    }
                    IntExpr::Linear(ts)
                },
            }
        } else if c1 == Some(0i32) || c2 == Some(0i32) {
            proof {
                assert forall|env: Env| self.agrees_with_fixed(env) implies eval_int(e0, env) == 0 by {
                    let p = eval_int(x, env);
                    let q = eval_int(y, env);
                    assert(eval_int(e0, env) == p * q);
                    assert(p == 0 || q == 0);
                    assert(p * q == 0) by (nonlinear_arith)
                        requires
                            p == 0 || q == 0,
                    ;
                }
            }
            IntExpr::Const(0)
        } else if c1.is_some() {
            let c = c1.unwrap();
            let ghost t = (Box::new(f2), c);
            let mut ts: Vec<(Box<IntExpr>, i32)> = Vec::new();
            ts.push((Box::new(f2), c));
            proof {
                assert(ts@ == Seq::<(Box<IntExpr>, i32)>::empty().push(t));
                assert forall|env: Env| self.agrees_with_fixed(env) implies eval_int(IntExpr::Linear(ts), env) == eval_int(e0, env) by {
                    lemma_eval_linear_push(Seq::empty(), t, env);
                    assert(eval_int(f2, env) * (c as int) == (c as int) * eval_int(f2, env)) by (nonlinear_arith);
                    assert(eval_int(e0, env) == eval_int(x, env) * eval_int(y, env));
                }
                assert(int_ok(*ts@[0].0, self.nb(), self.ni()));
                assert(self.folded_int(*ts@[0].0));
                assert(terms_ok(ts@, self.nb(), self.ni()));
                assert(self.terms_folded(ts@));
            }
            IntExpr::Linear(ts)
        } else if c2.is_some() {
            let c = c2.unwrap();
            let ghost t = (Box::new(f1), c);
            let mut ts: Vec<(Box<IntExpr>, i32)> = Vec::new();
            ts.push((Box::new(f1), c));
            proof {
                assert(ts@ == Seq::<(Box<IntExpr>, i32)>::empty().push(t));
                assert forall|env: Env| self.agrees_with_fixed(env) implies eval_int(IntExpr::Linear(ts), env) == eval_int(e0, env) by {
                    lemma_eval_linear_push(Seq::empty(), t, env);
                    assert(eval_int(e0, env) == eval_int(x, env) * eval_int(y, env));
                }
                assert(int_ok(*ts@[0].0, self.nb(), self.ni()));
                assert(self.folded_int(*ts@[0].0));
                assert(terms_ok(ts@, self.nb(), self.ni()));
                assert(self.terms_folded(ts@));
            }
            IntExpr::Linear(ts)
        } else {
            proof {
                assert forall|env: Env| self.agrees_with_fixed(env) implies eval_int(IntExpr::Mul(Box::new(f1), Box::new(f2)), env) == eval_int(e0, env) by {
                    assert(eval_int(e0, env) == eval_int(x, env) * eval_int(y, env));
                }
            }
            IntExpr::Mul(Box::new(f1), Box::new(f2))
        }
    }

    /// Replaces fixed integer variables by their values and simplifies
    /// sums, conditionals and products whose operands became constant.
    #[verifier::loop_isolation(false)]
    pub fn fold_int(&self, e: IntExpr) -> (r: IntExpr)
        requires
            self.wf(),
            self.int_feasible(e),
            int_ok(e, self.nb(), self.ni()),
        ensures
            int_ok(r, self.nb(), self.ni()),
            self.folded_int(r),
            forall|env: Env| self.agrees_with_fixed(env) ==> eval_int(r, env) == eval_int(e, env),
        decreases e, 1int,
    {
        let ghost e0 = e;
        match e {
            IntExpr::Const(c) => IntExpr::Const(c),
            IntExpr::Var(v) => {
                let data = &self.int_var[v.0];
                assert(data.domain.wf());
                match data.domain.as_constant() {
                    Some(c) => {
                        proof {
                            assert forall|env: Env| self.agrees_with_fixed(env) implies env.ints[v.0 as int] == c by {
                                assert(self.int_var@[v.0 as int].domain.contains(env.ints[v.0 as int]));
                            }
                        }
                        IntExpr::Const(c)
                    },
                    None => IntExpr::Var(v),
                }
            },
            IntExpr::Linear(ts) => self.fold_linear(ts, Ghost(e0)),
            IntExpr::If(c, t, f) => self.fold_if(*c, *t, *f, Ghost(e0)),
            IntExpr::Abs(x) => {
                let f = self.fold_int(*x);
                IntExpr::Abs(Box::new(f))
            },
            IntExpr::Mul(x, y) => self.fold_mul(*x, *y, Ghost(e0)),
        }
    }
}

} // verus!
