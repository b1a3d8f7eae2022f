use vstd::prelude::*;

use crate::arithmetic::{op_holds, CmpOp};
use crate::csp::repr::Env;
use crate::csp::{BoolExpr, BoolVar, IntExpr, IntVar};
use crate::norm_csp::BoolVar as NBoolVar;
use crate::norm_csp::IntVar as NIntVar;

verus! {

/// A Boolean expression over CSP variables and variables of the normalized
/// CSP (introduced while normalizing).
pub enum AuxBoolExpr {
    Const(bool),
    Var(BoolVar),
    NVar(NBoolVar),
    And(Vec<Box<AuxBoolExpr>>),
    Or(Vec<Box<AuxBoolExpr>>),
    Not(Box<AuxBoolExpr>),
    Xor(Box<AuxBoolExpr>, Box<AuxBoolExpr>),
    Iff(Box<AuxBoolExpr>, Box<AuxBoolExpr>),
    Imp(Box<AuxBoolExpr>, Box<AuxBoolExpr>),
    Cmp(CmpOp, Box<AuxIntExpr>, Box<AuxIntExpr>),
}

/// An integer expression over CSP variables and variables of the
/// normalized CSP.
pub enum AuxIntExpr {
    Const(i32),
    Var(IntVar),
    NVar(NIntVar),
    Linear(Vec<(Box<AuxIntExpr>, i32)>),
    If(Box<AuxBoolExpr>, Box<AuxIntExpr>, Box<AuxIntExpr>),
    Abs(Box<AuxIntExpr>),
    Mul(Box<AuxIntExpr>, Box<AuxIntExpr>),
}

/// The value of `e` when CSP variables take their values from `env` and
/// normalized variables theirs from `nenv`.
pub open spec fn aux_eval_bool(e: AuxBoolExpr, env: Env, nenv: Env) -> bool
    decreases e,
{
    match e {
        AuxBoolExpr::Const(b) => b,
        AuxBoolExpr::Var(v) => env.bools[v.0 as int],
        AuxBoolExpr::NVar(v) => v.0 < nenv.bools.len() && nenv.bools[v.0 as int],
        AuxBoolExpr::And(es) => aux_eval_all(es@, env, nenv),
        AuxBoolExpr::Or(es) => aux_eval_any(es@, env, nenv),
        AuxBoolExpr::Not(x) => !aux_eval_bool(*x, env, nenv),
        AuxBoolExpr::Xor(x, y) => aux_eval_bool(*x, env, nenv) != aux_eval_bool(*y, env, nenv),
        AuxBoolExpr::Iff(x, y) => aux_eval_bool(*x, env, nenv) == aux_eval_bool(*y, env, nenv),
        AuxBoolExpr::Imp(x, y) => !aux_eval_bool(*x, env, nenv) || aux_eval_bool(*y, env, nenv),
        AuxBoolExpr::Cmp(op, x, y) => op_holds(op, aux_eval_int(*x, env, nenv), aux_eval_int(*y, env, nenv)),
    }
}

/// Every expression of the sequence holds.
pub open spec fn aux_eval_all(es: Seq<Box<AuxBoolExpr>>, env: Env, nenv: Env) -> bool
    decreases es,
{
    forall|i: int| 0 <= i < es.len() ==> aux_eval_bool(*#[trigger] es[i], env, nenv)
}

/// Some expression of the sequence holds.
pub open spec fn aux_eval_any(es: Seq<Box<AuxBoolExpr>>, env: Env, nenv: Env) -> bool
    decreases es,
{
    exists|i: int| 0 <= i < es.len() && aux_eval_bool(*#[trigger] es[i], env, nenv)
}

/// The value of `e` when CSP variables take their values from `env` and
/// normalized variables theirs from `nenv`.
pub open spec fn aux_eval_int(e: AuxIntExpr, env: Env, nenv: Env) -> int
    decreases e,
{
    match e {
        AuxIntExpr::Const(c) => c as int,
        AuxIntExpr::Var(v) => env.ints[v.0 as int],
        AuxIntExpr::NVar(v) => nenv.ints[v.0 as int],
        AuxIntExpr::Linear(ts) => aux_eval_linear(ts@, env, nenv),
        AuxIntExpr::If(c, t, f) => if aux_eval_bool(*c, env, nenv) {
            aux_eval_int(*t, env, nenv)
        } else {
            aux_eval_int(*f, env, nenv)
        },
        AuxIntExpr::Abs(x) => {
            let v = aux_eval_int(*x, env, nenv);
            if v < 0 {
                -v
            } else {
                v
            }
        },
        AuxIntExpr::Mul(x, y) => aux_eval_int(*x, env, nenv) * aux_eval_int(*y, env, nenv),
    }
}

/// The value of a sum of weighted terms.
pub open spec fn aux_eval_linear(ts: Seq<(Box<AuxIntExpr>, i32)>, env: Env, nenv: Env) -> int
    decreases ts,
{
    if ts.len() == 0 {
        0
    } else {
        aux_eval_linear(ts.drop_last(), env, nenv) + aux_eval_int(*ts.last().0, env, nenv) * ts.last().1
    }
}

/// Every formula of `extra` from position `from` on holds.
pub open spec fn extras_hold(extra: Seq<AuxBoolExpr>, from: int, env: Env, nenv: Env) -> bool {
    forall|k: int| from <= k < extra.len() ==> aux_eval_bool(#[trigger] extra[k], env, nenv)
}

/// Every normalized Boolean variable of `e` is one that `ok` allows.
pub open spec fn aux_bool_nvars(e: AuxBoolExpr, ok: spec_fn(int) -> bool) -> bool
    decreases e,
{
    match e {
        AuxBoolExpr::Const(_) => true,
        AuxBoolExpr::Var(_) => true,
        AuxBoolExpr::NVar(v) => ok(v.0 as int),
        AuxBoolExpr::And(es) => aux_all_nvars(es@, ok),
        AuxBoolExpr::Or(es) => aux_all_nvars(es@, ok),
        AuxBoolExpr::Not(x) => aux_bool_nvars(*x, ok),
        AuxBoolExpr::Xor(x, y) => aux_bool_nvars(*x, ok) && aux_bool_nvars(*y, ok),
        AuxBoolExpr::Iff(x, y) => aux_bool_nvars(*x, ok) && aux_bool_nvars(*y, ok),
        AuxBoolExpr::Imp(x, y) => aux_bool_nvars(*x, ok) && aux_bool_nvars(*y, ok),
        AuxBoolExpr::Cmp(_, x, y) => aux_int_nvars(*x, ok) && aux_int_nvars(*y, ok),
    }
}

pub open spec fn aux_all_nvars(es: Seq<Box<AuxBoolExpr>>, ok: spec_fn(int) -> bool) -> bool
    decreases es,
{
    forall|i: int| 0 <= i < es.len() ==> aux_bool_nvars(*#[trigger] es[i], ok)
}

/// Every normalized Boolean variable of `e` is one that `ok` allows.
pub open spec fn aux_int_nvars(e: AuxIntExpr, ok: spec_fn(int) -> bool) -> bool
    decreases e,
{
    match e {
        AuxIntExpr::Const(_) => true,
        AuxIntExpr::Var(_) => true,
        AuxIntExpr::NVar(_) => true,
        AuxIntExpr::Linear(ts) => aux_terms_nvars(ts@, ok),
        AuxIntExpr::If(c, t, f) => aux_bool_nvars(*c, ok) && aux_int_nvars(*t, ok) && aux_int_nvars(*f, ok),
        AuxIntExpr::Abs(x) => aux_int_nvars(*x, ok),
        AuxIntExpr::Mul(x, y) => aux_int_nvars(*x, ok) && aux_int_nvars(*y, ok),
    }
}

pub open spec fn aux_terms_nvars(ts: Seq<(Box<AuxIntExpr>, i32)>, ok: spec_fn(int) -> bool) -> bool
    decreases ts,
{
    forall|i: int| 0 <= i < ts.len() ==> aux_int_nvars(*(#[trigger] ts[i]).0, ok)
}

/// The two valuations of normalized variables agree on the Boolean ones
/// that `ok` allows and on all integer ones.
pub open spec fn agree_on(n1: Env, n2: Env, ok: spec_fn(int) -> bool) -> bool {
    &&& n1.ints == n2.ints
    &&& n1.bools.len() == n2.bools.len()
    &&& forall|i: int| #[trigger] ok(i) && 0 <= i < n1.bools.len() ==> n1.bools[i] == n2.bools[i]
}

/// An expression has the same value under valuations that agree on its
/// normalized variables.
pub proof fn lemma_aux_bool_frame(e: AuxBoolExpr, ok: spec_fn(int) -> bool, env: Env, n1: Env, n2: Env)
    requires
        aux_bool_nvars(e, ok),
        agree_on(n1, n2, ok),
    ensures
        aux_eval_bool(e, env, n1) == aux_eval_bool(e, env, n2),
    decreases e,
{
    match e {
        AuxBoolExpr::Const(_) => {},
        AuxBoolExpr::Var(_) => {},
        AuxBoolExpr::NVar(v) => {
            assert(ok(v.0 as int));
            if v.0 < n1.bools.len() {
                assert(n1.bools[v.0 as int] == n2.bools[v.0 as int]);
            }
        },
        AuxBoolExpr::And(es) => {
            assert forall|i: int| 0 <= i < es@.len() implies aux_eval_bool(*#[trigger] es@[i], env, n1) == aux_eval_bool(*es@[i], env, n2) by {
                assert(decreases_to!(e => es));
                assert(decreases_to!(es => es@));
                assert(decreases_to!(es@ => es@[i]));
                assert(aux_all_nvars(es@, ok));
                assert(aux_bool_nvars(*es@[i], ok));
                lemma_aux_bool_frame(*es@[i], ok, env, n1, n2);
            }
            assert(aux_eval_all(es@, env, n1) == aux_eval_all(es@, env, n2));
        },
        AuxBoolExpr::Or(es) => {
            assert forall|i: int| 0 <= i < es@.len() implies aux_eval_bool(*#[trigger] es@[i], env, n1) == aux_eval_bool(*es@[i], env, n2) by {
                assert(decreases_to!(e => es));
                assert(decreases_to!(es => es@));
                assert(decreases_to!(es@ => es@[i]));
                assert(aux_all_nvars(es@, ok));
                assert(aux_bool_nvars(*es@[i], ok));
                lemma_aux_bool_frame(*es@[i], ok, env, n1, n2);
            }
            if aux_eval_any(es@, env, n1) {
                let i = choose|i: int| 0 <= i < es@.len() && aux_eval_bool(*#[trigger] es@[i], env, n1);
                assert(aux_eval_bool(*es@[i], env, n2));
            }
            if aux_eval_any(es@, env, n2) {
                let i = choose|i: int| 0 <= i < es@.len() && aux_eval_bool(*#[trigger] es@[i], env, n2);
                assert(aux_eval_bool(*es@[i], env, n1));
            }
        },
        AuxBoolExpr::Not(x) => {
            lemma_aux_bool_frame(*x, ok, env, n1, n2);
        },
        AuxBoolExpr::Xor(x, y) => {
            lemma_aux_bool_frame(*x, ok, env, n1, n2);
            lemma_aux_bool_frame(*y, ok, env, n1, n2);
        },
        AuxBoolExpr::Iff(x, y) => {
            lemma_aux_bool_frame(*x, ok, env, n1, n2);
            lemma_aux_bool_frame(*y, ok, env, n1, n2);
        },
        AuxBoolExpr::Imp(x, y) => {
            lemma_aux_bool_frame(*x, ok, env, n1, n2);
            lemma_aux_bool_frame(*y, ok, env, n1, n2);
        },
        AuxBoolExpr::Cmp(_, x, y) => {
            lemma_aux_int_frame(*x, ok, env, n1, n2);
            lemma_aux_int_frame(*y, ok, env, n1, n2);
        },
    }
}

/// An expression has the same value under valuations that agree on its
/// normalized variables.
pub proof fn lemma_aux_int_frame(e: AuxIntExpr, ok: spec_fn(int) -> bool, env: Env, n1: Env, n2: Env)
    requires
        aux_int_nvars(e, ok),
        agree_on(n1, n2, ok),
    ensures
        aux_eval_int(e, env, n1) == aux_eval_int(e, env, n2),
    decreases e,
{
    match e {
        AuxIntExpr::Const(_) => {},
        AuxIntExpr::Var(_) => {},
        AuxIntExpr::NVar(_) => {},
        AuxIntExpr::Linear(ts) => {
            assert(decreases_to!(e => ts));
            assert(decreases_to!(ts => ts@));
            lemma_aux_linear_frame(ts@, ok, env, n1, n2);
        },
        AuxIntExpr::If(c, t, f) => {
            lemma_aux_bool_frame(*c, ok, env, n1, n2);
            lemma_aux_int_frame(*t, ok, env, n1, n2);
            lemma_aux_int_frame(*f, ok, env, n1, n2);
        },
        AuxIntExpr::Abs(x) => {
            lemma_aux_int_frame(*x, ok, env, n1, n2);
        },
        AuxIntExpr::Mul(x, y) => {
            lemma_aux_int_frame(*x, ok, env, n1, n2);
            lemma_aux_int_frame(*y, ok, env, n1, n2);
        },
    }
}

pub proof fn lemma_aux_linear_frame(ts: Seq<(Box<AuxIntExpr>, i32)>, ok: spec_fn(int) -> bool, env: Env, n1: Env, n2: Env)
    requires
        aux_terms_nvars(ts, ok),
        agree_on(n1, n2, ok),
    ensures
        aux_eval_linear(ts, env, n1) == aux_eval_linear(ts, env, n2),
    decreases ts,
{
    if ts.len() > 0 {
        let init = ts.drop_last();
        assert(decreases_to!(ts => init)) by {
            assert(init =~= ts.subrange(0, ts.len() - 1));
        }
        assert(aux_terms_nvars(init, ok)) by {
            assert forall|i: int| 0 <= i < init.len() implies aux_int_nvars(*(#[trigger] init[i]).0, ok) by {
                assert(init[i] == ts[i]);
            }
        }
        lemma_aux_linear_frame(init, ok, env, n1, n2);
        assert(decreases_to!(ts => ts[ts.len() - 1]));
        assert(decreases_to!(ts[ts.len() - 1] => ts[ts.len() - 1].0));
        assert(aux_int_nvars(*ts[ts.len() - 1].0, ok));
        lemma_aux_int_frame(*ts.last().0, ok, env, n1, n2);
    }
}

/// Allowing more variables keeps an expression within what is allowed.
pub proof fn lemma_aux_bool_nvars_mono(e: AuxBoolExpr, p: spec_fn(int) -> bool, q: spec_fn(int) -> bool)
    requires
        aux_bool_nvars(e, p),
        forall|i: int| #[trigger] p(i) ==> q(i),
    ensures
        aux_bool_nvars(e, q),
    decreases e,
{
    match e {
        AuxBoolExpr::And(es) => {
            assert(aux_all_nvars(es@, p));
            assert forall|i: int| 0 <= i < es@.len() implies aux_bool_nvars(*#[trigger] es@[i], q) by {
                assert(decreases_to!(e => es));
                assert(decreases_to!(es => es@));
                assert(decreases_to!(es@ => es@[i]));
                lemma_aux_bool_nvars_mono(*es@[i], p, q);
            }
            assert(aux_all_nvars(es@, q));
        },
        AuxBoolExpr::Or(es) => {
            assert(aux_all_nvars(es@, p));
            assert forall|i: int| 0 <= i < es@.len() implies aux_bool_nvars(*#[trigger] es@[i], q) by {
                assert(decreases_to!(e => es));
                assert(decreases_to!(es => es@));
                assert(decreases_to!(es@ => es@[i]));
                lemma_aux_bool_nvars_mono(*es@[i], p, q);
            }
            assert(aux_all_nvars(es@, q));
        },
        AuxBoolExpr::Not(x) => {
            lemma_aux_bool_nvars_mono(*x, p, q);
        },
        AuxBoolExpr::Xor(x, y) => {
            lemma_aux_bool_nvars_mono(*x, p, q);
            lemma_aux_bool_nvars_mono(*y, p, q);
        },
        AuxBoolExpr::Iff(x, y) => {
            lemma_aux_bool_nvars_mono(*x, p, q);
            lemma_aux_bool_nvars_mono(*y, p, q);
        },
        AuxBoolExpr::Imp(x, y) => {
            lemma_aux_bool_nvars_mono(*x, p, q);
            lemma_aux_bool_nvars_mono(*y, p, q);
        },
        AuxBoolExpr::Cmp(_, x, y) => {
            lemma_aux_int_nvars_mono(*x, p, q);
            lemma_aux_int_nvars_mono(*y, p, q);
        },
        _ => {},
    }
}

/// Allowing more variables keeps an expression within what is allowed.
pub proof fn lemma_aux_int_nvars_mono(e: AuxIntExpr, p: spec_fn(int) -> bool, q: spec_fn(int) -> bool)
    requires
        aux_int_nvars(e, p),
        forall|i: int| #[trigger] p(i) ==> q(i),
    ensures
        aux_int_nvars(e, q),
    decreases e,
{
    match e {
        AuxIntExpr::Linear(ts) => {
            assert(aux_terms_nvars(ts@, p));
            assert forall|i: int| 0 <= i < ts@.len() implies aux_int_nvars(*(#[trigger] ts@[i]).0, q) by {
                assert(decreases_to!(e => ts));
                assert(decreases_to!(ts => ts@));
                assert(decreases_to!(ts@ => ts@[i]));
                assert(decreases_to!(ts@[i] => ts@[i].0));
                lemma_aux_int_nvars_mono(*ts@[i].0, p, q);
            }
            assert(aux_terms_nvars(ts@, q));
        },
        AuxIntExpr::If(c, t, f) => {
            lemma_aux_bool_nvars_mono(*c, p, q);
            lemma_aux_int_nvars_mono(*t, p, q);
            lemma_aux_int_nvars_mono(*f, p, q);
        },
        AuxIntExpr::Abs(x) => {
            lemma_aux_int_nvars_mono(*x, p, q);
        },
        AuxIntExpr::Mul(x, y) => {
            lemma_aux_int_nvars_mono(*x, p, q);
            lemma_aux_int_nvars_mono(*y, p, q);
        },
        _ => {},
    }
}

/// The same expression, as one that may also mention normalized variables.
pub(crate) fn lift_bool(e: BoolExpr) -> (r: AuxBoolExpr)
    decreases e, 1int,
{
    let ghost e0 = e;
    match e {
        BoolExpr::Const(b) => AuxBoolExpr::Const(b),
        BoolExpr::Var(v) => AuxBoolExpr::Var(v),
        BoolExpr::And(es) => AuxBoolExpr::And(lift_bools(es, Ghost(e0))),
        BoolExpr::Or(es) => AuxBoolExpr::Or(lift_bools(es, Ghost(e0))),
        BoolExpr::Not(x) => {
            proof {
                assert(decreases_to!(e0 => e0->Not_0));
            }
            AuxBoolExpr::Not(Box::new(lift_bool(*x)))
        },
        BoolExpr::Xor(x, y) => {
            proof {
                assert(decreases_to!(e0 => e0->Xor_0));
                assert(decreases_to!(e0 => e0->Xor_1));
            }
            AuxBoolExpr::Xor(Box::new(lift_bool(*x)), Box::new(lift_bool(*y)))
        },
        BoolExpr::Iff(x, y) => {
            proof {
                assert(decreases_to!(e0 => e0->Iff_0));
                assert(decreases_to!(e0 => e0->Iff_1));
            }
            AuxBoolExpr::Iff(Box::new(lift_bool(*x)), Box::new(lift_bool(*y)))
        },
        BoolExpr::Imp(x, y) => {
            proof {
                assert(decreases_to!(e0 => e0->Imp_0));
                assert(decreases_to!(e0 => e0->Imp_1));
            }
            AuxBoolExpr::Imp(Box::new(lift_bool(*x)), Box::new(lift_bool(*y)))
        },
        BoolExpr::Cmp(op, x, y) => {
            proof {
                assert(decreases_to!(e0 => e0->Cmp_1));
                assert(decreases_to!(e0 => e0->Cmp_2));
            }
            AuxBoolExpr::Cmp(op, Box::new(lift_int(*x)), Box::new(lift_int(*y)))
        },
    }
}

fn lift_bools(es: Vec<Box<BoolExpr>>, Ghost(e0): Ghost<BoolExpr>) -> (r: Vec<Box<AuxBoolExpr>>)
    requires
        e0 == BoolExpr::And(es) || e0 == BoolExpr::Or(es),
    ensures
        r@.len() == es@.len(),
    decreases e0, 0int,
{
    let ghost orig = es@;
    let n = es.len();
    let mut rest = es;
    let mut out: Vec<Box<AuxBoolExpr>> = Vec::new();
    let mut i: usize = 0;
    while i < n
        invariant
            e0 == BoolExpr::And(es) || e0 == BoolExpr::Or(es),
            es@ == orig,
            n == orig.len(),
            i <= n,
            out@.len() == i,
            rest@ == orig.subrange(i as int, n as int),
        decreases n - i,
    {
        let b = rest.remove(0);
        assert(*b == orig[i as int]);
        proof {
            if e0 is And {
                assert(decreases_to!(e0 => e0->And_0));
                assert(decreases_to!(e0->And_0 => e0->And_0@));
                assert(decreases_to!(e0->And_0@ => e0->And_0@[i as int]));
            } else {
                assert(decreases_to!(e0 => e0->Or_0));
                assert(decreases_to!(e0->Or_0 => e0->Or_0@));
                assert(decreases_to!(e0->Or_0@ => e0->Or_0@[i as int]));
            }
            assert(decreases_to!(e0 => *b));
        }
        out.push(Box::new(lift_bool(*b)));
        i += 1;
    }
    out
}

fn lift_terms(ts: Vec<(Box<IntExpr>, i32)>, Ghost(e0): Ghost<IntExpr>) -> (r: Vec<(Box<AuxIntExpr>, i32)>)
    requires
        e0 == IntExpr::Linear(ts),
    ensures
        r@.len() == ts@.len(),
    decreases e0, 0int,
{
    let ghost orig = ts@;
    let n = ts.len();
    let mut rest = ts;
    let mut out: Vec<(Box<AuxIntExpr>, i32)> = Vec::new();
    let mut i: usize = 0;
    while i < n
        invariant
            e0 == IntExpr::Linear(ts),
            ts@ == orig,
            n == orig.len(),
            i <= n,
            out@.len() == i,
            rest@ == orig.subrange(i as int, n as int),
        decreases n - i,
    {
        let (b, c) = rest.remove(0);
        assert(b == orig[i as int].0);
        proof {
            assert(decreases_to!(e0 => e0->Linear_0));
            assert(decreases_to!(e0->Linear_0 => e0->Linear_0@));
            assert(decreases_to!(e0->Linear_0@ => e0->Linear_0@[i as int]));
            assert(decreases_to!(e0->Linear_0@[i as int] => e0->Linear_0@[i as int].0));
            assert(decreases_to!(e0 => *b));
        }
        out.push((Box::new(lift_int(*b)), c));
        i += 1;
    }
    out
}

/// The same integer expression, as one that may also mention normalized
/// variables.
pub(crate) fn lift_int(e: IntExpr) -> (r: AuxIntExpr)
    decreases e, 1int,
{
    let ghost e0 = e;
    match e {
        IntExpr::Const(c) => AuxIntExpr::Const(c),
        IntExpr::Var(v) => AuxIntExpr::Var(v),
        IntExpr::Linear(ts) => AuxIntExpr::Linear(lift_terms(ts, Ghost(e0))),
        IntExpr::If(c, t, f) => {
            proof {
                assert(decreases_to!(e0 => e0->If_0));
                assert(decreases_to!(e0 => e0->If_1));
                assert(decreases_to!(e0 => e0->If_2));
            }
            AuxIntExpr::If(Box::new(lift_bool(*c)), Box::new(lift_int(*t)), Box::new(lift_int(*f)))
        },
        IntExpr::Abs(x) => {
            proof {
                assert(decreases_to!(e0 => e0->Abs_0));
            }
            AuxIntExpr::Abs(Box::new(lift_int(*x)))
        },
        IntExpr::Mul(x, y) => {
            proof {
                assert(decreases_to!(e0 => e0->Mul_0));
                assert(decreases_to!(e0 => e0->Mul_1));
            }
            AuxIntExpr::Mul(Box::new(lift_int(*x)), Box::new(lift_int(*y)))
        },
    }
}

} // verus!
