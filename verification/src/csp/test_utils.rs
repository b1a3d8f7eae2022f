use vstd::prelude::*;

use super::problem::Assignment;
use super::repr::{
    all_bool_ok, bool_ok, eval_all, eval_any, eval_bool, eval_int, eval_linear, int_ok, terms_ok, BoolExpr, Env,
    IntExpr,
};

verus! {

pub open spec fn in_i32(x: int) -> bool {
    i32::MIN <= x <= i32::MAX
}

/// Evaluating `e` under `env` the way `eval_bool_expr` does it (operands
/// of `And` and `Or` left to right, stopping at the first that decides)
/// stays within `i32` everywhere.
pub open spec fn bool_fits(e: BoolExpr, env: Env) -> bool
    decreases e,
{
    match e {
        BoolExpr::Const(_) => true,
        BoolExpr::Var(_) => true,
        BoolExpr::And(es) => and_fits(es@, env),
        BoolExpr::Or(es) => or_fits(es@, env),
        BoolExpr::Not(x) => bool_fits(*x, env),
        BoolExpr::Xor(x, y) => bool_fits(*x, env) && bool_fits(*y, env),
        BoolExpr::Iff(x, y) => bool_fits(*x, env) && bool_fits(*y, env),
        BoolExpr::Imp(x, y) => bool_fits(*x, env) && (eval_bool(*x, env) ==> bool_fits(*y, env)),
        BoolExpr::Cmp(_, x, y) => int_fits(*x, env) && int_fits(*y, env),
    }
}

/// Each operand of a conjunction that is reached fits.
pub open spec fn and_fits(es: Seq<Box<BoolExpr>>, env: Env) -> bool
    decreases es,
{
    forall|i: int|
        0 <= i < es.len() && eval_all(es.take(i), env) ==> bool_fits(*#[trigger] es[i], env)
}

/// Each operand of a disjunction that is reached fits.
pub open spec fn or_fits(es: Seq<Box<BoolExpr>>, env: Env) -> bool
    decreases es,
{
    forall|i: int|
        0 <= i < es.len() && !eval_any(es.take(i), env) ==> bool_fits(*#[trigger] es[i], env)
}

/// The value of `e` and of everything evaluated on the way is within `i32`.
pub open spec fn int_fits(e: IntExpr, env: Env) -> bool
    decreases e,
{
    in_i32(eval_int(e, env)) && match e {
        IntExpr::Const(_) => true,
        IntExpr::Var(_) => true,
        IntExpr::Linear(ts) => terms_fit(ts@, env),
        IntExpr::If(c, t, f) => bool_fits(*c, env) && if eval_bool(*c, env) {
            int_fits(*t, env)
        } else {
            int_fits(*f, env)
        },
        IntExpr::Abs(x) => int_fits(*x, env),
        IntExpr::Mul(x, y) => int_fits(*x, env) && int_fits(*y, env),
    }
}

/// Every term, every weighted term and every partial sum is within `i32`.
pub open spec fn terms_fit(ts: Seq<(Box<IntExpr>, i32)>, env: Env) -> bool
    decreases ts,
{
    forall|i: int|
        0 <= i < ts.len() ==> int_fits(*(#[trigger] ts[i]).0, env) && in_i32(eval_int(*ts[i].0, env) * ts[i].1)
            && in_i32(eval_linear(ts.take(i + 1), env))
}

/// The variables of `e` all have a value in `a`.
pub open spec fn bool_evaluable(a: Assignment, e: BoolExpr) -> bool {
    exists|nb: nat, ni: nat| #[trigger] a.covers(nb, ni) && bool_ok(e, nb, ni)
}

/// The variables of `e` all have a value in `a`.
pub open spec fn int_evaluable(a: Assignment, e: IntExpr) -> bool {
    exists|nb: nat, ni: nat| #[trigger] a.covers(nb, ni) && int_ok(e, nb, ni)
}

/// The value of `expr` under `assignment`.
pub fn eval_bool_expr(assignment: &Assignment, expr: &BoolExpr) -> (r: bool)
    requires
        assignment.wf(),
        bool_evaluable(*assignment, *expr),
        bool_fits(*expr, assignment.env()),
    ensures
        r == eval_bool(*expr, assignment.env()),
    decreases expr,
{
    let ghost env = assignment.env();
    let ghost (nb, ni) = choose|nb: nat, ni: nat| #[trigger] assignment.covers(nb, ni) && bool_ok(*expr, nb, ni);
    proof {
        assignment.lemma_env();
    }
    match expr {
        BoolExpr::Const(b) => *b,
        BoolExpr::Var(v) => {
            assert(assignment.bool_at(v.0 as int) is Some);
            match assignment.get_bool(*v) {
                Some(b) => b,
                None => false,
            }
        },
        BoolExpr::And(es) => {
            let mut i: usize = 0;
            while i < es.len()
                invariant
                    assignment.wf(),
                    env == assignment.env(),
                    assignment.covers(nb, ni),
                    i <= es@.len(),
                    bool_ok(*expr, nb, ni),
                    *expr == BoolExpr::And(*es),
                    and_fits(es@, env),
                    eval_all(es@.take(i as int), env),
                decreases es@.len() - i,
            {
                proof {
                    assert(all_bool_ok(es@, nb, ni));
                    assert(bool_ok(*es@[i as int], nb, ni));
                    assert(bool_fits(*es@[i as int], env));
                    assert(decreases_to!(*expr => *es));
                    assert(decreases_to!(*es => es@));
                    assert(decreases_to!(es@ => es@[i as int]));
                }
                let b = eval_bool_expr(assignment, &es[i]);
                if !b {
                    proof {
                        assert(!eval_all(es@, env)) by {
                            assert(!eval_bool(*es@[i as int], env));
                        }
                    }
                    return false;
                }
                proof {
                    assert forall|k: int| 0 <= k < i + 1 implies eval_bool(*#[trigger] es@.take(i + 1)[k], env) by {
                        if k < i {
                            assert(es@.take(i + 1)[k] == es@.take(i as int)[k]);
                        }
                    }
                }
                i += 1;
            }
            proof {
                assert(es@.take(i as int) =~= es@);
            }
            true
        },
        BoolExpr::Or(es) => {
            let mut i: usize = 0;
            while i < es.len()
                invariant
                    assignment.wf(),
                    env == assignment.env(),
                    assignment.covers(nb, ni),
                    i <= es@.len(),
                    bool_ok(*expr, nb, ni),
                    *expr == BoolExpr::Or(*es),
                    or_fits(es@, env),
                    !eval_any(es@.take(i as int), env),
                decreases es@.len() - i,
            {
                proof {
                    assert(all_bool_ok(es@, nb, ni));
                    assert(bool_ok(*es@[i as int], nb, ni));
                    assert(bool_fits(*es@[i as int], env));
                    assert(decreases_to!(*expr => *es));
                    assert(decreases_to!(*es => es@));
                    assert(decreases_to!(es@ => es@[i as int]));
                }
                let b = eval_bool_expr(assignment, &es[i]);
                if b {
                    proof {
                        assert(eval_any(es@, env)) by {
                            assert(eval_bool(*es@[i as int], env));
                        }
                    }
                    return true;
                }
                proof {
                    assert forall|k: int| 0 <= k < i + 1 implies !eval_bool(*#[trigger] es@.take(i + 1)[k], env) by {
                        if k < i {
                            assert(es@.take(i + 1)[k] == es@.take(i as int)[k]);
                            if eval_bool(*es@.take(i as int)[k], env) {
                                assert(eval_any(es@.take(i as int), env));
                            }
                        }
                    }
                }
                i += 1;
            }
            proof {
                assert(es@.take(i as int) =~= es@);
            }
            false
        },
        BoolExpr::Not(x) => !eval_bool_expr(assignment, x),
        BoolExpr::Xor(x, y) => {
            let a = eval_bool_expr(assignment, x);
            let b = eval_bool_expr(assignment, y);
            a != b
        },
        BoolExpr::Iff(x, y) => {
            let a = eval_bool_expr(assignment, x);
            let b = eval_bool_expr(assignment, y);
            a == b
        },
        BoolExpr::Imp(x, y) => {
            let a = eval_bool_expr(assignment, x);
            if !a {
                true
            } else {
                eval_bool_expr(assignment, y)
            }
        },
        BoolExpr::Cmp(op, x, y) => {
            let v1 = eval_int_expr(assignment, x);
            let v2 = eval_int_expr(assignment, y);
            op.compare(v1, v2)
        },
    }
}

/// The value of `expr` under `assignment`.
pub fn eval_int_expr(assignment: &Assignment, expr: &IntExpr) -> (r: i32)
    requires
        assignment.wf(),
        int_evaluable(*assignment, *expr),
        int_fits(*expr, assignment.env()),
    ensures
        r == eval_int(*expr, assignment.env()),
    decreases expr,
{
    let ghost env = assignment.env();
    let ghost (nb, ni) = choose|nb: nat, ni: nat| #[trigger] assignment.covers(nb, ni) && int_ok(*expr, nb, ni);
    proof {
        assignment.lemma_env();
    }
    match expr {
        IntExpr::Const(c) => *c,
        IntExpr::Var(v) => {
            assert(assignment.int_at(v.0 as int) is Some);
            match assignment.get_int(*v) {
                Some(x) => x,
                None => 0,
            }
        },
        IntExpr::Linear(ts) => {
            let mut ret: i32 = 0;
            let mut i: usize = 0;
            while i < ts.len()
                invariant
                    assignment.wf(),
                    env == assignment.env(),
                    assignment.covers(nb, ni),
                    i <= ts@.len(),
                    int_ok(*expr, nb, ni),
                    *expr == IntExpr::Linear(*ts),
                    terms_fit(ts@, env),
                    ret == eval_linear(ts@.take(i as int), env),
                decreases ts@.len() - i,
            {
                proof {
                    assert(terms_ok(ts@, nb, ni));
                    assert(int_ok(*ts@[i as int].0, nb, ni));
                    assert(int_fits(*ts@[i as int].0, env));
                    assert(decreases_to!(*expr => *ts));
                    assert(decreases_to!(*ts => ts@));
                    assert(decreases_to!(ts@ => ts@[i as int]));
                    assert(decreases_to!(ts@[i as int] => ts@[i as int].0));
                }
                let v = eval_int_expr(assignment, &ts[i].0);
                let c = ts[i].1;
                proof {
                    assert(ts@.take(i + 1).drop_last() =~= ts@.take(i as int));
                    assert(ts@.take(i + 1).last() == ts@[i as int]);
                }
                let term = v * c;
                ret = ret + term;
                i += 1;
            }
            proof {
                assert(ts@.take(i as int) =~= ts@);
            }
            ret
        },
        IntExpr::If(c, t, f) => {
            let b = eval_bool_expr(assignment, c);
            if b {
                eval_int_expr(assignment, t)
            } else {
                eval_int_expr(assignment, f)
            }
        },
        IntExpr::Abs(x) => {
            let v = eval_int_expr(assignment, x);
            if v < 0 {
                -v
            } else {
                v
            }
        },
        IntExpr::Mul(x, y) => {
            let v1 = eval_int_expr(assignment, x);
            let v2 = eval_int_expr(assignment, y);
            v1 * v2
        },
    }
}

} // verus!
