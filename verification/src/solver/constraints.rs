//! Building single expressions out of arrays of expressions.

use vstd::prelude::*;
use crate::csp::repr::{eval_bool, eval_int, eval_linear, BoolExpr, Env, IntExpr};
use crate::solver2::ndarray::NdArray;

pub use crate::solver2::constraints::{all, any, count_true, sum};

verus! {

/// The number of leading expressions that hold.
pub open spec fn true_prefix(vs: Seq<BoolExpr>, env: Env) -> int
    decreases vs.len(),
{
    if vs.len() == 0 {
        0
    } else if eval_bool(vs[0], env) {
        1 + true_prefix(vs.drop_first(), env)
    } else {
        0
    }
}

/// The number of leading values that hold.
pub fn consecutive_prefix_true(values: Vec<BoolExpr>) -> (r: NdArray<(), IntExpr>)
    ensures
        r.data@.len() == 1,
        forall|env: Env| #[trigger] eval_int(r.data@[0], env) == true_prefix(values@, env),
{
    let ghost v0 = values@;
    let n = values.len();
    let mut values = values;
    let mut ret = IntExpr::Const(0);
    proof {
        assert forall|env: Env| #[trigger] eval_int(ret, env) == true_prefix(v0.subrange(n as int, n as int), env) by {
            assert(v0.subrange(n as int, n as int).len() == 0);
        }
    }
    while values.len() > 0
        invariant
            n == v0.len(),
            values@.len() <= n,
            values@ == v0.subrange(0, values@.len() as int),
            forall|env: Env| #[trigger] eval_int(ret, env) == true_prefix(v0.subrange(values@.len() as int, n as int), env),
        decreases values@.len(),
    {
        let k = values.len();
        let ghost before = values@;
        let t = values.pop().unwrap();
        assert(before[k - 1] == v0[k - 1]);
        assert(t == v0[k - 1]);
        let ghost prev = ret;
        let mut terms: Vec<(Box<IntExpr>, i32)> = Vec::new();
        terms.push((Box::new(ret), 1));
        terms.push((Box::new(IntExpr::Const(1)), 1));
        let ghost ts = terms@;
        proof {
            assert(ts.drop_last().drop_last() =~= Seq::<(Box<IntExpr>, i32)>::empty());
            assert(ts.drop_last().last() == (Box::new(prev), 1i32));
            assert(ts.last() == (Box::new(IntExpr::Const(1)), 1i32));
        }
        let plus_one = IntExpr::Linear(terms);
        ret = t.ite(plus_one, IntExpr::Const(0));
        proof {
            let s = v0.subrange(k - 1, n as int);
            assert(s.drop_first() =~= v0.subrange(k as int, n as int));
            assert(s[0] == t);
            assert forall|env: Env| #[trigger] eval_int(ret, env) == true_prefix(v0.subrange(k - 1, n as int), env) by {
                assert(eval_int(plus_one, env) == eval_int(prev, env) + 1) by {
                    assert(eval_linear(ts.drop_last().drop_last(), env) == 0);
                    assert(ts.drop_last().len() == 1);
                    assert(eval_int(*ts.drop_last().last().0, env) == eval_int(prev, env));
                    let a = eval_int(*ts.drop_last().last().0, env);
                    let b = ts.drop_last().last().1 as int;
                    assert(b == 1);
                    assert(a * b == a) by (nonlinear_arith)
                        requires
                            b == 1,
                    ;
                    let c = eval_int(*ts.last().0, env);
                    let d = ts.last().1 as int;
                    assert(c == 1 && d == 1);
                    assert(c * d == 1) by (nonlinear_arith)
                        requires
                            c == 1,
                            d == 1,
                    ;
                    assert(eval_linear(ts.drop_last(), env) == eval_linear(ts.drop_last().drop_last(), env) + eval_int(*ts.drop_last().last().0, env) * ts.drop_last().last().1);
                    assert(eval_linear(ts.drop_last(), env) == eval_int(prev, env));
                    assert(eval_linear(ts, env) == eval_int(prev, env) + 1);
                }
                reveal_with_fuel(eval_int, 2);
            }
            assert(values@ =~= v0.subrange(0, k - 1));
        }
    }
    proof {
        assert(v0.subrange(0, n as int) =~= v0);
    }
    NdArray { shape: (), data: vec![ret] }
}

/// The constant `b`.
pub fn bool_constant(b: bool) -> (r: NdArray<(), BoolExpr>)
    ensures
        r.data@ == seq![BoolExpr::Const(b)],
{
    NdArray { shape: (), data: vec![BoolExpr::Const(b)] }
}

/// The constant `n`.
pub fn int_constant(n: i32) -> (r: NdArray<(), IntExpr>)
    ensures
        r.data@ == seq![IntExpr::Const(n)],
{
    NdArray { shape: (), data: vec![IntExpr::Const(n)] }
}

} // verus!
