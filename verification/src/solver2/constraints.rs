//! Building single expressions out of arrays of expressions.

use vstd::prelude::*;
use super::ndarray::NdArray;
use crate::csp::repr::{eval_all, eval_any, eval_bool, eval_int, eval_linear, BoolExpr, Env, IntExpr};

verus! {

/// The total value of the expressions.
pub open spec fn sum_of(vs: Seq<IntExpr>, env: Env) -> int
    decreases vs.len(),
{
    if vs.len() == 0 {
        0
    } else {
        sum_of(vs.drop_last(), env) + eval_int(vs.last(), env)
    }
}

/// The number of expressions that hold.
pub open spec fn count_of(vs: Seq<BoolExpr>, env: Env) -> int
    decreases vs.len(),
{
    if vs.len() == 0 {
        0
    } else {
        count_of(vs.drop_last(), env) + if eval_bool(vs.last(), env) {
            1int
        } else {
            0
        }
    }
}

/// The expressions, each in a box, in order.
pub fn boxed(values: Vec<BoolExpr>) -> (r: Vec<Box<BoolExpr>>)
    ensures
        r@.len() == values@.len(),
        forall|i: int| 0 <= i < values@.len() ==> *(#[trigger] r@[i]) == values@[i],
{
    let ghost v0 = values@;
    let mut values = values;
    let mut r: Vec<Box<BoolExpr>> = Vec::new();
    while values.len() > 0
        invariant
            r@.len() + values@.len() == v0.len(),
            forall|i: int| 0 <= i < r@.len() ==> *(#[trigger] r@[i]) == v0[i],
            forall|i: int| 0 <= i < values@.len() ==> #[trigger] values@[i] == v0[r@.len() + i],
        decreases values@.len(),
    {
        let x = values.remove(0);
        r.push(Box::new(x));
    }
    r
}

/// Holds when some of the values holds.
pub fn any(values: Vec<BoolExpr>) -> (r: NdArray<(), BoolExpr>)
    ensures
        r.data@.len() == 1,
        r.data@[0] matches BoolExpr::Or(ts) && ts@.len() == values@.len()
            && forall|i: int| 0 <= i < values@.len() ==> *(#[trigger] ts@[i]) == values@[i],
        forall|env: Env| #[trigger] eval_bool(r.data@[0], env) <==> exists|i: int| 0 <= i < values@.len() && eval_bool(#[trigger] values@[i], env),
{
    let ghost v0 = values@;
    let terms = boxed(values);
    let e = BoolExpr::Or(terms);
    proof {
        assert forall|env: Env| #[trigger] eval_bool(e, env) <==> exists|i: int| 0 <= i < v0.len() && eval_bool(#[trigger] v0[i], env) by {
            if eval_any(terms@, env) {
                let i = choose|i: int| 0 <= i < terms@.len() && eval_bool(*#[trigger] terms@[i], env);
                assert(eval_bool(v0[i], env));
            }
            if exists|i: int| 0 <= i < v0.len() && eval_bool(#[trigger] v0[i], env) {
                let i = choose|i: int| 0 <= i < v0.len() && eval_bool(#[trigger] v0[i], env);
                assert(eval_bool(*terms@[i], env));
            }
        }
    }
    NdArray { shape: (), data: vec![e] }
}

/// Holds when all of the values hold.
pub fn all(values: Vec<BoolExpr>) -> (r: NdArray<(), BoolExpr>)
    ensures
        r.data@.len() == 1,
        r.data@[0] matches BoolExpr::And(ts) && ts@.len() == values@.len()
            && forall|i: int| 0 <= i < values@.len() ==> *(#[trigger] ts@[i]) == values@[i],
        forall|env: Env| #[trigger] eval_bool(r.data@[0], env) <==> forall|i: int| 0 <= i < values@.len() ==> eval_bool(#[trigger] values@[i], env),
{
    let ghost v0 = values@;
    let terms = boxed(values);
    let e = BoolExpr::And(terms);
    proof {
        assert forall|env: Env| #[trigger] eval_bool(e, env) <==> forall|i: int| 0 <= i < v0.len() ==> eval_bool(#[trigger] v0[i], env) by {
            if eval_all(terms@, env) {
                assert forall|i: int| 0 <= i < v0.len() implies eval_bool(#[trigger] v0[i], env) by {
                    assert(eval_bool(*terms@[i], env));
                }
            }
            if forall|i: int| 0 <= i < v0.len() ==> eval_bool(#[trigger] v0[i], env) {
                assert forall|i: int| 0 <= i < terms@.len() implies eval_bool(*#[trigger] terms@[i], env) by {
                    assert(eval_bool(v0[i], env));
                }
            }
        }
    }
    NdArray { shape: (), data: vec![e] }
}

/// The terms `(value, 1)` of a sum, in order.
fn unit_terms(values: Vec<IntExpr>) -> (r: Vec<(Box<IntExpr>, i32)>)
    ensures
        r@.len() == values@.len(),
        forall|i: int| 0 <= i < values@.len() ==> *(#[trigger] r@[i]).0 == values@[i] && r@[i].1 == 1,
{
    let ghost v0 = values@;
    let mut values = values;
    let mut r: Vec<(Box<IntExpr>, i32)> = Vec::new();
    while values.len() > 0
        invariant
            r@.len() + values@.len() == v0.len(),
            forall|i: int| 0 <= i < r@.len() ==> *(#[trigger] r@[i]).0 == v0[i] && r@[i].1 == 1,
            forall|i: int| 0 <= i < values@.len() ==> #[trigger] values@[i] == v0[r@.len() + i],
        decreases values@.len(),
    {
        let x = values.remove(0);
        r.push((Box::new(x), 1));
    }
    r
}

proof fn lemma_unit_sum(ts: Seq<(Box<IntExpr>, i32)>, vs: Seq<IntExpr>, env: Env)
    requires
        ts.len() == vs.len(),
        forall|i: int| 0 <= i < vs.len() ==> *(#[trigger] ts[i]).0 == vs[i] && ts[i].1 == 1,
    ensures
        eval_linear(ts, env) == sum_of(vs, env),
    decreases vs.len(),
{
    if vs.len() > 0 {
        let n = vs.len() - 1;
        assert forall|i: int| 0 <= i < n implies *(#[trigger] ts.drop_last()[i]).0 == vs.drop_last()[i] && ts.drop_last()[i].1 == 1 by {
            assert(ts.drop_last()[i] == ts[i]);
            assert(vs.drop_last()[i] == vs[i]);
        }
        lemma_unit_sum(ts.drop_last(), vs.drop_last(), env);
        assert(*ts.last().0 == vs.last());
    }
}

/// The total of the values.
pub fn sum(values: Vec<IntExpr>) -> (r: NdArray<(), IntExpr>)
    ensures
        r.data@.len() == 1,
        r.data@[0] matches IntExpr::Linear(ts) && ts@.len() == values@.len()
            && forall|i: int| 0 <= i < values@.len() ==> *(#[trigger] ts@[i]).0 == values@[i] && ts@[i].1 == 1,
        forall|env: Env| #[trigger] eval_int(r.data@[0], env) == sum_of(values@, env),
{
    let ghost v0 = values@;
    let terms = unit_terms(values);
    let e = IntExpr::Linear(terms);
    proof {
        assert forall|env: Env| #[trigger] eval_int(e, env) == sum_of(v0, env) by {
            lemma_unit_sum(terms@, v0, env);
        }
    }
    NdArray { shape: (), data: vec![e] }
}

/// `1` where the value holds and `0` where it does not, for each value.
fn indicators(values: Vec<BoolExpr>) -> (r: Vec<IntExpr>)
    ensures
        r@.len() == values@.len(),
        forall|i: int| 0 <= i < values@.len() ==> #[trigger] r@[i] == IntExpr::If(Box::new(values@[i]), Box::new(IntExpr::Const(1)), Box::new(IntExpr::Const(0))),
{
    let ghost v0 = values@;
    let mut values = values;
    let mut r: Vec<IntExpr> = Vec::new();
    while values.len() > 0
        invariant
            r@.len() + values@.len() == v0.len(),
            forall|i: int| 0 <= i < r@.len() ==> #[trigger] r@[i] == IntExpr::If(Box::new(v0[i]), Box::new(IntExpr::Const(1)), Box::new(IntExpr::Const(0))),
            forall|i: int| 0 <= i < values@.len() ==> #[trigger] values@[i] == v0[r@.len() + i],
        decreases values@.len(),
    {
        let x = values.remove(0);
        r.push(x.ite(IntExpr::Const(1), IntExpr::Const(0)));
    }
    r
}

proof fn lemma_indicator_sum(ind: Seq<IntExpr>, vs: Seq<BoolExpr>, env: Env)
    requires
        ind.len() == vs.len(),
        forall|i: int| 0 <= i < vs.len() ==> #[trigger] ind[i] == IntExpr::If(Box::new(vs[i]), Box::new(IntExpr::Const(1)), Box::new(IntExpr::Const(0))),
    ensures
        sum_of(ind, env) == count_of(vs, env),
    decreases vs.len(),
{
    if vs.len() > 0 {
        let n = vs.len() - 1;
        assert forall|i: int| 0 <= i < n implies #[trigger] ind.drop_last()[i] == IntExpr::If(Box::new(vs.drop_last()[i]), Box::new(IntExpr::Const(1)), Box::new(IntExpr::Const(0))) by {
            assert(ind.drop_last()[i] == ind[i]);
            assert(vs.drop_last()[i] == vs[i]);
        }
        lemma_indicator_sum(ind.drop_last(), vs.drop_last(), env);
        assert(ind.last() == ind[n]);
        assert(vs.last() == vs[n]);
        assert(eval_int(ind.last(), env) == if eval_bool(vs.last(), env) { 1int } else { 0int }) by {
            reveal_with_fuel(eval_int, 2);
        }
    }
}

/// The number of values that hold.
pub fn count_true(values: Vec<BoolExpr>) -> (r: NdArray<(), IntExpr>)
    ensures
        r.data@.len() == 1,
        r.data@[0] matches IntExpr::Linear(ts) && ts@.len() == values@.len()
            && forall|i: int| 0 <= i < values@.len() ==> *(#[trigger] ts@[i]).0
                == IntExpr::If(Box::new(values@[i]), Box::new(IntExpr::Const(1)), Box::new(IntExpr::Const(0))) && ts@[i].1 == 1,
        forall|env: Env| #[trigger] eval_int(r.data@[0], env) == count_of(values@, env),
{
    let ghost v0 = values@;
    let ind = indicators(values);
    let ghost i0 = ind@;
    let r = sum(ind);
    proof {
        assert forall|env: Env| #[trigger] eval_int(r.data@[0], env) == count_of(v0, env) by {
            lemma_indicator_sum(i0, v0, env);
        }
    }
    r
}

} // verus!
