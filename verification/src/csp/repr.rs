use vstd::prelude::*;

use crate::arithmetic::{op_holds, CmpOp};
use crate::util::ConvertMapIndex;

verus! {

/// A Boolean variable of a CSP, identified by its index.
#[derive(Clone, Copy, Debug, PartialEq, Eq, Structural, PartialOrd, Ord, Hash)]
pub struct BoolVar(pub usize);

/// An integer variable of a CSP, identified by its index.
#[derive(Clone, Copy, Debug, PartialEq, Eq, Structural, PartialOrd, Ord, Hash)]
pub struct IntVar(pub usize);

/// Boolean expressions over CSP variables.
#[derive(Debug, PartialEq, Eq)]
pub enum BoolExpr {
    Const(bool),
    Var(BoolVar),
    And(Vec<Box<BoolExpr>>),
    Or(Vec<Box<BoolExpr>>),
    Not(Box<BoolExpr>),
    Xor(Box<BoolExpr>, Box<BoolExpr>),
    Iff(Box<BoolExpr>, Box<BoolExpr>),
    Imp(Box<BoolExpr>, Box<BoolExpr>),
    Cmp(CmpOp, Box<IntExpr>, Box<IntExpr>),
}

/// Integer expressions over CSP variables.
#[derive(Debug, PartialEq, Eq)]
pub enum IntExpr {
    Const(i32),
    Var(IntVar),
    /// A sum of terms, each an expression times a coefficient.
    Linear(Vec<(Box<IntExpr>, i32)>),
    If(Box<BoolExpr>, Box<IntExpr>, Box<IntExpr>),
    Abs(Box<IntExpr>),
    Mul(Box<IntExpr>, Box<IntExpr>),
}

/// Values of all variables: Boolean variable `v` takes `bools[v.0]`,
/// integer variable `v` takes `ints[v.0]`.
pub struct Env {
    pub bools: Seq<bool>,
    pub ints: Seq<int>,
}

pub open spec fn eval_bool(e: BoolExpr, env: Env) -> bool
    decreases e,
{
    match e {
        BoolExpr::Const(b) => b,
        BoolExpr::Var(v) => env.bools[v.0 as int],
        BoolExpr::And(es) => eval_all(es@, env),
        BoolExpr::Or(es) => eval_any(es@, env),
        BoolExpr::Not(x) => !eval_bool(*x, env),
        BoolExpr::Xor(x, y) => eval_bool(*x, env) != eval_bool(*y, env),
        BoolExpr::Iff(x, y) => eval_bool(*x, env) == eval_bool(*y, env),
        BoolExpr::Imp(x, y) => !eval_bool(*x, env) || eval_bool(*y, env),
        BoolExpr::Cmp(op, x, y) => op_holds(op, eval_int(*x, env), eval_int(*y, env)),
    }
}

/// Every expression of the sequence holds.
pub open spec fn eval_all(es: Seq<Box<BoolExpr>>, env: Env) -> bool
    decreases es,
{
    forall|i: int| 0 <= i < es.len() ==> eval_bool(*#[trigger] es[i], env)
}

/// Some expression of the sequence holds.
pub open spec fn eval_any(es: Seq<Box<BoolExpr>>, env: Env) -> bool
    decreases es,
{
    exists|i: int| 0 <= i < es.len() && eval_bool(*#[trigger] es[i], env)
}

pub open spec fn eval_int(e: IntExpr, env: Env) -> int
    decreases e,
{
    match e {
        IntExpr::Const(c) => c as int,
        IntExpr::Var(v) => env.ints[v.0 as int],
        IntExpr::Linear(ts) => eval_linear(ts@, env),
        IntExpr::If(c, t, f) => if eval_bool(*c, env) {
            eval_int(*t, env)
        } else {
            eval_int(*f, env)
        },
        IntExpr::Abs(x) => {
            let v = eval_int(*x, env);
            if v < 0 {
                -v
            } else {
                v
            }
        },
        IntExpr::Mul(x, y) => eval_int(*x, env) * eval_int(*y, env),
    }
}

/// The value of a sum of weighted terms.
pub open spec fn eval_linear(ts: Seq<(Box<IntExpr>, i32)>, env: Env) -> int
    decreases ts,
{
    if ts.len() == 0 {
        0
    } else {
        eval_linear(ts.drop_last(), env) + eval_int(*ts.last().0, env) * ts.last().1
    }
}

/// Every variable of `e` is among the first `nb` Boolean and `ni` integer variables.
pub open spec fn bool_ok(e: BoolExpr, nb: nat, ni: nat) -> bool
    decreases e,
{
    match e {
        BoolExpr::Const(_) => true,
        BoolExpr::Var(v) => v.0 < nb,
        BoolExpr::And(es) => all_bool_ok(es@, nb, ni),
        BoolExpr::Or(es) => all_bool_ok(es@, nb, ni),
        BoolExpr::Not(x) => bool_ok(*x, nb, ni),
        BoolExpr::Xor(x, y) => bool_ok(*x, nb, ni) && bool_ok(*y, nb, ni),
        BoolExpr::Iff(x, y) => bool_ok(*x, nb, ni) && bool_ok(*y, nb, ni),
        BoolExpr::Imp(x, y) => bool_ok(*x, nb, ni) && bool_ok(*y, nb, ni),
        BoolExpr::Cmp(_, x, y) => int_ok(*x, nb, ni) && int_ok(*y, nb, ni),
    }
}

pub open spec fn all_bool_ok(es: Seq<Box<BoolExpr>>, nb: nat, ni: nat) -> bool
    decreases es,
{
    forall|i: int| 0 <= i < es.len() ==> bool_ok(*#[trigger] es[i], nb, ni)
}

pub open spec fn int_ok(e: IntExpr, nb: nat, ni: nat) -> bool
    decreases e,
{
    match e {
        IntExpr::Const(_) => true,
        IntExpr::Var(v) => v.0 < ni,
        IntExpr::Linear(ts) => terms_ok(ts@, nb, ni),
        IntExpr::If(c, t, f) => bool_ok(*c, nb, ni) && int_ok(*t, nb, ni) && int_ok(*f, nb, ni),
        IntExpr::Abs(x) => int_ok(*x, nb, ni),
        IntExpr::Mul(x, y) => int_ok(*x, nb, ni) && int_ok(*y, nb, ni),
    }
}

pub open spec fn terms_ok(ts: Seq<(Box<IntExpr>, i32)>, nb: nat, ni: nat) -> bool
    decreases ts,
{
    forall|i: int| 0 <= i < ts.len() ==> int_ok(*(#[trigger] ts[i]).0, nb, ni)
}

impl ConvertMapIndex for BoolVar {
    open spec fn spec_to_index(&self) -> usize {
        self.0
    }

    fn to_index(&self) -> (r: usize) {
        self.0
    }
}

impl ConvertMapIndex for IntVar {
    open spec fn spec_to_index(&self) -> usize {
        self.0
    }

    fn to_index(&self) -> (r: usize) {
        self.0
    }
}

impl BoolVar {
    pub fn new(id: usize) -> (r: BoolVar)
        ensures
            r.0 == id,
    {
        BoolVar(id)
    }

    pub fn id(&self) -> (r: usize)
        ensures
            r == self.0,
    {
        self.0
    }

    /// The expression consisting of this variable.
    pub fn expr(&self) -> (r: BoolExpr)
        ensures
            r == BoolExpr::Var(*self),
    {
        BoolExpr::Var(*self)
    }
}

impl IntVar {
    pub fn new(id: usize) -> (r: IntVar)
        ensures
            r.0 == id,
    {
        IntVar(id)
    }

    pub fn id(&self) -> (r: usize)
        ensures
            r == self.0,
    {
        self.0
    }

    /// The expression consisting of this variable.
    pub fn expr(&self) -> (r: IntExpr)
        ensures
            r == IntExpr::Var(*self),
    {
        IntExpr::Var(*self)
    }
}

impl BoolExpr {
    /// Conjunction of two expressions.
    pub fn and(self, rhs: BoolExpr) -> (r: BoolExpr)
        ensures
            r matches BoolExpr::And(es) && es@ == seq![Box::new(self), Box::new(rhs)],
    {
        let mut es: Vec<Box<BoolExpr>> = Vec::new();
        es.push(Box::new(self));
        es.push(Box::new(rhs));
        BoolExpr::And(es)
    }

    /// Disjunction of two expressions.
    pub fn or(self, rhs: BoolExpr) -> (r: BoolExpr)
        ensures
            r matches BoolExpr::Or(es) && es@ == seq![Box::new(self), Box::new(rhs)],
    {
        let mut es: Vec<Box<BoolExpr>> = Vec::new();
        es.push(Box::new(self));
        es.push(Box::new(rhs));
        BoolExpr::Or(es)
    }

    /// Negation.
    pub fn not(self) -> (r: BoolExpr)
        ensures
            r == BoolExpr::Not(Box::new(self)),
    {
        BoolExpr::Not(Box::new(self))
    }

    /// Exclusive or.
    pub fn xor(self, rhs: BoolExpr) -> (r: BoolExpr)
        ensures
            r == BoolExpr::Xor(Box::new(self), Box::new(rhs)),
    {
        BoolExpr::Xor(Box::new(self), Box::new(rhs))
    }

    /// Equivalence.
    pub fn iff(self, rhs: BoolExpr) -> (r: BoolExpr)
        ensures
            r == BoolExpr::Iff(Box::new(self), Box::new(rhs)),
    {
        BoolExpr::Iff(Box::new(self), Box::new(rhs))
    }

    /// Implication.
    pub fn imp(self, rhs: BoolExpr) -> (r: BoolExpr)
        ensures
            r == BoolExpr::Imp(Box::new(self), Box::new(rhs)),
    {
        BoolExpr::Imp(Box::new(self), Box::new(rhs))
    }

    /// If-then-else on integers.
    pub fn ite(self, t: IntExpr, f: IntExpr) -> (r: IntExpr)
        ensures
            r == IntExpr::If(Box::new(self), Box::new(t), Box::new(f)),
    {
        IntExpr::If(Box::new(self), Box::new(t), Box::new(f))
    }

    /// The value of a constant expression.
    pub fn is_const(&self) -> (r: Option<bool>)
        ensures
            r == (match *self {
                BoolExpr::Const(b) => Some(b),
                _ => None,
            }),
    {
        match self {
            BoolExpr::Const(b) => Some(*b),
            _ => None,
        }
    }
}

impl IntExpr {
    /// Absolute value.
    pub fn abs(self) -> (r: IntExpr)
        ensures
            r == IntExpr::Abs(Box::new(self)),
    {
        IntExpr::Abs(Box::new(self))
    }

    /// The value of a constant expression.
    pub fn as_const(&self) -> (r: Option<i32>)
        ensures
            r == (match *self {
                IntExpr::Const(c) => Some(c),
                _ => None,
            }),
    {
        match self {
            IntExpr::Const(c) => Some(*c),
            _ => None,
        }
    }

    /// Product of two expressions.
    pub fn mul(self, rhs: IntExpr) -> (r: IntExpr)
        ensures
            r == IntExpr::Mul(Box::new(self), Box::new(rhs)),
    {
        IntExpr::Mul(Box::new(self), Box::new(rhs))
    }

    /// Comparison of two integer expressions.
    pub fn compare(self, op: CmpOp, rhs: IntExpr) -> (r: BoolExpr)
        ensures
            r == BoolExpr::Cmp(op, Box::new(self), Box::new(rhs)),
    {
        BoolExpr::Cmp(op, Box::new(self), Box::new(rhs))
    }
}

} // verus!

verus! {

pub proof fn lemma_eval_all_push(s: Seq<Box<BoolExpr>>, x: Box<BoolExpr>, env: Env)
    ensures
        eval_all(s.push(x), env) == (eval_all(s, env) && eval_bool(*x, env)),
{
    if eval_all(s.push(x), env) {
        assert forall|i: int| 0 <= i < s.len() implies eval_bool(*#[trigger] s[i], env) by {
            assert(s.push(x)[i] == s[i]);
        }
        assert(s.push(x)[s.len() as int] == x);
    }
    if eval_all(s, env) && eval_bool(*x, env) {
        assert forall|i: int| 0 <= i < s.push(x).len() implies eval_bool(*#[trigger] s.push(x)[i], env) by {
            if i < s.len() {
                assert(s.push(x)[i] == s[i]);
            }
        }
    }
}

pub proof fn lemma_eval_any_push(s: Seq<Box<BoolExpr>>, x: Box<BoolExpr>, env: Env)
    ensures
        eval_any(s.push(x), env) == (eval_any(s, env) || eval_bool(*x, env)),
{
    if eval_any(s.push(x), env) {
        let i = choose|i: int| 0 <= i < s.push(x).len() && eval_bool(*#[trigger] s.push(x)[i], env);
        if i < s.len() {
            assert(s.push(x)[i] == s[i]);
        }
    }
    if eval_any(s, env) {
        let i = choose|i: int| 0 <= i < s.len() && eval_bool(*#[trigger] s[i], env);
        assert(s.push(x)[i] == s[i]);
    }
    if eval_bool(*x, env) {
        assert(s.push(x)[s.len() as int] == x);
    }
}

pub proof fn lemma_eval_linear_push(s: Seq<(Box<IntExpr>, i32)>, t: (Box<IntExpr>, i32), env: Env)
    ensures
        eval_linear(s.push(t), env) == eval_linear(s, env) + eval_int(*t.0, env) * t.1,
{
    assert(s.push(t).drop_last() =~= s);
}

/// Adding variables keeps an expression well-scoped.
pub proof fn lemma_bool_ok_mono(e: BoolExpr, nb: nat, ni: nat, nb2: nat, ni2: nat)
    requires
        bool_ok(e, nb, ni),
        nb <= nb2,
        ni <= ni2,
    ensures
        bool_ok(e, nb2, ni2),
    decreases e,
{
    match e {
        BoolExpr::And(es) => {
            assert(all_bool_ok(es@, nb, ni));
            assert forall|i: int| 0 <= i < es@.len() implies bool_ok(*#[trigger] es@[i], nb2, ni2) by {
                assert(bool_ok(*es@[i], nb, ni));
                assert(decreases_to!(e => es));
                assert(decreases_to!(es => es@));
                assert(decreases_to!(es@ => es@[i]));
                lemma_bool_ok_mono(*es@[i], nb, ni, nb2, ni2);
            }
            assert(all_bool_ok(es@, nb2, ni2));
        },
        BoolExpr::Or(es) => {
            assert(all_bool_ok(es@, nb, ni));
            assert forall|i: int| 0 <= i < es@.len() implies bool_ok(*#[trigger] es@[i], nb2, ni2) by {
                assert(bool_ok(*es@[i], nb, ni));
                assert(decreases_to!(e => es));
                assert(decreases_to!(es => es@));
                assert(decreases_to!(es@ => es@[i]));
                lemma_bool_ok_mono(*es@[i], nb, ni, nb2, ni2);
            }
            assert(all_bool_ok(es@, nb2, ni2));
        },
        BoolExpr::Not(x) => lemma_bool_ok_mono(*x, nb, ni, nb2, ni2),
        BoolExpr::Xor(x, y) => {
            lemma_bool_ok_mono(*x, nb, ni, nb2, ni2);
            lemma_bool_ok_mono(*y, nb, ni, nb2, ni2);
        },
        BoolExpr::Iff(x, y) => {
            lemma_bool_ok_mono(*x, nb, ni, nb2, ni2);
            lemma_bool_ok_mono(*y, nb, ni, nb2, ni2);
        },
        BoolExpr::Imp(x, y) => {
            lemma_bool_ok_mono(*x, nb, ni, nb2, ni2);
            lemma_bool_ok_mono(*y, nb, ni, nb2, ni2);
        },
        BoolExpr::Cmp(_, x, y) => {
            lemma_int_ok_mono(*x, nb, ni, nb2, ni2);
            lemma_int_ok_mono(*y, nb, ni, nb2, ni2);
        },
        _ => {},
    }
}

/// Adding variables keeps an expression well-scoped.
pub proof fn lemma_int_ok_mono(e: IntExpr, nb: nat, ni: nat, nb2: nat, ni2: nat)
    requires
        int_ok(e, nb, ni),
        nb <= nb2,
        ni <= ni2,
    ensures
        int_ok(e, nb2, ni2),
    decreases e,
{
    match e {
        IntExpr::Linear(ts) => {
            assert(terms_ok(ts@, nb, ni));
            assert forall|i: int| 0 <= i < ts@.len() implies int_ok(*(#[trigger] ts@[i]).0, nb2, ni2) by {
                assert(int_ok(*ts@[i].0, nb, ni));
                assert(decreases_to!(e => ts));
                assert(decreases_to!(ts => ts@));
                assert(decreases_to!(ts@ => ts@[i]));
                assert(decreases_to!(ts@[i] => ts@[i].0));
                lemma_int_ok_mono(*ts@[i].0, nb, ni, nb2, ni2);
            }
            assert(terms_ok(ts@, nb2, ni2));
        },
        IntExpr::If(c, t, f) => {
            lemma_bool_ok_mono(*c, nb, ni, nb2, ni2);
            lemma_int_ok_mono(*t, nb, ni, nb2, ni2);
            lemma_int_ok_mono(*f, nb, ni, nb2, ni2);
        },
        IntExpr::Abs(x) => lemma_int_ok_mono(*x, nb, ni, nb2, ni2),
        IntExpr::Mul(x, y) => {
            lemma_int_ok_mono(*x, nb, ni, nb2, ni2);
            lemma_int_ok_mono(*y, nb, ni, nb2, ni2);
        },
        _ => {},
    }
}

} // verus!
