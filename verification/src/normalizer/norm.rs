use vstd::prelude::*;

use super::expr::{
    agree_on, aux_all_nvars, aux_bool_nvars, aux_eval_all, aux_eval_any, aux_eval_bool, aux_eval_int, aux_eval_linear,
    aux_int_nvars, aux_terms_nvars, extras_hold, lemma_aux_bool_frame, lemma_aux_bool_nvars_mono, lemma_aux_int_nvars_mono,
    AuxBoolExpr, AuxIntExpr,
};
use crate::norm_csp::BoolVar as NBoolVar;
use crate::csp::repr::Env;
use super::{
    add_constraint_ok, add_constraints_ok, add_extra_ok, bool_constraint, constraint_ok, constraints_ok,
    fresh_bool_var, fresh_int_var, linear_constraint, linear_lit_ok, make_linear_lit, map_keeps, norm_grows, norm_ok,
    NormalizeMap,
};
use crate::arithmetic::CmpOp;
use crate::csp::CSPVars;
use crate::domain::Domain;
use crate::norm_csp::BoolLit as NBoolLit;
use crate::norm_csp::IntVar as NIntVar;
use crate::norm_csp::{Constraint, ExtraConstraint, LinearSum, NormCSP};

verus! {

/// The normalized CSP and the map refer to the variables of the normalized
/// CSP only.
pub open spec fn env_ok(norm: NormCSP, map: NormalizeMap) -> bool {
    &&& norm_ok(norm)
    &&& map.ok(norm.vars.num_bool_var as nat, norm.vars.ni())
}

/// A well-formed sum over the first `ni` integer variables.
pub open spec fn sum_ok(s: LinearSum, ni: nat) -> bool {
    &&& s.wf()
    &&& forall|t: int| 0 <= t < s.term@.len() ==> (#[trigger] s.term@[t]).0.0 < ni
}

/// Every group of clauses is over the first `nb` Boolean and `ni` integer variables.
pub open spec fn groups_ok(gs: Seq<Vec<Constraint>>, nb: nat, ni: nat) -> bool {
    forall|i: int| 0 <= i < gs.len() ==> constraints_ok((#[trigger] gs[i])@, nb, ni)
}

proof fn lemma_sum_ok_combined(a: LinearSum, b: LinearSum, r: LinearSum, ni: nat)
    requires
        sum_ok(a, ni),
        sum_ok(b, ni),
        r.wf(),
        forall|i: int| 0 <= i < r.term@.len() ==> crate::norm_csp::linear::occurs(a.term@, (#[trigger] r.term@[i]).0)
            || crate::norm_csp::linear::occurs(b.term@, r.term@[i].0),
    ensures
        sum_ok(r, ni),
{
    assert forall|t: int| 0 <= t < r.term@.len() implies (#[trigger] r.term@[t]).0.0 < ni by {
        if crate::norm_csp::linear::occurs(a.term@, r.term@[t].0) {
            let j = choose|j: int| 0 <= j < a.term@.len() && (#[trigger] a.term@[j]).0 == r.term@[t].0;
            assert(a.term@[j].0.0 < ni);
        } else {
            let j = choose|j: int| 0 <= j < b.term@.len() && (#[trigger] b.term@[j]).0 == r.term@[t].0;
            assert(b.term@[j].0.0 < ni);
        }
    }
}

proof fn lemma_groups_mono(gs: Seq<Vec<Constraint>>, nb: nat, ni: nat, nb2: nat, ni2: nat)
    requires
        groups_ok(gs, nb, ni),
        nb <= nb2,
        ni <= ni2,
    ensures
        groups_ok(gs, nb2, ni2),
{
    assert forall|i: int| 0 <= i < gs.len() implies constraints_ok((#[trigger] gs[i])@, nb2, ni2) by {
        super::lemma_constraints_mono(gs[i]@, nb, ni, nb2, ni2);
    }
}

/// `a - b`, where the encoder accepts it, as a literal with `op`.
fn diff_lit(norm: &NormCSP, a: &LinearSum, b: &LinearSum, op: CmpOp) -> (r: Option<Constraint>)
    requires
        sum_ok(*a, norm.vars.ni()),
        sum_ok(*b, norm.vars.ni()),
    ensures
        r matches Some(c) ==> constraint_ok(c, norm.vars.num_bool_var as nat, norm.vars.ni()),
{
    let d = a.checked_sub(b)?;
    let lit = make_linear_lit(d, op, norm)?;
    Some(linear_constraint(lit))
}

/// `ok` allows every variable from `lo` up to `hi`.
pub open spec fn allows_range(ok: spec_fn(int) -> bool, lo: int, hi: int) -> bool {
    forall|i: int| lo <= i < hi ==> #[trigger] ok(i)
}

/// The formulas of `extra` from `from` on mention only normalized Boolean
/// variables that `ok` allows.
pub open spec fn extras_nvars(extra: Seq<AuxBoolExpr>, from: int, ok: spec_fn(int) -> bool) -> bool {
    forall|k: int| from <= k < extra.len() ==> aux_bool_nvars(#[trigger] extra[k], ok)
}

pub open spec fn below(n: int) -> spec_fn(int) -> bool {
    |i: int| i < n
}

pub open spec fn outside(lo: int, hi: int) -> spec_fn(int) -> bool {
    |i: int| !(lo <= i < hi)
}

pub open spec fn avoid(v: int) -> spec_fn(int) -> bool {
    |i: int| i != v
}

/// `n2` differs from `n` at most in the Boolean variables from `lo` up to `hi`.
pub open spec fn fresh_extension(n2: Env, n: Env, lo: int, hi: int) -> bool {
    &&& n2.bools.len() == n.bools.len()
    &&& agree_on(n2, n, outside(lo, hi))
}

/// Under `env` and `nenv`, values of the Boolean variables from `lo` up to
/// `hi` make the formulas of `extra` from `from` on hold.
pub open spec fn fresh_ok(extra: Seq<AuxBoolExpr>, from: int, lo: int, hi: int, env: Env, nenv: Env) -> bool {
    nenv.bools.len() >= hi ==> exists|n2: Env| #[trigger] fresh_extension(n2, nenv, lo, hi) && extras_hold(extra, from, env, n2)
}

/// Whatever the other values, values of the Boolean variables from `lo` up
/// to `hi` make the formulas of `extra` from `from` on hold.
pub open spec fn satisfiable_by_fresh(extra: Seq<AuxBoolExpr>, from: int, lo: int, hi: int) -> bool {
    forall|env: Env, nenv: Env| #[trigger] fresh_ok(extra, from, lo, hi, env, nenv)
}

proof fn lemma_fresh_none(x: Seq<AuxBoolExpr>, lo: int, hi: int)
    ensures
        satisfiable_by_fresh(x, x.len() as int, lo, hi),
{
    assert forall|env: Env, nenv: Env| #[trigger] fresh_ok(x, x.len() as int, lo, hi, env, nenv) by {
        assert(fresh_extension(nenv, nenv, lo, hi));
    }
}

/// Two stretches of definitions, each satisfiable by its own fresh
/// variables, where the first does not mention those of the second.
proof fn lemma_fresh_seq(x1: Seq<AuxBoolExpr>, x2: Seq<AuxBoolExpr>, from: int, s0: int, m: int, f: int)
    requires
        x1.is_prefix_of(x2),
        0 <= from <= x1.len(),
        s0 <= m <= f,
        satisfiable_by_fresh(x1, from, s0, m),
        satisfiable_by_fresh(x2, x1.len() as int, m, f),
        extras_nvars(x1, from, below(m)),
    ensures
        satisfiable_by_fresh(x2, from, s0, f),
{
    assert forall|env: Env, nenv: Env| #[trigger] fresh_ok(x2, from, s0, f, env, nenv) by {
        if nenv.bools.len() >= f {
            assert(fresh_ok(x1, from, s0, m, env, nenv));
            let na = choose|n2: Env| #[trigger] fresh_extension(n2, nenv, s0, m) && extras_hold(x1, from, env, n2);
            assert(fresh_ok(x2, x1.len() as int, m, f, env, na));
            let nb = choose|n2: Env| #[trigger] fresh_extension(n2, na, m, f) && extras_hold(x2, x1.len() as int, env, n2);
            assert(agree_on(na, nb, below(m))) by {
                assert forall|i: int| #[trigger] below(m)(i) && 0 <= i < na.bools.len() implies na.bools[i] == nb.bools[i] by {
                    assert(outside(m, f)(i));
                }
            }
            assert forall|k: int| from <= k < x2.len() implies aux_eval_bool(#[trigger] x2[k], env, nb) by {
                if k < x1.len() {
                    assert(x2[k] == x1[k]);
                    assert(aux_bool_nvars(x1[k], below(m)));
                    lemma_aux_bool_frame(x1[k], below(m), env, na, nb);
                }
            }
            assert(fresh_extension(nb, nenv, s0, f)) by {
                assert forall|i: int| #[trigger] outside(s0, f)(i) && 0 <= i < nb.bools.len() implies nb.bools[i] == nenv.bools[i] by {
                    assert(outside(m, f)(i));
                    assert(outside(s0, m)(i));
                }
            }
        }
    }
}

/// Adding a definition `f <=> v` of a variable that neither `f` nor the
/// earlier definitions mention keeps them satisfiable.
proof fn lemma_fresh_define(
    x: Seq<AuxBoolExpr>,
    from: int,
    lo: int,
    hi: int,
    lo2: int,
    hi2: int,
    f: AuxBoolExpr,
    v: NBoolVar,
)
    requires
        0 <= from <= x.len(),
        satisfiable_by_fresh(x, from, lo, hi),
        extras_nvars(x, from, avoid(v.0 as int)),
        aux_bool_nvars(f, avoid(v.0 as int)),
        lo2 <= lo,
        hi <= hi2,
        lo2 <= v.0 < hi2,
    ensures
        satisfiable_by_fresh(x.push(AuxBoolExpr::Iff(Box::new(f), Box::new(AuxBoolExpr::NVar(v)))), from, lo2, hi2),
{
    let d = AuxBoolExpr::Iff(Box::new(f), Box::new(AuxBoolExpr::NVar(v)));
    let xd = x.push(d);
    assert forall|env: Env, nenv: Env| #[trigger] fresh_ok(xd, from, lo2, hi2, env, nenv) by {
        if nenv.bools.len() >= hi2 {
            assert(fresh_ok(x, from, lo, hi, env, nenv));
            let na = choose|n2: Env| #[trigger] fresh_extension(n2, nenv, lo, hi) && extras_hold(x, from, env, n2);
            let val = aux_eval_bool(f, env, na);
            let nb = Env { bools: na.bools.update(v.0 as int, val), ints: na.ints };
            assert(agree_on(na, nb, avoid(v.0 as int)));
            lemma_aux_bool_frame(f, avoid(v.0 as int), env, na, nb);
            assert forall|k: int| from <= k < xd.len() implies aux_eval_bool(#[trigger] xd[k], env, nb) by {
                if k < x.len() {
                    assert(xd[k] == x[k]);
                    assert(aux_bool_nvars(x[k], avoid(v.0 as int)));
                    lemma_aux_bool_frame(x[k], avoid(v.0 as int), env, na, nb);
                } else {
                    assert(xd[k] == d);
                    assert(na.bools.len() == nenv.bools.len());
                    assert(v.0 < nb.bools.len());
                    assert(nb.bools[v.0 as int] == val);
                    assert(aux_eval_bool(AuxBoolExpr::NVar(v), env, nb) == val);
                    assert(aux_eval_bool(d, env, nb) == (aux_eval_bool(f, env, nb) == aux_eval_bool(AuxBoolExpr::NVar(v), env, nb)));
                }
            }
            assert(fresh_extension(nb, nenv, lo2, hi2)) by {
                assert forall|i: int| #[trigger] outside(lo2, hi2)(i) && 0 <= i < nb.bools.len() implies nb.bools[i] == nenv.bools[i] by {
                    assert(outside(lo, hi)(i));
                }
            }
        }
    }
}

/// Allowing more variables keeps formulas within what is allowed.
proof fn lemma_extras_nvars_mono(x: Seq<AuxBoolExpr>, from: int, p: spec_fn(int) -> bool, q: spec_fn(int) -> bool)
    requires
        extras_nvars(x, from, p),
        forall|i: int| #[trigger] p(i) ==> q(i),
    ensures
        extras_nvars(x, from, q),
{
    assert forall|k: int| from <= k < x.len() implies aux_bool_nvars(#[trigger] x[k], q) by {
        lemma_aux_bool_nvars_mono(x[k], p, q);
    }
}

/// Each of two stretches of formulas stays within `ok`.
proof fn lemma_extras_nvars_join(x1: Seq<AuxBoolExpr>, x2: Seq<AuxBoolExpr>, from: int, ok: spec_fn(int) -> bool)
    requires
        0 <= from,
        x1.is_prefix_of(x2),
        extras_nvars(x1, from, ok),
        extras_nvars(x2, x1.len() as int, ok),
    ensures
        extras_nvars(x2, from, ok),
{
    assert forall|k: int| from <= k < x2.len() implies aux_bool_nvars(#[trigger] x2[k], ok) by {
        if k < x1.len() {
            assert(x2[k] == x1[k]);
        }
    }
}

/// Where `a` is a prefix of `b`, the formulas of `b` from `from` on holding
/// gives those of `a` from `from` on, and those of `b` from `a`'s end on.
proof fn lemma_extras_prefix(a: Seq<AuxBoolExpr>, b: Seq<AuxBoolExpr>, from: int, env: Env, nenv: Env)
    requires
        a.is_prefix_of(b),
        0 <= from <= a.len(),
        extras_hold(b, from, env, nenv),
    ensures
        extras_hold(a, from, env, nenv),
        extras_hold(b, a.len() as int, env, nenv),
{
    assert forall|k: int| from <= k < a.len() implies aux_eval_bool(#[trigger] a[k], env, nenv) by {
        assert(a[k] == b[k]);
    }
}

/// Replaces the operands of `Xor` and `Iff` below the top (and in
/// conditions) by fresh variables, collecting the equivalences that define
/// them in `extra`, so that normalizing does not blow up exponentially.
/// Wherever the added equivalences hold, the result has the value of `e`;
/// where `e` mentions only normalized variables that existed before, values
/// of the fresh variables make the added equivalences hold.
pub fn tseitin_bool(
    norm: &mut NormCSP,
    map: &NormalizeMap,
    extra: &mut Vec<AuxBoolExpr>,
    e: AuxBoolExpr,
    transform: bool,
) -> (r: Option<AuxBoolExpr>)
    requires
        env_ok(*old(norm), *map),
    ensures
        env_ok(*final(norm), *map),
        norm_grows(*old(norm), *final(norm)),
        r is None ==> final(norm).vars.num_bool_var == usize::MAX,
        old(extra)@.is_prefix_of(final(extra)@),
        r matches Some(f) ==> forall|env: Env, nenv: Env|
            #[trigger] extras_hold(final(extra)@, old(extra)@.len() as int, env, nenv) ==> aux_eval_bool(f, env, nenv)
                == aux_eval_bool(e, env, nenv),
        r matches Some(f) ==> forall|ok: spec_fn(int) -> bool|
            #[trigger] aux_bool_nvars(e, ok) && allows_range(ok, old(norm).vars.num_bool_var as int, final(norm).vars.num_bool_var as int)
                ==> aux_bool_nvars(f, ok) && extras_nvars(final(extra)@, old(extra)@.len() as int, ok),
        r is Some && aux_bool_nvars(e, below(old(norm).vars.num_bool_var as int)) ==> satisfiable_by_fresh(
            final(extra)@,
            old(extra)@.len() as int,
            old(norm).vars.num_bool_var as int,
            final(norm).vars.num_bool_var as int,
        ),
    decreases e, 1int,
{
    let ghost e0 = e;
    let ghost x0 = extra@;
    let ghost s0 = norm.vars.num_bool_var as int;
    proof {
        lemma_fresh_none(x0, s0, s0);
    }
    match e {
        AuxBoolExpr::Const(b) => Some(AuxBoolExpr::Const(b)),
        AuxBoolExpr::Var(v) => Some(AuxBoolExpr::Var(v)),
        AuxBoolExpr::NVar(v) => Some(AuxBoolExpr::NVar(v)),
        AuxBoolExpr::And(es) => {
            let out = tseitin_bools(norm, map, extra, es, transform, Ghost(e0))?;
            proof {
                assert forall|env: Env, nenv: Env| #[trigger] extras_hold(extra@, x0.len() as int, env, nenv) implies aux_eval_bool(
                    AuxBoolExpr::And(out),
                    env,
                    nenv,
                ) == aux_eval_bool(e0, env, nenv) by {
                    assert(forall|i: int| 0 <= i < out@.len() ==> aux_eval_bool(*#[trigger] out@[i], env, nenv) == aux_eval_bool(*e0->And_0@[i], env, nenv));
                    if aux_eval_all(out@, env, nenv) {
                        assert forall|i: int| 0 <= i < e0->And_0@.len() implies aux_eval_bool(*#[trigger] e0->And_0@[i], env, nenv) by {
                            assert(aux_eval_bool(*out@[i], env, nenv));
                        }
                    }
                    if aux_eval_all(e0->And_0@, env, nenv) {
                        assert forall|i: int| 0 <= i < out@.len() implies aux_eval_bool(*#[trigger] out@[i], env, nenv) by {
                            assert(aux_eval_bool(*e0->And_0@[i], env, nenv));
                        }
                    }
                }
            }
            proof {
                let fin = norm.vars.num_bool_var as int;
                assert forall|ok: spec_fn(int) -> bool| #[trigger] aux_bool_nvars(e0, ok) && allows_range(ok, s0, fin) implies aux_bool_nvars(
                    AuxBoolExpr::And(out),
                    ok,
                ) && extras_nvars(extra@, x0.len() as int, ok) by {
                    assert(aux_all_nvars(e0->And_0@, ok));
                }
            }
            Some(AuxBoolExpr::And(out))
        },
        AuxBoolExpr::Or(es) => {
            let out = tseitin_bools(norm, map, extra, es, transform, Ghost(e0))?;
            proof {
                assert forall|env: Env, nenv: Env| #[trigger] extras_hold(extra@, x0.len() as int, env, nenv) implies aux_eval_bool(
                    AuxBoolExpr::Or(out),
                    env,
                    nenv,
                ) == aux_eval_bool(e0, env, nenv) by {
                    assert(forall|i: int| 0 <= i < out@.len() ==> aux_eval_bool(*#[trigger] out@[i], env, nenv) == aux_eval_bool(*e0->Or_0@[i], env, nenv));
                    if aux_eval_any(out@, env, nenv) {
                        let i = choose|i: int| 0 <= i < out@.len() && aux_eval_bool(*#[trigger] out@[i], env, nenv);
                        assert(aux_eval_bool(*e0->Or_0@[i], env, nenv));
                    }
                    if aux_eval_any(e0->Or_0@, env, nenv) {
                        let i = choose|i: int| 0 <= i < e0->Or_0@.len() && aux_eval_bool(*#[trigger] e0->Or_0@[i], env, nenv);
                        assert(aux_eval_bool(*out@[i], env, nenv));
                    }
                }
            }
            proof {
                let fin = norm.vars.num_bool_var as int;
                assert forall|ok: spec_fn(int) -> bool| #[trigger] aux_bool_nvars(e0, ok) && allows_range(ok, s0, fin) implies aux_bool_nvars(
                    AuxBoolExpr::Or(out),
                    ok,
                ) && extras_nvars(extra@, x0.len() as int, ok) by {
                    assert(aux_all_nvars(e0->Or_0@, ok));
                }
            }
            Some(AuxBoolExpr::Or(out))
        },
        AuxBoolExpr::Not(x) => {
            proof {
                assert(decreases_to!(e0 => e0->Not_0));
            }
            let f = tseitin_bool(norm, map, extra, *x, transform)?;
            proof {
                let fin = norm.vars.num_bool_var as int;
                assert forall|ok: spec_fn(int) -> bool| #[trigger] aux_bool_nvars(e0, ok) && allows_range(ok, s0, fin) implies aux_bool_nvars(
                    AuxBoolExpr::Not(Box::new(f)),
                    ok,
                ) && extras_nvars(extra@, x0.len() as int, ok) by {
                    assert(aux_bool_nvars(*e0->Not_0, ok));
                }
            }
            Some(AuxBoolExpr::Not(Box::new(f)))
        },
        AuxBoolExpr::Xor(x, y) => {
            proof {
                assert(decreases_to!(e0 => e0->Xor_0));
                assert(decreases_to!(e0 => e0->Xor_1));
            }
            let (f1, f2) = tseitin_pair(norm, map, extra, *x, *y, transform, Ghost(e0))?;
            proof {
                let fin = norm.vars.num_bool_var as int;
                assert forall|ok: spec_fn(int) -> bool| #[trigger] aux_bool_nvars(e0, ok) && allows_range(ok, s0, fin) implies aux_bool_nvars(
                    AuxBoolExpr::Xor(Box::new(f1), Box::new(f2)),
                    ok,
                ) && extras_nvars(extra@, x0.len() as int, ok) by {
                    assert(aux_bool_nvars(*e0->Xor_0, ok));
                    assert(aux_bool_nvars(*e0->Xor_1, ok));
                }
            }
            Some(AuxBoolExpr::Xor(Box::new(f1), Box::new(f2)))
        },
        AuxBoolExpr::Iff(x, y) => {
            proof {
                assert(decreases_to!(e0 => e0->Iff_0));
                assert(decreases_to!(e0 => e0->Iff_1));
            }
            let (f1, f2) = tseitin_pair(norm, map, extra, *x, *y, transform, Ghost(e0))?;
            proof {
                let fin = norm.vars.num_bool_var as int;
                assert forall|ok: spec_fn(int) -> bool| #[trigger] aux_bool_nvars(e0, ok) && allows_range(ok, s0, fin) implies aux_bool_nvars(
                    AuxBoolExpr::Iff(Box::new(f1), Box::new(f2)),
                    ok,
                ) && extras_nvars(extra@, x0.len() as int, ok) by {
                    assert(aux_bool_nvars(*e0->Iff_0, ok));
                    assert(aux_bool_nvars(*e0->Iff_1, ok));
                }
            }
            Some(AuxBoolExpr::Iff(Box::new(f1), Box::new(f2)))
        },
        AuxBoolExpr::Imp(x, y) => {
            proof {
                assert(decreases_to!(e0 => e0->Imp_0));
                assert(decreases_to!(e0 => e0->Imp_1));
            }
            let f1 = tseitin_bool(norm, map, extra, *x, transform)?;
            let ghost x1 = extra@;
            let ghost m1 = norm.vars.num_bool_var as int;
            let f2 = tseitin_bool(norm, map, extra, *y, transform)?;
            proof {
                let fin = norm.vars.num_bool_var as int;
                assert forall|env: Env, nenv: Env| #[trigger] extras_hold(extra@, x0.len() as int, env, nenv) implies aux_eval_bool(f1, env, nenv)
                    == aux_eval_bool(*e0->Imp_0, env, nenv) && aux_eval_bool(f2, env, nenv) == aux_eval_bool(*e0->Imp_1, env, nenv) by {
                    lemma_extras_prefix(x1, extra@, x0.len() as int, env, nenv);
                }
                assert forall|ok: spec_fn(int) -> bool| #[trigger] aux_bool_nvars(e0, ok) && allows_range(ok, s0, fin) implies aux_bool_nvars(
                    AuxBoolExpr::Imp(Box::new(f1), Box::new(f2)),
                    ok,
                ) && extras_nvars(extra@, x0.len() as int, ok) by {
                    assert(allows_range(ok, s0, m1));
                    assert(allows_range(ok, m1, fin));
                    assert(aux_bool_nvars(*e0->Imp_0, ok));
                    assert(aux_bool_nvars(*e0->Imp_1, ok));
                    lemma_extras_nvars_join(x1, extra@, x0.len() as int, ok);
                }
                if aux_bool_nvars(e0, below(s0)) {
                    lemma_aux_bool_nvars_mono(*e0->Imp_0, below(s0), below(m1));
                    lemma_aux_bool_nvars_mono(*e0->Imp_1, below(s0), below(m1));
                    assert(allows_range(below(m1), s0, m1));
                    assert(aux_bool_nvars(*e0->Imp_0, below(m1)));
                    lemma_fresh_seq(x1, extra@, x0.len() as int, s0, m1, fin);
                }
            }
            Some(AuxBoolExpr::Imp(Box::new(f1), Box::new(f2)))
        },
        AuxBoolExpr::Cmp(op, x, y) => {
            proof {
                assert(decreases_to!(e0 => e0->Cmp_1));
                assert(decreases_to!(e0 => e0->Cmp_2));
            }
            let f1 = tseitin_int(norm, map, extra, *x)?;
            let ghost x1 = extra@;
            let ghost m1 = norm.vars.num_bool_var as int;
            let f2 = tseitin_int(norm, map, extra, *y)?;
            proof {
                let fin = norm.vars.num_bool_var as int;
                assert forall|env: Env, nenv: Env| #[trigger] extras_hold(extra@, x0.len() as int, env, nenv) implies aux_eval_int(f1, env, nenv)
                    == aux_eval_int(*e0->Cmp_1, env, nenv) && aux_eval_int(f2, env, nenv) == aux_eval_int(*e0->Cmp_2, env, nenv) by {
                    lemma_extras_prefix(x1, extra@, x0.len() as int, env, nenv);
                }
                assert forall|ok: spec_fn(int) -> bool| #[trigger] aux_bool_nvars(e0, ok) && allows_range(ok, s0, fin) implies aux_bool_nvars(
                    AuxBoolExpr::Cmp(op, Box::new(f1), Box::new(f2)),
                    ok,
                ) && extras_nvars(extra@, x0.len() as int, ok) by {
                    assert(allows_range(ok, s0, m1));
                    assert(allows_range(ok, m1, fin));
                    assert(aux_int_nvars(*e0->Cmp_1, ok));
                    assert(aux_int_nvars(*e0->Cmp_2, ok));
                    lemma_extras_nvars_join(x1, extra@, x0.len() as int, ok);
                }
                if aux_bool_nvars(e0, below(s0)) {
                    lemma_aux_int_nvars_mono(*e0->Cmp_1, below(s0), below(m1));
                    lemma_aux_int_nvars_mono(*e0->Cmp_2, below(s0), below(m1));
                    assert(allows_range(below(m1), s0, m1));
                    assert(aux_int_nvars(*e0->Cmp_1, below(m1)));
                    lemma_fresh_seq(x1, extra@, x0.len() as int, s0, m1, fin);
                }
            }
            Some(AuxBoolExpr::Cmp(op, Box::new(f1), Box::new(f2)))
        },
    }
}

/// The operands of an `Xor` or `Iff`: below the top they become fresh
/// variables defined in `extra`.
fn tseitin_pair(
    norm: &mut NormCSP,
    map: &NormalizeMap,
    extra: &mut Vec<AuxBoolExpr>,
    x: AuxBoolExpr,
    y: AuxBoolExpr,
    transform: bool,
    Ghost(e0): Ghost<AuxBoolExpr>,
) -> (r: Option<(AuxBoolExpr, AuxBoolExpr)>)
    requires
        env_ok(*old(norm), *map),
        decreases_to!(e0 => x),
        decreases_to!(e0 => y),
    ensures
        env_ok(*final(norm), *map),
        norm_grows(*old(norm), *final(norm)),
        r is None ==> final(norm).vars.num_bool_var == usize::MAX,
        old(extra)@.is_prefix_of(final(extra)@),
        r matches Some((f1, f2)) ==> forall|env: Env, nenv: Env|
            #[trigger] extras_hold(final(extra)@, old(extra)@.len() as int, env, nenv) ==> aux_eval_bool(f1, env, nenv)
                == aux_eval_bool(x, env, nenv) && aux_eval_bool(f2, env, nenv) == aux_eval_bool(y, env, nenv),
        r matches Some((f1, f2)) ==> forall|ok: spec_fn(int) -> bool|
            #[trigger] aux_bool_nvars(x, ok) && aux_bool_nvars(y, ok) && allows_range(ok, old(norm).vars.num_bool_var as int, final(norm).vars.num_bool_var as int)
                ==> aux_bool_nvars(f1, ok) && aux_bool_nvars(f2, ok) && extras_nvars(final(extra)@, old(extra)@.len() as int, ok),
        r is Some && aux_bool_nvars(x, below(old(norm).vars.num_bool_var as int)) && aux_bool_nvars(y, below(old(norm).vars.num_bool_var as int)) ==> satisfiable_by_fresh(
            final(extra)@,
            old(extra)@.len() as int,
            old(norm).vars.num_bool_var as int,
            final(norm).vars.num_bool_var as int,
        ),
    decreases e0, 0int,
{
    let ghost x0 = extra@;
    let ghost s0 = norm.vars.num_bool_var as int;
    if transform {
        let v1 = fresh_bool_var(norm, map)?;
        let v2 = fresh_bool_var(norm, map)?;
        let ghost s1 = norm.vars.num_bool_var as int;
        let f1 = tseitin_bool(norm, map, extra, x, true)?;
        let ghost x1 = extra@;
        let ghost e1 = norm.vars.num_bool_var as int;
        extra.push(AuxBoolExpr::Iff(Box::new(f1), Box::new(AuxBoolExpr::NVar(v1))));
        let ghost x2 = extra@;
        let f2 = tseitin_bool(norm, map, extra, y, true)?;
        let ghost x3 = extra@;
        let ghost e2 = norm.vars.num_bool_var as int;
        extra.push(AuxBoolExpr::Iff(Box::new(f2), Box::new(AuxBoolExpr::NVar(v2))));
        proof {
            let d1 = AuxBoolExpr::Iff(Box::new(f1), Box::new(AuxBoolExpr::NVar(v1)));
            let d2 = AuxBoolExpr::Iff(Box::new(f2), Box::new(AuxBoolExpr::NVar(v2)));
            assert(x2 == x1.push(d1));
            assert(extra@ == x3.push(d2));
            assert(v1.0 == s0 && v2.0 == s0 + 1 && s1 == s0 + 2);
            assert forall|ok: spec_fn(int) -> bool| #[trigger] aux_bool_nvars(x, ok) && aux_bool_nvars(y, ok) && allows_range(ok, s0, e2) implies aux_bool_nvars(
                AuxBoolExpr::NVar(v1),
                ok,
            ) && aux_bool_nvars(AuxBoolExpr::NVar(v2), ok) && extras_nvars(extra@, x0.len() as int, ok) by {
                assert(allows_range(ok, s1, e1));
                assert(allows_range(ok, e1, e2));
                assert(aux_bool_nvars(x, ok));
                assert(aux_bool_nvars(y, ok));
                assert(ok(v1.0 as int) && ok(v2.0 as int));
                assert(aux_bool_nvars(f1, ok));
                assert(aux_bool_nvars(f2, ok));
                assert(aux_bool_nvars(AuxBoolExpr::NVar(v1), ok));
                assert(aux_bool_nvars(AuxBoolExpr::NVar(v2), ok));
                assert(aux_bool_nvars(d1, ok));
                assert(aux_bool_nvars(d2, ok));
                assert forall|k: int| x0.len() <= k < extra@.len() implies aux_bool_nvars(#[trigger] extra@[k], ok) by {
                    if k < x1.len() {
                        assert(extra@[k] == x3[k]);
                        assert(x3[k] == x2[k]);
                        assert(x2[k] == x1[k]);
                    } else if k == x1.len() {
                        assert(extra@[k] == x3[k]);
                        assert(x3[k] == x2[k]);
                        assert(extra@[k] == d1);
                    } else if k < x3.len() {
                        assert(extra@[k] == x3[k]);
                    } else {
                        assert(extra@[k] == d2);
                    }
                }
            }
            if aux_bool_nvars(x, below(s0)) && aux_bool_nvars(y, below(s0)) {
                let ok1 = |i: int| i < s0 || (s1 <= i < e1);
                let ok2 = |i: int| i < s0 || (e1 <= i < e2);
                lemma_aux_bool_nvars_mono(x, below(s0), ok1);
                lemma_aux_bool_nvars_mono(x, below(s0), below(s1));
                lemma_aux_bool_nvars_mono(y, below(s0), ok2);
                lemma_aux_bool_nvars_mono(y, below(s0), below(e1));
                assert(allows_range(ok1, s1, e1));
                assert(allows_range(ok2, e1, e2));
                assert(aux_bool_nvars(x, ok1));
                assert(aux_bool_nvars(x, below(s1)));
                assert(aux_bool_nvars(y, ok2));
                assert(aux_bool_nvars(y, below(e1)));
                lemma_extras_nvars_mono(x1, x0.len() as int, ok1, avoid(s0));
                lemma_aux_bool_nvars_mono(f1, ok1, avoid(s0));
                lemma_fresh_define(x1, x0.len() as int, s1, e1, s0, e1, f1, v1);
                lemma_extras_nvars_mono(x1, x0.len() as int, ok1, below(e1));
                lemma_aux_bool_nvars_mono(f1, ok1, below(e1));
                assert(below(e1)(v1.0 as int));
                assert(aux_bool_nvars(AuxBoolExpr::NVar(v1), below(e1)));
                assert(aux_bool_nvars(d1, below(e1)));
                assert(extras_nvars(x2, x0.len() as int, below(e1))) by {
                    assert forall|k: int| x0.len() <= k < x2.len() implies aux_bool_nvars(#[trigger] x2[k], below(e1)) by {
                        if k < x1.len() {
                            assert(x2[k] == x1[k]);
                        }
                    }
                }
                lemma_fresh_seq(x2, x3, x0.len() as int, s0, e1, e2);
                lemma_extras_nvars_mono(x1, x0.len() as int, ok1, avoid(s0 + 1));
                lemma_aux_bool_nvars_mono(f1, ok1, avoid(s0 + 1));
                lemma_extras_nvars_mono(x3, x2.len() as int, ok2, avoid(s0 + 1));
                lemma_aux_bool_nvars_mono(f2, ok2, avoid(s0 + 1));
                assert(avoid(s0 + 1)(v1.0 as int));
                assert(aux_bool_nvars(AuxBoolExpr::NVar(v1), avoid(s0 + 1)));
                assert(aux_bool_nvars(d1, avoid(s0 + 1)));
                assert(extras_nvars(x3, x0.len() as int, avoid(s0 + 1))) by {
                    assert forall|k: int| x0.len() <= k < x3.len() implies aux_bool_nvars(#[trigger] x3[k], avoid(s0 + 1)) by {
                        assert(x2.is_prefix_of(x3));
                        if k < x1.len() {
                            assert(x3[k] == x2[k]);
                            assert(x2[k] == x1[k]);
                        } else if k == x1.len() {
                            assert(x3[k] == x2[k]);
                            assert(x2[k] == d1);
                        }
                    }
                }
                lemma_fresh_define(x3, x0.len() as int, s0, e2, s0, e2, f2, v2);
            }
            assert(x0.is_prefix_of(x1));
            assert(x1.is_prefix_of(x2));
            assert(x2.is_prefix_of(x3));
            assert(x3.is_prefix_of(extra@));
            assert forall|env: Env, nenv: Env| #[trigger] extras_hold(extra@, x0.len() as int, env, nenv) implies aux_eval_bool(
                AuxBoolExpr::NVar(v1),
                env,
                nenv,
            ) == aux_eval_bool(x, env, nenv) && aux_eval_bool(AuxBoolExpr::NVar(v2), env, nenv) == aux_eval_bool(y, env, nenv) by {
                lemma_extras_prefix(x3, extra@, x0.len() as int, env, nenv);
                lemma_extras_prefix(x2, x3, x0.len() as int, env, nenv);
                lemma_extras_prefix(x1, x2, x0.len() as int, env, nenv);
                assert(aux_eval_bool(x2[x1.len() as int], env, nenv));
                assert(aux_eval_bool(extra@[x3.len() as int], env, nenv));
            }
        }
        Some((AuxBoolExpr::NVar(v1), AuxBoolExpr::NVar(v2)))
    } else {
        let f1 = tseitin_bool(norm, map, extra, x, true)?;
        let ghost x1 = extra@;
        let ghost m1 = norm.vars.num_bool_var as int;
        let f2 = tseitin_bool(norm, map, extra, y, true)?;
        proof {
            let fin = norm.vars.num_bool_var as int;
            assert forall|ok: spec_fn(int) -> bool| #[trigger] aux_bool_nvars(x, ok) && aux_bool_nvars(y, ok) && allows_range(ok, s0, fin) implies aux_bool_nvars(
                f1,
                ok,
            ) && aux_bool_nvars(f2, ok) && extras_nvars(extra@, x0.len() as int, ok) by {
                assert(allows_range(ok, s0, m1));
                assert(allows_range(ok, m1, fin));
                assert(aux_bool_nvars(x, ok));
                assert(aux_bool_nvars(y, ok));
                lemma_extras_nvars_join(x1, extra@, x0.len() as int, ok);
            }
            if aux_bool_nvars(x, below(s0)) && aux_bool_nvars(y, below(s0)) {
                lemma_aux_bool_nvars_mono(x, below(s0), below(m1));
                lemma_aux_bool_nvars_mono(y, below(s0), below(m1));
                assert(allows_range(below(m1), s0, m1));
                assert(aux_bool_nvars(x, below(m1)));
                lemma_fresh_seq(x1, extra@, x0.len() as int, s0, m1, fin);
            }
            assert forall|env: Env, nenv: Env| #[trigger] extras_hold(extra@, x0.len() as int, env, nenv) implies aux_eval_bool(f1, env, nenv)
                == aux_eval_bool(x, env, nenv) && aux_eval_bool(f2, env, nenv) == aux_eval_bool(y, env, nenv) by {
                lemma_extras_prefix(x1, extra@, x0.len() as int, env, nenv);
            }
        }
        Some((f1, f2))
    }
}

fn tseitin_bools(
    norm: &mut NormCSP,
    map: &NormalizeMap,
    extra: &mut Vec<AuxBoolExpr>,
    es: Vec<Box<AuxBoolExpr>>,
    transform: bool,
    Ghost(e0): Ghost<AuxBoolExpr>,
) -> (r: Option<Vec<Box<AuxBoolExpr>>>)
    requires
        env_ok(*old(norm), *map),
        e0 == AuxBoolExpr::And(es) || e0 == AuxBoolExpr::Or(es),
    ensures
        env_ok(*final(norm), *map),
        norm_grows(*old(norm), *final(norm)),
        r is None ==> final(norm).vars.num_bool_var == usize::MAX,
        old(extra)@.is_prefix_of(final(extra)@),
        r matches Some(out) ==> out@.len() == es@.len(),
        r matches Some(out) ==> forall|env: Env, nenv: Env|
            #[trigger] extras_hold(final(extra)@, old(extra)@.len() as int, env, nenv) ==> forall|i: int|
                0 <= i < out@.len() ==> aux_eval_bool(*#[trigger] out@[i], env, nenv) == aux_eval_bool(*es@[i], env, nenv),
        r matches Some(out) ==> forall|ok: spec_fn(int) -> bool|
            #[trigger] aux_all_nvars(es@, ok) && allows_range(ok, old(norm).vars.num_bool_var as int, final(norm).vars.num_bool_var as int)
                ==> aux_all_nvars(out@, ok) && extras_nvars(final(extra)@, old(extra)@.len() as int, ok),
        r is Some && aux_all_nvars(es@, below(old(norm).vars.num_bool_var as int)) ==> satisfiable_by_fresh(
            final(extra)@,
            old(extra)@.len() as int,
            old(norm).vars.num_bool_var as int,
            final(norm).vars.num_bool_var as int,
        ),
    decreases e0, 0int,
{
    let ghost orig = es@;
    let ghost x0 = extra@;
    let ghost s0 = norm.vars.num_bool_var as int;
    let n = es.len();
    let mut rest = es;
    let mut out: Vec<Box<AuxBoolExpr>> = Vec::new();
    let mut i: usize = 0;
    proof {
        lemma_fresh_none(x0, s0, s0);
    }
    while i < n
        invariant
            env_ok(*norm, *map),
            norm_grows(*old(norm), *norm),
            e0 == AuxBoolExpr::And(es) || e0 == AuxBoolExpr::Or(es),
            es@ == orig,
            n == orig.len(),
            i <= n,
            rest@ == orig.subrange(i as int, n as int),
            out@.len() == i,
            x0 == old(extra)@,
            x0.is_prefix_of(extra@),
            forall|env: Env, nenv: Env|
                #[trigger] extras_hold(extra@, x0.len() as int, env, nenv) ==> forall|k: int|
                    0 <= k < i ==> aux_eval_bool(*#[trigger] out@[k], env, nenv) == aux_eval_bool(*orig[k], env, nenv),
            s0 == old(norm).vars.num_bool_var as int,
            forall|ok: spec_fn(int) -> bool|
                #[trigger] aux_all_nvars(orig, ok) && allows_range(ok, s0, norm.vars.num_bool_var as int) ==> (forall|k: int|
                    0 <= k < i ==> aux_bool_nvars(*#[trigger] out@[k], ok)) && extras_nvars(extra@, x0.len() as int, ok),
            aux_all_nvars(orig, below(s0)) ==> satisfiable_by_fresh(extra@, x0.len() as int, s0, norm.vars.num_bool_var as int),
        decreases n - i,
    {
        let b = rest.remove(0);
        assert(*b == orig[i as int]);
        proof {
            if e0 is And {
                assert(decreases_to!(e0 => e0->And_0));
                assert(decreases_to!(e0->And_0 => e0->And_0@));
                assert(decreases_to!(e0->And_0@ => e0->And_0@[i as int]));
            } else {
                assert(decreases_to!(e0 => e0->Or_0));
                assert(decreases_to!(e0->Or_0 => e0->Or_0@));
                assert(decreases_to!(e0->Or_0@ => e0->Or_0@[i as int]));
            }
            assert(decreases_to!(e0 => *b));
        }
        let ghost xp = extra@;
        let ghost op = out@;
        let ghost cur = norm.vars.num_bool_var as int;
        let f = tseitin_bool(norm, map, extra, *b, transform)?;
        out.push(Box::new(f));
        proof {
            let nw = norm.vars.num_bool_var as int;
            assert forall|ok: spec_fn(int) -> bool| #[trigger] aux_all_nvars(orig, ok) && allows_range(ok, s0, nw) implies (forall|k: int|
                0 <= k < i + 1 ==> aux_bool_nvars(*#[trigger] out@[k], ok)) && extras_nvars(extra@, x0.len() as int, ok) by {
                assert(allows_range(ok, s0, cur));
                assert(allows_range(ok, cur, nw));
                assert(aux_bool_nvars(*orig[i as int], ok));
                assert(aux_bool_nvars(*b, ok));
                lemma_extras_nvars_join(xp, extra@, x0.len() as int, ok);
                assert forall|k: int| 0 <= k < i + 1 implies aux_bool_nvars(*#[trigger] out@[k], ok) by {
                    if k < i {
                        assert(out@[k] == op[k]);
                    }
                }
            }
            if aux_all_nvars(orig, below(s0)) {
                assert forall|j: int| 0 <= j < orig.len() implies aux_bool_nvars(*#[trigger] orig[j], below(cur)) by {
                    lemma_aux_bool_nvars_mono(*orig[j], below(s0), below(cur));
                }
                assert(aux_all_nvars(orig, below(cur)));
                assert(allows_range(below(cur), s0, cur));
                assert(aux_bool_nvars(*b, below(cur)));
                lemma_fresh_seq(xp, extra@, x0.len() as int, s0, cur, nw);
            }
            assert forall|env: Env, nenv: Env| #[trigger] extras_hold(extra@, x0.len() as int, env, nenv) implies forall|k: int|
                0 <= k < i + 1 ==> aux_eval_bool(*#[trigger] out@[k], env, nenv) == aux_eval_bool(*orig[k], env, nenv) by {
                lemma_extras_prefix(xp, extra@, x0.len() as int, env, nenv);
                assert(extras_hold(xp, x0.len() as int, env, nenv));
                assert forall|k: int| 0 <= k < i + 1 implies aux_eval_bool(*#[trigger] out@[k], env, nenv) == aux_eval_bool(*orig[k], env, nenv) by {
                    if k < i {
                        assert(out@[k] == op[k]);
                    }
                }
            }
        }
        i += 1;
    }
    Some(out)
}

/// The Tseitin pass on an integer expression: conditions of `If` are
/// transformed as nested formulas. Wherever the added equivalences hold,
/// the result has the value of `e`; where `e` mentions only normalized
/// variables that existed before, values of the fresh variables make the
/// added equivalences hold.
pub fn tseitin_int(norm: &mut NormCSP, map: &NormalizeMap, extra: &mut Vec<AuxBoolExpr>, e: AuxIntExpr) -> (r: Option<AuxIntExpr>)
    requires
        env_ok(*old(norm), *map),
    ensures
        env_ok(*final(norm), *map),
        norm_grows(*old(norm), *final(norm)),
        r is None ==> final(norm).vars.num_bool_var == usize::MAX,
        old(extra)@.is_prefix_of(final(extra)@),
        r matches Some(f) ==> forall|env: Env, nenv: Env|
            #[trigger] extras_hold(final(extra)@, old(extra)@.len() as int, env, nenv) ==> aux_eval_int(f, env, nenv)
                == aux_eval_int(e, env, nenv),
        r matches Some(f) ==> forall|ok: spec_fn(int) -> bool|
            #[trigger] aux_int_nvars(e, ok) && allows_range(ok, old(norm).vars.num_bool_var as int, final(norm).vars.num_bool_var as int)
                ==> aux_int_nvars(f, ok) && extras_nvars(final(extra)@, old(extra)@.len() as int, ok),
        r is Some && aux_int_nvars(e, below(old(norm).vars.num_bool_var as int)) ==> satisfiable_by_fresh(
            final(extra)@,
            old(extra)@.len() as int,
            old(norm).vars.num_bool_var as int,
            final(norm).vars.num_bool_var as int,
        ),
    decreases e, 1int,
{
    let ghost e0 = e;
    let ghost x0 = extra@;
    let ghost s0 = norm.vars.num_bool_var as int;
    proof {
        lemma_fresh_none(x0, s0, s0);
    }
    match e {
        AuxIntExpr::Const(c) => Some(AuxIntExpr::Const(c)),
        AuxIntExpr::Var(v) => Some(AuxIntExpr::Var(v)),
        AuxIntExpr::NVar(v) => Some(AuxIntExpr::NVar(v)),
        AuxIntExpr::Linear(ts) => {
            let out = tseitin_terms(norm, map, extra, ts, Ghost(e0))?;
            proof {
                let fin = norm.vars.num_bool_var as int;
                assert forall|ok: spec_fn(int) -> bool| #[trigger] aux_int_nvars(e0, ok) && allows_range(ok, s0, fin) implies aux_int_nvars(
                    AuxIntExpr::Linear(out),
                    ok,
                ) && extras_nvars(extra@, x0.len() as int, ok) by {
                    assert(aux_terms_nvars(e0->Linear_0@, ok));
                }
            }
            Some(AuxIntExpr::Linear(out))
        },
        AuxIntExpr::If(c, t, f) => {
            proof {
                assert(decreases_to!(e0 => e0->If_0));
                assert(decreases_to!(e0 => e0->If_1));
                assert(decreases_to!(e0 => e0->If_2));
            }
            let c2 = tseitin_bool(norm, map, extra, *c, true)?;
            let ghost x1 = extra@;
            let ghost m1 = norm.vars.num_bool_var as int;
            let t2 = tseitin_int(norm, map, extra, *t)?;
            let ghost x2 = extra@;
            let ghost m2 = norm.vars.num_bool_var as int;
            let f2 = tseitin_int(norm, map, extra, *f)?;
            proof {
                let fin = norm.vars.num_bool_var as int;
                assert forall|ok: spec_fn(int) -> bool| #[trigger] aux_int_nvars(e0, ok) && allows_range(ok, s0, fin) implies aux_int_nvars(
                    AuxIntExpr::If(Box::new(c2), Box::new(t2), Box::new(f2)),
                    ok,
                ) && extras_nvars(extra@, x0.len() as int, ok) by {
                    assert(allows_range(ok, s0, m1));
                    assert(allows_range(ok, m1, m2));
                    assert(allows_range(ok, m2, fin));
                    assert(aux_bool_nvars(*e0->If_0, ok));
                    assert(aux_int_nvars(*e0->If_1, ok));
                    assert(aux_int_nvars(*e0->If_2, ok));
                    lemma_extras_nvars_join(x1, x2, x0.len() as int, ok);
                    lemma_extras_nvars_join(x2, extra@, x0.len() as int, ok);
                }
                if aux_int_nvars(e0, below(s0)) {
                    lemma_aux_bool_nvars_mono(*e0->If_0, below(s0), below(m2));
                    lemma_aux_int_nvars_mono(*e0->If_1, below(s0), below(m1));
                    lemma_aux_int_nvars_mono(*e0->If_1, below(s0), below(m2));
                    lemma_aux_int_nvars_mono(*e0->If_2, below(s0), below(m2));
                    lemma_aux_bool_nvars_mono(*e0->If_0, below(s0), below(m1));
                    assert(allows_range(below(m1), s0, m1));
                    assert(aux_bool_nvars(*e0->If_0, below(m1)));
                    lemma_fresh_seq(x1, x2, x0.len() as int, s0, m1, m2);
                    assert(allows_range(below(m2), s0, m2));
                    assert(aux_bool_nvars(*e0->If_0, below(m2)));
                    assert(aux_int_nvars(*e0->If_1, below(m2)));
                    lemma_extras_nvars_join(x1, x2, x0.len() as int, below(m2));
                    lemma_fresh_seq(x2, extra@, x0.len() as int, s0, m2, fin);
                }
                assert forall|env: Env, nenv: Env| #[trigger] extras_hold(extra@, x0.len() as int, env, nenv) implies aux_eval_bool(c2, env, nenv)
                    == aux_eval_bool(*e0->If_0, env, nenv) && aux_eval_int(t2, env, nenv) == aux_eval_int(*e0->If_1, env, nenv)
                    && aux_eval_int(f2, env, nenv) == aux_eval_int(*e0->If_2, env, nenv) by {
                    lemma_extras_prefix(x2, extra@, x0.len() as int, env, nenv);
                    lemma_extras_prefix(x1, x2, x0.len() as int, env, nenv);
                    lemma_extras_prefix(x2, extra@, x1.len() as int, env, nenv);
                }
            }
            Some(AuxIntExpr::If(Box::new(c2), Box::new(t2), Box::new(f2)))
        },
        AuxIntExpr::Abs(x) => {
            proof {
                assert(decreases_to!(e0 => e0->Abs_0));
            }
            let x2 = tseitin_int(norm, map, extra, *x)?;
            proof {
                let fin = norm.vars.num_bool_var as int;
                assert forall|ok: spec_fn(int) -> bool| #[trigger] aux_int_nvars(e0, ok) && allows_range(ok, s0, fin) implies aux_int_nvars(
                    AuxIntExpr::Abs(Box::new(x2)),
                    ok,
                ) && extras_nvars(extra@, x0.len() as int, ok) by {
                    assert(aux_int_nvars(*e0->Abs_0, ok));
                }
            }
            Some(AuxIntExpr::Abs(Box::new(x2)))
        },
        AuxIntExpr::Mul(x, y) => {
            proof {
                assert(decreases_to!(e0 => e0->Mul_0));
                assert(decreases_to!(e0 => e0->Mul_1));
            }
            let x2 = tseitin_int(norm, map, extra, *x)?;
            let ghost x1 = extra@;
            let ghost m1 = norm.vars.num_bool_var as int;
            let y2 = tseitin_int(norm, map, extra, *y)?;
            proof {
                let fin = norm.vars.num_bool_var as int;
                assert forall|ok: spec_fn(int) -> bool| #[trigger] aux_int_nvars(e0, ok) && allows_range(ok, s0, fin) implies aux_int_nvars(
                    AuxIntExpr::Mul(Box::new(x2), Box::new(y2)),
                    ok,
                ) && extras_nvars(extra@, x0.len() as int, ok) by {
                    assert(allows_range(ok, s0, m1));
                    assert(allows_range(ok, m1, fin));
                    assert(aux_int_nvars(*e0->Mul_0, ok));
                    assert(aux_int_nvars(*e0->Mul_1, ok));
                    lemma_extras_nvars_join(x1, extra@, x0.len() as int, ok);
                }
                if aux_int_nvars(e0, below(s0)) {
                    lemma_aux_int_nvars_mono(*e0->Mul_0, below(s0), below(m1));
                    lemma_aux_int_nvars_mono(*e0->Mul_1, below(s0), below(m1));
                    assert(allows_range(below(m1), s0, m1));
                    assert(aux_int_nvars(*e0->Mul_0, below(m1)));
                    lemma_fresh_seq(x1, extra@, x0.len() as int, s0, m1, fin);
                }
                assert forall|env: Env, nenv: Env| #[trigger] extras_hold(extra@, x0.len() as int, env, nenv) implies aux_eval_int(x2, env, nenv)
                    == aux_eval_int(*e0->Mul_0, env, nenv) && aux_eval_int(y2, env, nenv) == aux_eval_int(*e0->Mul_1, env, nenv) by {
                    lemma_extras_prefix(x1, extra@, x0.len() as int, env, nenv);
                }
            }
            Some(AuxIntExpr::Mul(Box::new(x2), Box::new(y2)))
        },
    }
}

fn tseitin_terms(
    norm: &mut NormCSP,
    map: &NormalizeMap,
    extra: &mut Vec<AuxBoolExpr>,
    ts: Vec<(Box<AuxIntExpr>, i32)>,
    Ghost(e0): Ghost<AuxIntExpr>,
) -> (r: Option<Vec<(Box<AuxIntExpr>, i32)>>)
    requires
        env_ok(*old(norm), *map),
        e0 == AuxIntExpr::Linear(ts),
    ensures
        env_ok(*final(norm), *map),
        norm_grows(*old(norm), *final(norm)),
        r is None ==> final(norm).vars.num_bool_var == usize::MAX,
        old(extra)@.is_prefix_of(final(extra)@),
        r matches Some(out) ==> forall|env: Env, nenv: Env|
            #[trigger] extras_hold(final(extra)@, old(extra)@.len() as int, env, nenv) ==> aux_eval_linear(out@, env, nenv)
                == aux_eval_linear(ts@, env, nenv),
        r matches Some(out) ==> forall|ok: spec_fn(int) -> bool|
            #[trigger] aux_terms_nvars(ts@, ok) && allows_range(ok, old(norm).vars.num_bool_var as int, final(norm).vars.num_bool_var as int)
                ==> aux_terms_nvars(out@, ok) && extras_nvars(final(extra)@, old(extra)@.len() as int, ok),
        r is Some && aux_terms_nvars(ts@, below(old(norm).vars.num_bool_var as int)) ==> satisfiable_by_fresh(
            final(extra)@,
            old(extra)@.len() as int,
            old(norm).vars.num_bool_var as int,
            final(norm).vars.num_bool_var as int,
        ),
    decreases e0, 0int,
{
    let ghost orig = ts@;
    let ghost x0 = extra@;
    let ghost s0 = norm.vars.num_bool_var as int;
    let n = ts.len();
    let mut rest = ts;
    let mut out: Vec<(Box<AuxIntExpr>, i32)> = Vec::new();
    let mut i: usize = 0;
    proof {
        lemma_fresh_none(x0, s0, s0);
    }
    while i < n
        invariant
            env_ok(*norm, *map),
            norm_grows(*old(norm), *norm),
            e0 == AuxIntExpr::Linear(ts),
            ts@ == orig,
            n == orig.len(),
            i <= n,
            rest@ == orig.subrange(i as int, n as int),
            x0 == old(extra)@,
            x0.is_prefix_of(extra@),
            forall|env: Env, nenv: Env|
                #[trigger] extras_hold(extra@, x0.len() as int, env, nenv) ==> aux_eval_linear(out@, env, nenv) == aux_eval_linear(
                    orig.subrange(0, i as int),
                    env,
                    nenv,
                ),
            out@.len() == i,
            s0 == old(norm).vars.num_bool_var as int,
            forall|ok: spec_fn(int) -> bool|
                #[trigger] aux_terms_nvars(orig, ok) && allows_range(ok, s0, norm.vars.num_bool_var as int) ==> (forall|k: int|
                    0 <= k < i ==> aux_int_nvars(*(#[trigger] out@[k]).0, ok)) && extras_nvars(extra@, x0.len() as int, ok),
            aux_terms_nvars(orig, below(s0)) ==> satisfiable_by_fresh(extra@, x0.len() as int, s0, norm.vars.num_bool_var as int),
        decreases n - i,
    {
        let (b, c) = rest.remove(0);
        assert(b == orig[i as int].0);
        assert(c == orig[i as int].1);
        proof {
            assert(decreases_to!(e0 => e0->Linear_0));
            assert(decreases_to!(e0->Linear_0 => e0->Linear_0@));
            assert(decreases_to!(e0->Linear_0@ => e0->Linear_0@[i as int]));
            assert(decreases_to!(e0->Linear_0@[i as int] => e0->Linear_0@[i as int].0));
            assert(decreases_to!(e0 => *b));
        }
        let ghost xp = extra@;
        let ghost op = out@;
        let ghost bv = *b;
        let ghost cur = norm.vars.num_bool_var as int;
        let f = tseitin_int(norm, map, extra, *b)?;
        let ghost t = (Box::new(f), c);
        out.push((Box::new(f), c));
        proof {
            let nw = norm.vars.num_bool_var as int;
            assert forall|ok: spec_fn(int) -> bool| #[trigger] aux_terms_nvars(orig, ok) && allows_range(ok, s0, nw) implies (forall|k: int|
                0 <= k < i + 1 ==> aux_int_nvars(*(#[trigger] out@[k]).0, ok)) && extras_nvars(extra@, x0.len() as int, ok) by {
                assert(allows_range(ok, s0, cur));
                assert(allows_range(ok, cur, nw));
                assert(aux_int_nvars(*orig[i as int].0, ok));
                assert(aux_int_nvars(bv, ok));
                lemma_extras_nvars_join(xp, extra@, x0.len() as int, ok);
                assert forall|k: int| 0 <= k < i + 1 implies aux_int_nvars(*(#[trigger] out@[k]).0, ok) by {
                    if k < i {
                        assert(out@[k] == op[k]);
                    }
                }
            }
            if aux_terms_nvars(orig, below(s0)) {
                assert forall|j: int| 0 <= j < orig.len() implies aux_int_nvars(*(#[trigger] orig[j]).0, below(cur)) by {
                    lemma_aux_int_nvars_mono(*orig[j].0, below(s0), below(cur));
                }
                assert(aux_terms_nvars(orig, below(cur)));
                assert(allows_range(below(cur), s0, cur));
                assert(aux_int_nvars(bv, below(cur)));
                lemma_fresh_seq(xp, extra@, x0.len() as int, s0, cur, nw);
            }
            assert(out@ == op.push(t));
            assert(out@.drop_last() =~= op);
            assert(orig.subrange(0, i + 1).drop_last() =~= orig.subrange(0, i as int));
            assert(orig.subrange(0, i + 1).last() == orig[i as int]);
            assert forall|env: Env, nenv: Env| #[trigger] extras_hold(extra@, x0.len() as int, env, nenv) implies aux_eval_linear(out@, env, nenv)
                == aux_eval_linear(orig.subrange(0, i + 1), env, nenv) by {
                lemma_extras_prefix(xp, extra@, x0.len() as int, env, nenv);
                assert(aux_eval_int(f, env, nenv) == aux_eval_int(bv, env, nenv));
            }
        }
        i += 1;
    }
    proof {
        assert(orig.subrange(0, n as int) =~= orig);
    }
    Some(out)
}

/// Appends the literals of `c` to `aux`.
fn append_constraint(aux: &mut Constraint, c: Constraint, Ghost(nb): Ghost<nat>, Ghost(ni): Ghost<nat>)
    requires
        constraint_ok(*old(aux), nb, ni),
        constraint_ok(c, nb, ni),
    ensures
        constraint_ok(*final(aux), nb, ni),
        final(aux).bool_lit@.len() == old(aux).bool_lit@.len() + c.bool_lit@.len(),
        final(aux).linear_lit@.len() == old(aux).linear_lit@.len() + c.linear_lit@.len(),
        final(aux).bool_lit@ == old(aux).bool_lit@ + c.bool_lit@,
        final(aux).linear_lit@ == old(aux).linear_lit@ + c.linear_lit@,
{
    let mut c = c;
    let ghost b0 = c.bool_lit@;
    let ghost l0 = c.linear_lit@;
    let ghost a0 = aux.bool_lit@;
    let ghost al0 = aux.linear_lit@;
    let mut bl: Vec<NBoolLit> = Vec::new();
    std::mem::swap(&mut bl, &mut c.bool_lit);
    let mut ll: Vec<crate::norm_csp::LinearLit> = Vec::new();
    std::mem::swap(&mut ll, &mut c.linear_lit);
    let mut i: usize = 0;
    while i < bl.len()
        invariant
            bl@ == b0,
            i <= b0.len(),
            aux.bool_lit@ == a0 + b0.subrange(0, i as int),
            aux.linear_lit@ == al0,
            forall|k: int| 0 <= k < a0.len() ==> (#[trigger] a0[k]).var.0 < nb,
            forall|k: int| 0 <= k < b0.len() ==> (#[trigger] b0[k]).var.0 < nb,
        decreases b0.len() - i,
    {
        aux.add_bool(bl[i]);
        i += 1;
        assert(aux.bool_lit@ =~= a0 + b0.subrange(0, i as int));
    }
    let ghost a1 = aux.bool_lit@;
    let n = ll.len();
    let mut rest = ll;
    let mut j: usize = 0;
    while j < n
        invariant
            n == l0.len(),
            j <= n,
            rest@ == l0.subrange(j as int, n as int),
            aux.linear_lit@ == al0 + l0.subrange(0, j as int),
            aux.bool_lit@ == a1,
            forall|k: int| 0 <= k < al0.len() ==> linear_lit_ok(#[trigger] al0[k], ni),
            forall|k: int| 0 <= k < l0.len() ==> linear_lit_ok(#[trigger] l0[k], ni),
        decreases n - j,
    {
        let l = rest.remove(0);
        assert(l == l0[j as int]);
        aux.add_linear(l);
        j += 1;
        assert(aux.linear_lit@ =~= al0 + l0.subrange(0, j as int));
    }
    proof {
        assert(aux.bool_lit@ =~= a0 + b0);
        assert(aux.linear_lit@ =~= al0 + l0);
        assert forall|k: int| 0 <= k < aux.bool_lit@.len() implies (#[trigger] aux.bool_lit@[k]).var.0 < nb by {
            if k < a0.len() {
                assert(aux.bool_lit@[k] == a0[k]);
            } else {
                assert(aux.bool_lit@[k] == b0[k - a0.len()]);
            }
        }
        assert forall|k: int| 0 <= k < aux.linear_lit@.len() implies linear_lit_ok(#[trigger] aux.linear_lit@[k], ni) by {
            if k < al0.len() {
                assert(aux.linear_lit@[k] == al0[k]);
            } else {
                assert(aux.linear_lit@[k] == l0[k - al0.len()]);
            }
        }
    }
}

/// Adds `lit` to every clause of `g`.
fn add_lit_to_all(g: Vec<Constraint>, lit: NBoolLit, Ghost(nb): Ghost<nat>, Ghost(ni): Ghost<nat>) -> (r: Vec<Constraint>)
    requires
        constraints_ok(g@, nb, ni),
        lit.var.0 < nb,
    ensures
        constraints_ok(r@, nb, ni),
        r@.len() == g@.len(),
        forall|k: int|
            0 <= k < r@.len() ==> (#[trigger] r@[k]).bool_lit@ == g@[k].bool_lit@.push(lit) && r@[k].linear_lit@
                == g@[k].linear_lit@,
{
    let ghost g0 = g@;
    let n = g.len();
    let mut rest = g;
    let mut out: Vec<Constraint> = Vec::new();
    let mut i: usize = 0;
    while i < n
        invariant
            n == g0.len(),
            i <= n,
            rest@ == g0.subrange(i as int, n as int),
            constraints_ok(g0, nb, ni),
            lit.var.0 < nb,
            out@.len() == i,
            constraints_ok(out@, nb, ni),
            forall|k: int|
                0 <= k < i ==> (#[trigger] out@[k]).bool_lit@ == g0[k].bool_lit@.push(lit) && out@[k].linear_lit@
                    == g0[k].linear_lit@,
        decreases n - i,
    {
        let mut c = rest.remove(0);
        assert(c == g0[i as int]);
        assert(constraint_ok(c, nb, ni));
        let ghost cb = c.bool_lit@;
        c.add_bool(lit);
        proof {
            assert forall|k: int| 0 <= k < c.bool_lit@.len() implies (#[trigger] c.bool_lit@[k]).var.0 < nb by {
                if k < cb.len() {
                    assert(c.bool_lit@[k] == cb[k]);
                }
            }
        }
        let ghost prev = out@;
        out.push(c);
        proof {
            assert forall|k: int| 0 <= k < out@.len() implies constraint_ok(#[trigger] out@[k], nb, ni) by {
                if k < prev.len() {
                    assert(out@[k] == prev[k]);
                }
            }
            assert forall|k: int| 0 <= k < i + 1 implies (#[trigger] out@[k]).bool_lit@ == g0[k].bool_lit@.push(lit)
                && out@[k].linear_lit@ == g0[k].linear_lit@ by {
                if k < prev.len() {
                    assert(out@[k] == prev[k]);
                }
            }
        }
        i += 1;
    }
    out
}

/// All clauses of all groups: their conjunction.
pub fn normalize_conjunction(constrs: Vec<Vec<Constraint>>, Ghost(nb): Ghost<nat>, Ghost(ni): Ghost<nat>) -> (r: Vec<Constraint>)
    requires
        groups_ok(constrs@, nb, ni),
    ensures
        constraints_ok(r@, nb, ni),
        r@ == concat_groups(constrs@),
        forall|bools: Seq<bool>, ints: Seq<int>|
            #[trigger] all_true(r@, bools, ints) == forall|i: int| 0 <= i < constrs@.len() ==> all_true(#[trigger] constrs@[i]@, bools, ints),
{
    let ghost g0 = constrs@;
    let n = constrs.len();
    let mut rest = constrs;
    let mut ret: Vec<Constraint> = Vec::new();
    let mut i: usize = 0;
    while i < n
        invariant
            n == g0.len(),
            i <= n,
            rest@ == g0.subrange(i as int, n as int),
            groups_ok(g0, nb, ni),
            constraints_ok(ret@, nb, ni),
            ret@ == concat_groups(g0.take(i as int)),
        decreases n - i,
    {
        let g = rest.remove(0);
        assert(g == g0[i as int]);
        assert(constraints_ok(g@, nb, ni));
        let ghost gv = g@;
        assert(concat_groups(g0.take(i as int)) + gv.take(0) =~= concat_groups(g0.take(i as int)));
        let m = g.len();
        let mut grest = g;
        let mut j: usize = 0;
        while j < m
            invariant
                m == gv.len(),
                j <= m,
                grest@ == gv.subrange(j as int, m as int),
                constraints_ok(gv, nb, ni),
                constraints_ok(ret@, nb, ni),
                ret@ == concat_groups(g0.take(i as int)) + gv.take(j as int),
            decreases m - j,
        {
            let c = grest.remove(0);
            assert(c == gv[j as int]);
            let ghost prev = ret@;
            ret.push(c);
            proof {
                assert(gv.take(j + 1) =~= gv.take(j as int).push(c));
                assert(ret@ =~= concat_groups(g0.take(i as int)) + gv.take(j + 1));
                assert forall|k: int| 0 <= k < ret@.len() implies constraint_ok(#[trigger] ret@[k], nb, ni) by {
                    if k < prev.len() {
                        assert(ret@[k] == prev[k]);
                    }
                }
            }
            j += 1;
        }
        proof {
            assert(gv.take(m as int) =~= gv);
            assert(g0.take(i + 1).drop_last() =~= g0.take(i as int));
            assert(g0.take(i + 1).last() == g0[i as int]);
        }
        i += 1;
    }
    assert(g0.take(n as int) =~= g0);
    proof {
        assert forall|bools: Seq<bool>, ints: Seq<int>|
            #[trigger] all_true(ret@, bools, ints) == forall|i: int| 0 <= i < g0.len() ==> all_true(#[trigger] g0[i]@, bools, ints) by {
            lemma_concat_true(g0, bools, ints);
        }
    }
    ret
}

/// The constraints of the groups, one group after the other.
pub open spec fn concat_groups(gs: Seq<Vec<Constraint>>) -> Seq<Constraint>
    decreases gs.len(),
{
    if gs.len() == 0 {
        Seq::empty()
    } else {
        concat_groups(gs.drop_last()) + gs.last()@
    }
}

/// The literal holds when Boolean variable `v` takes `bools[v]`.
pub open spec fn lit_true(l: NBoolLit, bools: Seq<bool>) -> bool {
    bools[l.var.0 as int] != l.negated
}

/// Some literal holds: a Boolean one under `bools`, or a linear one when
/// integer variable `v` takes `ints[v]`.
pub open spec fn lits_true(
    bl: Seq<NBoolLit>,
    ll: Seq<crate::norm_csp::LinearLit>,
    bools: Seq<bool>,
    ints: Seq<int>,
) -> bool {
    ||| exists|k: int| 0 <= k < bl.len() && lit_true(#[trigger] bl[k], bools)
    ||| exists|k: int| 0 <= k < ll.len() && (#[trigger] ll[k]).holds(ints)
}

/// The clause holds under the values.
pub open spec fn clause_true(c: Constraint, bools: Seq<bool>, ints: Seq<int>) -> bool {
    lits_true(c.bool_lit@, c.linear_lit@, bools, ints)
}

/// Every clause holds under the values.
pub open spec fn all_true(cs: Seq<Constraint>, bools: Seq<bool>, ints: Seq<int>) -> bool {
    forall|i: int| 0 <= i < cs.len() ==> clause_true(#[trigger] cs[i], bools, ints)
}

/// Every clause of some group holds under the values.
pub open spec fn some_group_true(gs: Seq<Vec<Constraint>>, bools: Seq<bool>, ints: Seq<int>) -> bool {
    exists|i: int| 0 <= i < gs.len() && all_true(#[trigger] gs[i]@, bools, ints)
}

/// The two value lists agree on the first `n` Boolean variables.
pub open spec fn same_below(a: Seq<bool>, b: Seq<bool>, n: nat) -> bool {
    &&& n <= a.len()
    &&& n <= b.len()
    &&& forall|i: int| 0 <= i < n ==> #[trigger] a[i] == b[i]
}

/// The Boolean literals of the one-clause groups among the first `k`.
spec fn singles_bool(gs: Seq<Vec<Constraint>>, k: int) -> Seq<NBoolLit>
    decreases k,
{
    if k <= 0 {
        Seq::empty()
    } else {
        singles_bool(gs, k - 1) + if gs[k - 1]@.len() == 1 { gs[k - 1]@[0].bool_lit@ } else { Seq::empty() }
    }
}

/// The linear literals of the one-clause groups among the first `k`.
spec fn singles_linear(gs: Seq<Vec<Constraint>>, k: int) -> Seq<crate::norm_csp::LinearLit>
    decreases k,
{
    if k <= 0 {
        Seq::empty()
    } else {
        singles_linear(gs, k - 1) + if gs[k - 1]@.len() == 1 { gs[k - 1]@[0].linear_lit@ } else { Seq::empty() }
    }
}

/// The groups among the first `k` that do not have exactly one clause.
spec fn complex_of(gs: Seq<Vec<Constraint>>, k: int) -> Seq<Vec<Constraint>>
    decreases k,
{
    if k <= 0 {
        Seq::empty()
    } else {
        complex_of(gs, k - 1) + if gs[k - 1]@.len() != 1 { seq![gs[k - 1]] } else { Seq::empty() }
    }
}

/// Literals of two lists: some holds exactly when some of either holds.
proof fn lemma_lits_concat(
    a: Seq<NBoolLit>,
    c: Seq<NBoolLit>,
    la: Seq<crate::norm_csp::LinearLit>,
    lc: Seq<crate::norm_csp::LinearLit>,
    bools: Seq<bool>,
    ints: Seq<int>,
)
    ensures
        lits_true(a + c, la + lc, bools, ints) == (lits_true(a, la, bools, ints) || lits_true(c, lc, bools, ints)),
{
    let ab = a + c;
    let al = la + lc;
    if exists|k: int| 0 <= k < ab.len() && lit_true(#[trigger] ab[k], bools) {
        let k = choose|k: int| 0 <= k < ab.len() && lit_true(#[trigger] ab[k], bools);
        if k < a.len() {
            assert(ab[k] == a[k]);
        } else {
            assert(ab[k] == c[k - a.len()]);
        }
    }
    if exists|k: int| 0 <= k < al.len() && (#[trigger] al[k]).holds(ints) {
        let k = choose|k: int| 0 <= k < al.len() && (#[trigger] al[k]).holds(ints);
        if k < la.len() {
            assert(al[k] == la[k]);
        } else {
            assert(al[k] == lc[k - la.len()]);
        }
    }
    if exists|k: int| 0 <= k < a.len() && lit_true(#[trigger] a[k], bools) {
        let k = choose|k: int| 0 <= k < a.len() && lit_true(#[trigger] a[k], bools);
        assert(ab[k] == a[k]);
    }
    if exists|k: int| 0 <= k < c.len() && lit_true(#[trigger] c[k], bools) {
        let k = choose|k: int| 0 <= k < c.len() && lit_true(#[trigger] c[k], bools);
        assert(ab[k + a.len()] == c[k]);
    }
    if exists|k: int| 0 <= k < la.len() && (#[trigger] la[k]).holds(ints) {
        let k = choose|k: int| 0 <= k < la.len() && (#[trigger] la[k]).holds(ints);
        assert(al[k] == la[k]);
    }
    if exists|k: int| 0 <= k < lc.len() && (#[trigger] lc[k]).holds(ints) {
        let k = choose|k: int| 0 <= k < lc.len() && (#[trigger] lc[k]).holds(ints);
        assert(al[k + la.len()] == lc[k]);
    }
}

/// Some group among the first `k` holds exactly when a literal of the
/// one-clause groups holds or every clause of another group does.
proof fn lemma_split_groups(gs: Seq<Vec<Constraint>>, k: int, bools: Seq<bool>, ints: Seq<int>)
    requires
        0 <= k <= gs.len(),
    ensures
        (exists|j: int| 0 <= j < k && all_true(#[trigger] gs[j]@, bools, ints)) == (lits_true(
            singles_bool(gs, k),
            singles_linear(gs, k),
            bools,
            ints,
        ) || exists|t: int| 0 <= t < complex_of(gs, k).len() && all_true(#[trigger] complex_of(gs, k)[t]@, bools, ints)),
    decreases k,
{
    if k > 0 {
        lemma_split_groups(gs, k - 1, bools, ints);
        let g = gs[k - 1]@;
        let sb = if g.len() == 1 { g[0].bool_lit@ } else { Seq::<NBoolLit>::empty() };
        let sl = if g.len() == 1 { g[0].linear_lit@ } else { Seq::<crate::norm_csp::LinearLit>::empty() };
        lemma_lits_concat(singles_bool(gs, k - 1), sb, singles_linear(gs, k - 1), sl, bools, ints);
        let c0 = complex_of(gs, k - 1);
        let c1 = complex_of(gs, k);
        if g.len() == 1 {
            assert(c1 =~= c0);
            assert(all_true(g, bools, ints) == clause_true(g[0], bools, ints));
        } else {
            assert(c1 =~= c0.push(gs[k - 1]));
            assert(!lits_true(sb, sl, bools, ints));
            if exists|t: int| 0 <= t < c1.len() && all_true(#[trigger] c1[t]@, bools, ints) {
                let t = choose|t: int| 0 <= t < c1.len() && all_true(#[trigger] c1[t]@, bools, ints);
                if t < c0.len() {
                    assert(c1[t] == c0[t]);
                }
            }
            if exists|t: int| 0 <= t < c0.len() && all_true(#[trigger] c0[t]@, bools, ints) {
                let t = choose|t: int| 0 <= t < c0.len() && all_true(#[trigger] c0[t]@, bools, ints);
                assert(c1[t] == c0[t]);
            }
            if all_true(g, bools, ints) {
                assert(c1[c0.len() as int] == gs[k - 1]);
            }
        }
        if exists|j: int| 0 <= j < k && all_true(#[trigger] gs[j]@, bools, ints) {
            let j = choose|j: int| 0 <= j < k && all_true(#[trigger] gs[j]@, bools, ints);
            if j < k - 1 {
                assert(exists|j2: int| 0 <= j2 < k - 1 && all_true(#[trigger] gs[j2]@, bools, ints));
            }
        }
        if exists|j: int| 0 <= j < k - 1 && all_true(#[trigger] gs[j]@, bools, ints) {
            let j = choose|j: int| 0 <= j < k - 1 && all_true(#[trigger] gs[j]@, bools, ints);
            assert(0 <= j < k);
        }
    }
}

/// Adding `lit` to every clause: all hold exactly when all held before or
/// `lit` holds.
proof fn lemma_add_lit_all(g: Seq<Constraint>, r: Seq<Constraint>, lit: NBoolLit, bools: Seq<bool>, ints: Seq<int>)
    requires
        r.len() == g.len(),
        forall|k: int| 0 <= k < r.len() ==> (#[trigger] r[k]).bool_lit@ == g[k].bool_lit@.push(lit) && r[k].linear_lit@ == g[k].linear_lit@,
    ensures
        all_true(r, bools, ints) == (all_true(g, bools, ints) || lit_true(lit, bools)),
{
    assert forall|k: int| 0 <= k < r.len() implies #[trigger] clause_true(r[k], bools, ints) == (clause_true(g[k], bools, ints) || lit_true(lit, bools)) by {
        lemma_lits_concat(g[k].bool_lit@, seq![lit], g[k].linear_lit@, Seq::empty(), bools, ints);
        assert(g[k].bool_lit@ + seq![lit] =~= r[k].bool_lit@);
        assert(g[k].linear_lit@ + Seq::<crate::norm_csp::LinearLit>::empty() =~= r[k].linear_lit@);
        if lit_true(lit, bools) {
            assert(seq![lit][0] == lit);
        }
    }
    if !lit_true(lit, bools) {
        if all_true(r, bools, ints) {
            assert forall|k: int| 0 <= k < g.len() implies #[trigger] clause_true(g[k], bools, ints) by {
                assert(clause_true(r[k], bools, ints));
            }
        }
        if all_true(g, bools, ints) {
            assert forall|k: int| 0 <= k < r.len() implies #[trigger] clause_true(r[k], bools, ints) by {
                assert(clause_true(g[k], bools, ints));
            }
        }
    } else {
        assert forall|k: int| 0 <= k < r.len() implies #[trigger] clause_true(r[k], bools, ints) by {
            assert(clause_true(r[k], bools, ints) == (clause_true(g[k], bools, ints) || lit_true(lit, bools)));
        }
    }
}

/// The clauses of all groups hold exactly when each group's do.
proof fn lemma_concat_true(gs: Seq<Vec<Constraint>>, bools: Seq<bool>, ints: Seq<int>)
    ensures
        all_true(concat_groups(gs), bools, ints) == forall|i: int| 0 <= i < gs.len() ==> all_true(#[trigger] gs[i]@, bools, ints),
    decreases gs.len(),
{
    if gs.len() > 0 {
        let init = gs.drop_last();
        lemma_concat_true(init, bools, ints);
        let a = concat_groups(init);
        let b = gs.last()@;
        let c = concat_groups(gs);
        assert(c == a + b);
        if all_true(c, bools, ints) {
            assert forall|k: int| 0 <= k < a.len() implies #[trigger] clause_true(a[k], bools, ints) by {
                assert(c[k] == a[k]);
            }
            assert forall|k: int| 0 <= k < b.len() implies #[trigger] clause_true(b[k], bools, ints) by {
                assert(c[k + a.len()] == b[k]);
            }
            assert forall|i: int| 0 <= i < gs.len() implies all_true(#[trigger] gs[i]@, bools, ints) by {
                if i < gs.len() - 1 {
                    assert(gs[i] == init[i]);
                }
            }
        }
        if forall|i: int| 0 <= i < gs.len() ==> all_true(#[trigger] gs[i]@, bools, ints) {
            assert forall|i: int| 0 <= i < init.len() implies all_true(#[trigger] init[i]@, bools, ints) by {
                assert(init[i] == gs[i]);
            }
            assert(all_true(gs[gs.len() - 1]@, bools, ints));
            assert forall|k: int| 0 <= k < c.len() implies #[trigger] clause_true(c[k], bools, ints) by {
                if k < a.len() {
                    assert(c[k] == a[k]);
                } else {
                    assert(c[k] == b[k - a.len()]);
                }
            }
        }
    } else {
        assert(concat_groups(gs).len() == 0);
    }
}

/// Clauses over the first `nb` Boolean variables hold alike under values
/// that agree there.
proof fn lemma_all_true_frame(cs: Seq<Constraint>, nb: nat, ni: nat, b1: Seq<bool>, b2: Seq<bool>, ints: Seq<int>)
    requires
        constraints_ok(cs, nb, ni),
        same_below(b1, b2, nb),
    ensures
        all_true(cs, b1, ints) == all_true(cs, b2, ints),
{
    assert forall|i: int| 0 <= i < cs.len() implies #[trigger] clause_true(cs[i], b1, ints) == clause_true(cs[i], b2, ints) by {
        assert(constraint_ok(cs[i], nb, ni));
        let bl = cs[i].bool_lit@;
        assert forall|k: int| 0 <= k < bl.len() implies #[trigger] lit_true(bl[k], b1) == lit_true(bl[k], b2) by {
            assert(bl[k].var.0 < nb);
        }
        if exists|k: int| 0 <= k < bl.len() && lit_true(#[trigger] bl[k], b1) {
            let k = choose|k: int| 0 <= k < bl.len() && lit_true(#[trigger] bl[k], b1);
            assert(lit_true(bl[k], b2));
        }
        if exists|k: int| 0 <= k < bl.len() && lit_true(#[trigger] bl[k], b2) {
            let k = choose|k: int| 0 <= k < bl.len() && lit_true(#[trigger] bl[k], b2);
            assert(lit_true(bl[k], b1));
        }
    }
    if all_true(cs, b1, ints) {
        assert forall|i: int| 0 <= i < cs.len() implies #[trigger] clause_true(cs[i], b2, ints) by {
            assert(clause_true(cs[i], b1, ints));
        }
    }
    if all_true(cs, b2, ints) {
        assert forall|i: int| 0 <= i < cs.len() implies #[trigger] clause_true(cs[i], b1, ints) by {
            assert(clause_true(cs[i], b2, ints));
        }
    }
}

/// The selector literals `nb0 + q` for the first `m` groups.
spec fn selectors(nb0: nat, m: nat) -> Seq<NBoolLit> {
    Seq::new(m, |q: int| NBoolLit { var: crate::norm_csp::BoolVar((nb0 + q) as usize), negated: false })
}

/// The negated selector of group `q`.
spec fn deselect(nb0: nat, q: int) -> NBoolLit {
    NBoolLit { var: crate::norm_csp::BoolVar((nb0 + q) as usize), negated: true }
}

/// `r` is `g` with `lit` added to every clause.
spec fn with_lit(g: Seq<Constraint>, r: Seq<Constraint>, lit: NBoolLit) -> bool {
    &&& r.len() == g.len()
    &&& forall|k: int| 0 <= k < r.len() ==> (#[trigger] r[k]).bool_lit@ == g[k].bool_lit@.push(lit) && r[k].linear_lit@ == g[k].linear_lit@
}

/// The literals hold alike under values that agree on their variables.
proof fn lemma_lits_frame(bl: Seq<NBoolLit>, ll: Seq<crate::norm_csp::LinearLit>, nb: nat, b1: Seq<bool>, b2: Seq<bool>, ints: Seq<int>)
    requires
        forall|k: int| 0 <= k < bl.len() ==> (#[trigger] bl[k]).var.0 < nb,
        same_below(b1, b2, nb),
    ensures
        lits_true(bl, ll, b1, ints) == lits_true(bl, ll, b2, ints),
{
    if exists|k: int| 0 <= k < bl.len() && lit_true(#[trigger] bl[k], b1) {
        let k = choose|k: int| 0 <= k < bl.len() && lit_true(#[trigger] bl[k], b1);
        assert(bl[k].var.0 < nb);
        assert(lit_true(bl[k], b2));
    }
    if exists|k: int| 0 <= k < bl.len() && lit_true(#[trigger] bl[k], b2) {
        let k = choose|k: int| 0 <= k < bl.len() && lit_true(#[trigger] bl[k], b2);
        assert(bl[k].var.0 < nb);
        assert(lit_true(bl[k], b1));
    }
}

/// The general case of `normalize_disjunction`: each group of several
/// clauses gets a selector that its clauses require false, and one more
/// clause holds the literals of the one-clause groups and all selectors.
proof fn lemma_disjunction_selected(
    g0: Seq<Vec<Constraint>>,
    groups: Seq<Vec<Constraint>>,
    auxf: Constraint,
    nb0: nat,
    ni0: nat,
    bools: Seq<bool>,
    ints: Seq<int>,
)
    requires
        groups_ok(g0, nb0, ni0),
        forall|k: int| 0 <= k < singles_bool(g0, g0.len() as int).len() ==> (#[trigger] singles_bool(g0, g0.len() as int)[k]).var.0 < nb0,
        groups_ok(complex_of(g0, g0.len() as int), nb0, ni0),
        groups.len() == complex_of(g0, g0.len() as int).len() + 1,
        forall|q: int| 0 <= q < complex_of(g0, g0.len() as int).len() ==> with_lit(
            complex_of(g0, g0.len() as int)[q]@,
            (#[trigger] groups[q])@,
            deselect(nb0, q),
        ),
        groups[groups.len() - 1]@ == seq![auxf],
        auxf.bool_lit@ == singles_bool(g0, g0.len() as int) + selectors(nb0, complex_of(g0, g0.len() as int).len()),
        auxf.linear_lit@ == singles_linear(g0, g0.len() as int),
        bools.len() >= nb0 + complex_of(g0, g0.len() as int).len(),
        nb0 + complex_of(g0, g0.len() as int).len() <= usize::MAX,
    ensures
        all_true(concat_groups(groups), bools, ints) ==> some_group_true(g0, bools, ints),
        some_group_true(g0, bools, ints) ==> exists|b2: Seq<bool>|
            b2.len() == bools.len() && same_below(b2, bools, nb0) && all_true(concat_groups(groups), b2, ints),
{
    let n = g0.len() as int;
    let cg = complex_of(g0, n);
    let m = cg.len();
    let sb = singles_bool(g0, n);
    let sl = singles_linear(g0, n);
    let sel = selectors(nb0, m);
    lemma_split_groups(g0, n, bools, ints);
    lemma_concat_true(groups, bools, ints);
    lemma_lits_concat(sb, sel, sl, Seq::empty(), bools, ints);
    assert(sl + Seq::<crate::norm_csp::LinearLit>::empty() =~= sl);
    if all_true(concat_groups(groups), bools, ints) {
        assert(all_true(groups[m as int]@, bools, ints));
        assert(clause_true(auxf, bools, ints)) by {
            assert(groups[m as int]@[0] == auxf);
        }
        if !lits_true(sb, sl, bools, ints) {
            assert(lits_true(sel, Seq::empty(), bools, ints));
            let q = choose|q: int| 0 <= q < sel.len() && lit_true(#[trigger] sel[q], bools);
            assert(all_true(groups[q]@, bools, ints));
            lemma_add_lit_all(cg[q]@, groups[q]@, deselect(nb0, q), bools, ints);
            assert(all_true(cg[q]@, bools, ints));
        }
        assert(exists|j: int| 0 <= j < n && all_true(#[trigger] g0[j]@, bools, ints));
    }
    if some_group_true(g0, bools, ints) {
        let j0 = choose|j: int| 0 <= j < g0.len() && all_true(#[trigger] g0[j]@, bools, ints);
        assert(exists|j: int| 0 <= j < n && all_true(#[trigger] g0[j]@, bools, ints));
        let t0: int = if lits_true(sb, sl, bools, ints) {
            -1
        } else {
            choose|t: int| 0 <= t < cg.len() && all_true(#[trigger] cg[t]@, bools, ints)
        };
        let b2 = Seq::new(bools.len(), |i: int| if nb0 <= i < nb0 + m { i - nb0 == t0 } else { bools[i] });
        assert(same_below(b2, bools, nb0));
        lemma_concat_true(groups, b2, ints);
        assert forall|q: int| 0 <= q < groups.len() implies all_true(#[trigger] groups[q]@, b2, ints) by {
            if q < m {
                lemma_add_lit_all(cg[q]@, groups[q]@, deselect(nb0, q), b2, ints);
                if q == t0 {
                    assert(constraints_ok(cg[q]@, nb0, ni0));
                    lemma_all_true_frame(cg[q]@, nb0, ni0, b2, bools, ints);
                } else {
                    assert(deselect(nb0, q).var.0 == nb0 + q);
                    assert(b2[nb0 + q] == false);
                    assert(lit_true(deselect(nb0, q), b2));
                }
            } else {
                lemma_lits_concat(sb, sel, sl, Seq::empty(), b2, ints);
                lemma_lits_frame(sb, sl, nb0, b2, bools, ints);
                if t0 >= 0 {
                    assert(sel[t0].var.0 == nb0 + t0);
                    assert(lit_true(sel[t0], b2));
                }
                assert(clause_true(auxf, b2, ints));
                assert(groups[q]@[0] == auxf);
            }
        }
        assert(all_true(concat_groups(groups), b2, ints));
    }
}

/// Clauses whose conjunction states that some group holds, with fresh
/// variables selecting the groups of several clauses: where the clauses
/// hold, some group does; where some group holds, values of the fresh
/// variables make the clauses hold. No groups give no clauses.
#[verifier::loop_isolation(false)]
pub fn normalize_disjunction(norm: &mut NormCSP, map: &NormalizeMap, constrs: Vec<Vec<Constraint>>) -> (r: Option<Vec<Constraint>>)
    requires
        env_ok(*old(norm), *map),
        groups_ok(constrs@, old(norm).vars.num_bool_var as nat, old(norm).vars.ni()),
    ensures
        env_ok(*final(norm), *map),
        norm_grows(*old(norm), *final(norm)),
        r matches Some(cs) ==> constraints_ok(cs@, final(norm).vars.num_bool_var as nat, final(norm).vars.ni()),
        r is None ==> old(norm).vars.num_bool_var + constrs@.len() > usize::MAX,
        constrs@.len() > 0 ==> (r matches Some(cs) ==> forall|bools: Seq<bool>, ints: Seq<int>|
            bools.len() >= final(norm).vars.num_bool_var && #[trigger] all_true(cs@, bools, ints) ==> some_group_true(
                constrs@,
                bools,
                ints,
            )),
        r matches Some(cs) ==> forall|bools: Seq<bool>, ints: Seq<int>|
            bools.len() >= final(norm).vars.num_bool_var && #[trigger] some_group_true(constrs@, bools, ints) ==> exists|b2: Seq<bool>|
                b2.len() == bools.len() && same_below(b2, bools, old(norm).vars.num_bool_var as nat) && all_true(cs@, b2, ints),
{
    let ghost nb0 = norm.vars.num_bool_var as nat;
    let ghost ni0 = norm.vars.ni();
    let ghost g0 = constrs@;
    let n = constrs.len();
    if n == 0 {
        proof {
            assert forall|bools: Seq<bool>, ints: Seq<int>|
                bools.len() >= norm.vars.num_bool_var && #[trigger] some_group_true(constrs@, bools, ints) implies exists|b2: Seq<bool>|
                    b2.len() == bools.len() && same_below(b2, bools, nb0) && all_true(Seq::<Constraint>::empty(), b2, ints) by {
            }
        }
        let r: Vec<Constraint> = Vec::new();
        assert(r@ =~= Seq::<Constraint>::empty());
        return Some(r);
    }
    let mut constrs = constrs;
    if n == 1 {
        let g = constrs.remove(0);
        proof {
            assert(g@ == g0[0]@);
            assert forall|bools: Seq<bool>, ints: Seq<int>|
                bools.len() >= norm.vars.num_bool_var && #[trigger] all_true(g@, bools, ints) implies some_group_true(g0, bools, ints) by {
                assert(all_true(g0[0]@, bools, ints));
            }
            assert forall|bools: Seq<bool>, ints: Seq<int>|
                bools.len() >= norm.vars.num_bool_var && #[trigger] some_group_true(g0, bools, ints) implies exists|b2: Seq<bool>|
                    b2.len() == bools.len() && same_below(b2, bools, nb0) && all_true(g@, b2, ints) by {
                let j = choose|j: int| 0 <= j < g0.len() && all_true(#[trigger] g0[j]@, bools, ints);
                assert(j == 0);
                assert(same_below(bools, bools, nb0));
            }
        }
        return Some(g);
    }
    let mut i: usize = 0;
    while i < n
        invariant
            n == constrs@.len(),
            constrs@ == g0,
            i <= n,
            env_ok(*norm, *map),
            *norm == *old(norm),
            forall|j: int| 0 <= j < i ==> (#[trigger] g0[j])@.len() > 0,
        decreases n - i,
    {
        if constrs[i].len() == 0 {
            proof {
                assert forall|bools: Seq<bool>, ints: Seq<int>|
                    bools.len() >= norm.vars.num_bool_var && #[trigger] all_true(Seq::<Constraint>::empty(), bools, ints) implies some_group_true(
                    g0,
                    bools,
                    ints,
                ) by {
                    assert(all_true(g0[i as int]@, bools, ints));
                }
                assert forall|bools: Seq<bool>, ints: Seq<int>|
                    bools.len() >= norm.vars.num_bool_var && #[trigger] some_group_true(g0, bools, ints) implies exists|b2: Seq<bool>|
                        b2.len() == bools.len() && same_below(b2, bools, nb0) && all_true(Seq::<Constraint>::empty(), b2, ints) by {
                    assert(same_below(bools, bools, nb0));
                }
            }
            let r: Vec<Constraint> = Vec::new();
            assert(r@ =~= Seq::<Constraint>::empty());
            return Some(r);
        }
        i += 1;
    }
    let mut aux = Constraint::new();
    let mut complex: Vec<Vec<Constraint>> = Vec::new();
    let mut rest = constrs;
    let mut k: usize = 0;
    proof {
        assert(aux.bool_lit@ =~= singles_bool(g0, 0));
        assert(aux.linear_lit@ =~= singles_linear(g0, 0));
        assert(complex@ =~= complex_of(g0, 0));
    }
    while k < n
        invariant
            n == g0.len(),
            k <= n,
            rest@ == g0.subrange(k as int, n as int),
            groups_ok(g0, nb0, ni0),
            constraint_ok(aux, nb0, ni0),
            groups_ok(complex@, nb0, ni0),
            complex@.len() <= k,
            *norm == *old(norm),
            aux.bool_lit@ == singles_bool(g0, k as int),
            aux.linear_lit@ == singles_linear(g0, k as int),
            complex@ == complex_of(g0, k as int),
            forall|j: int| 0 <= j < n ==> (#[trigger] g0[j])@.len() > 0,
        decreases n - k,
    {
        let mut g = rest.remove(0);
        assert(g == g0[k as int]);
        assert(constraints_ok(g@, nb0, ni0));
        if g.len() == 1 {
            let c = g.remove(0);
            assert(constraint_ok(c, nb0, ni0));
            append_constraint(&mut aux, c, Ghost(nb0), Ghost(ni0));
            proof {
                assert(complex@ =~= complex_of(g0, k + 1));
            }
        } else {
            let ghost prev = complex@;
            complex.push(g);
            proof {
                assert forall|t: int| 0 <= t < complex@.len() implies constraints_ok((#[trigger] complex@[t])@, nb0, ni0) by {
                    if t < prev.len() {
                        assert(complex@[t] == prev[t]);
                    }
                }
                assert(complex@ =~= complex_of(g0, k + 1));
                assert(aux.bool_lit@ =~= singles_bool(g0, k + 1));
                assert(aux.linear_lit@ =~= singles_linear(g0, k + 1));
            }
        }
        k += 1;
    }
    let ghost cg = complex@;
    let ghost sb = aux.bool_lit@;
    let ghost sl = aux.linear_lit@;
    let mut ret: Vec<Constraint> = Vec::new();
    if complex.len() == 2 && aux.bool_lit.len() == 0 && aux.linear_lit.len() == 0 {
        let v = fresh_bool_var(norm, map)?;
        let ghost nb1 = norm.vars.num_bool_var as nat;
        proof {
            lemma_groups_mono(complex@, nb0, ni0, nb1, norm.vars.ni());
        }
        let second = complex.remove(1);
        let first = complex.remove(0);
        let lf = NBoolLit::new(v, true);
        let ls = NBoolLit::new(v, false);
        let a = add_lit_to_all(first, lf, Ghost(nb1), Ghost(norm.vars.ni()));
        let b = add_lit_to_all(second, ls, Ghost(nb1), Ghost(norm.vars.ni()));
        let mut pair: Vec<Vec<Constraint>> = Vec::new();
        pair.push(a);
        pair.push(b);
        let r = normalize_conjunction(pair, Ghost(nb1), Ghost(norm.vars.ni()));
        proof {
            assert(pair@[0] == a && pair@[1] == b);
            assert forall|bools: Seq<bool>, ints: Seq<int>|
                bools.len() >= norm.vars.num_bool_var && #[trigger] all_true(r@, bools, ints) implies some_group_true(g0, bools, ints) by {
                lemma_concat_true(pair@, bools, ints);
                assert(all_true(pair@[0]@, bools, ints) && all_true(pair@[1]@, bools, ints));
                lemma_add_lit_all(cg[0]@, a@, lf, bools, ints);
                lemma_add_lit_all(cg[1]@, b@, ls, bools, ints);
                lemma_split_groups(g0, n as int, bools, ints);
                assert(!lits_true(sb, sl, bools, ints));
                if all_true(cg[0]@, bools, ints) {
                    assert(exists|t: int| 0 <= t < cg.len() && all_true(#[trigger] cg[t]@, bools, ints));
                } else {
                    assert(all_true(cg[1]@, bools, ints));
                    assert(exists|t: int| 0 <= t < cg.len() && all_true(#[trigger] cg[t]@, bools, ints));
                }
            }
            assert forall|bools: Seq<bool>, ints: Seq<int>|
                bools.len() >= norm.vars.num_bool_var && #[trigger] some_group_true(g0, bools, ints) implies exists|b2: Seq<bool>|
                    b2.len() == bools.len() && same_below(b2, bools, nb0) && all_true(r@, b2, ints) by {
                lemma_split_groups(g0, n as int, bools, ints);
                let j = choose|j: int| 0 <= j < g0.len() && all_true(#[trigger] g0[j]@, bools, ints);
                assert(exists|j: int| 0 <= j < n && all_true(#[trigger] g0[j]@, bools, ints));
                assert(!lits_true(sb, sl, bools, ints));
                let t = choose|t: int| 0 <= t < cg.len() && all_true(#[trigger] cg[t]@, bools, ints);
                let b2 = bools.update(v.0 as int, t == 0);
                assert(same_below(b2, bools, nb0));
                lemma_all_true_frame(cg[t]@, nb0, ni0, b2, bools, ints);
                lemma_add_lit_all(cg[0]@, a@, lf, b2, ints);
                lemma_add_lit_all(cg[1]@, b@, ls, b2, ints);
                lemma_concat_true(pair@, b2, ints);
                assert forall|q: int| 0 <= q < pair@.len() implies all_true(#[trigger] pair@[q]@, b2, ints) by {
                    if q == 0 {
                        assert(pair@[q] == a);
                    } else {
                        assert(pair@[q] == b);
                    }
                }
                assert(all_true(r@, b2, ints));
            }
        }
        return Some(r);
    }
    if complex.len() == 1 && aux.bool_lit.len() <= 1 && aux.linear_lit.len() == 0 {
        let g = complex.remove(0);
        proof {
            assert forall|bools: Seq<bool>, ints: Seq<int>| #![trigger some_group_true(g0, bools, ints)]
                bools.len() >= nb0 implies (some_group_true(g0, bools, ints) == (lits_true(sb, sl, bools, ints) || all_true(g@, bools, ints))) by {
                lemma_split_groups(g0, n as int, bools, ints);
                if exists|t: int| 0 <= t < cg.len() && all_true(#[trigger] cg[t]@, bools, ints) {
                    let t = choose|t: int| 0 <= t < cg.len() && all_true(#[trigger] cg[t]@, bools, ints);
                    assert(t == 0);
                }
                if all_true(g@, bools, ints) {
                    assert(all_true(cg[0]@, bools, ints));
                }
                if some_group_true(g0, bools, ints) {
                    let j = choose|j: int| 0 <= j < g0.len() && all_true(#[trigger] g0[j]@, bools, ints);
                    assert(exists|j: int| 0 <= j < n && all_true(#[trigger] g0[j]@, bools, ints));
                }
            }
        }
        if aux.bool_lit.len() == 1 {
            let lit = aux.bool_lit[0];
            let r = add_lit_to_all(g, lit, Ghost(nb0), Ghost(ni0));
            proof {
                assert forall|bools: Seq<bool>, ints: Seq<int>| bools.len() >= nb0 implies lits_true(sb, sl, bools, ints) == lit_true(lit, bools) by {
                    if lit_true(lit, bools) {
                        assert(sb[0] == lit);
                    }
                }
                assert forall|bools: Seq<bool>, ints: Seq<int>|
                    bools.len() >= norm.vars.num_bool_var && #[trigger] all_true(r@, bools, ints) implies some_group_true(g0, bools, ints) by {
                    lemma_add_lit_all(g@, r@, lit, bools, ints);
                }
                assert forall|bools: Seq<bool>, ints: Seq<int>|
                    bools.len() >= norm.vars.num_bool_var && #[trigger] some_group_true(g0, bools, ints) implies exists|b2: Seq<bool>|
                        b2.len() == bools.len() && same_below(b2, bools, nb0) && all_true(r@, b2, ints) by {
                    lemma_add_lit_all(g@, r@, lit, bools, ints);
                    assert(same_below(bools, bools, nb0));
                }
            }
            return Some(r);
        }
        proof {
            assert forall|bools: Seq<bool>, ints: Seq<int>| bools.len() >= nb0 implies !lits_true(sb, sl, bools, ints) by {}
            assert forall|bools: Seq<bool>, ints: Seq<int>|
                bools.len() >= norm.vars.num_bool_var && #[trigger] some_group_true(g0, bools, ints) implies exists|b2: Seq<bool>|
                    b2.len() == bools.len() && same_below(b2, bools, nb0) && all_true(g@, b2, ints) by {
                assert(same_below(bools, bools, nb0));
            }
        }
        return Some(g);
    }
    let m = complex.len();
    let mut crest = complex;
    let mut groups: Vec<Vec<Constraint>> = Vec::new();
    let mut t: usize = 0;
    proof {
        assert(aux.bool_lit@ =~= sb + selectors(nb0, 0));
    }
    while t < m
        invariant
            env_ok(*norm, *map),
            norm_grows(*old(norm), *norm),
            m == cg.len(),
            t <= m,
            crest@ == cg.subrange(t as int, m as int),
            groups_ok(cg, nb0, ni0),
            constraint_ok(aux, norm.vars.num_bool_var as nat, norm.vars.ni()),
            groups_ok(groups@, norm.vars.num_bool_var as nat, norm.vars.ni()),
            nb0 <= norm.vars.num_bool_var,
            ni0 <= norm.vars.ni(),
            norm.vars.num_bool_var == old(norm).vars.num_bool_var + t,
            m <= n,
            n == g0.len(),
            groups@.len() == t,
            forall|q: int| 0 <= q < t ==> with_lit(cg[q]@, (#[trigger] groups@[q])@, deselect(nb0, q)),
            aux.bool_lit@ == sb + selectors(nb0, t as nat),
            aux.linear_lit@ == sl,
        decreases m - t,
    {
        let g = crest.remove(0);
        assert(g == cg[t as int]);
        let v = fresh_bool_var(norm, map)?;
        let ghost nb1 = norm.vars.num_bool_var as nat;
        let ghost ni1 = norm.vars.ni();
        proof {
            super::lemma_constraints_mono(g@, nb0, ni0, nb1, ni1);
            lemma_groups_mono(groups@, (nb1 - 1) as nat, ni1, nb1, ni1);
            super::lemma_constraints_mono(seq![aux], (nb1 - 1) as nat, ni1, nb1, ni1);
            assert(constraint_ok(seq![aux][0], nb1, ni1));
        }
        let ghost ab = aux.bool_lit@;
        aux.add_bool(NBoolLit::new(v, false));
        proof {
            assert forall|q: int| 0 <= q < aux.bool_lit@.len() implies (#[trigger] aux.bool_lit@[q]).var.0 < nb1 by {
                if q < ab.len() {
                    assert(aux.bool_lit@[q] == ab[q]);
                }
            }
            assert(aux.bool_lit@ =~= sb + selectors(nb0, (t + 1) as nat));
        }
        let sel_off = NBoolLit::new(v, true);
        let ng = add_lit_to_all(g, sel_off, Ghost(nb1), Ghost(ni1));
        let ghost prev = groups@;
        groups.push(ng);
        proof {
            assert forall|q: int| 0 <= q < groups@.len() implies constraints_ok((#[trigger] groups@[q])@, nb1, ni1) by {
                if q < prev.len() {
                    assert(groups@[q] == prev[q]);
                }
            }
            assert forall|q: int| 0 <= q < t + 1 implies with_lit(cg[q]@, (#[trigger] groups@[q])@, deselect(nb0, q)) by {
                if q < t {
                    assert(groups@[q] == prev[q]);
                } else {
                    assert(groups@[q] == ng);
                    assert(sel_off == deselect(nb0, q));
                }
            }
        }
        t += 1;
    }
    let ghost nbf = norm.vars.num_bool_var as nat;
    let ghost nif = norm.vars.ni();
    let ghost auxf = aux;
    let mut last: Vec<Constraint> = Vec::new();
    last.push(aux);
    let ghost prev = groups@;
    groups.push(last);
    proof {
        assert forall|q: int| 0 <= q < groups@.len() implies constraints_ok((#[trigger] groups@[q])@, nbf, nif) by {
            if q < prev.len() {
                assert(groups@[q] == prev[q]);
            } else {
                assert(groups@[q]@ == seq![auxf]);
            }
        }
        assert(forall|q: int| 0 <= q < m ==> groups@[q] == prev[q]);
        assert(groups@[groups@.len() - 1]@ == seq![auxf]);
    }
    let r = normalize_conjunction(groups, Ghost(nbf), Ghost(nif));
    proof {
        assert(forall|kk: int| 0 <= kk < sb.len() ==> (#[trigger] sb[kk]).var.0 < nb0);
        assert forall|bools: Seq<bool>, ints: Seq<int>|
            bools.len() >= nbf implies (#[trigger] all_true(r@, bools, ints) ==> some_group_true(g0, bools, ints))
                && (some_group_true(g0, bools, ints) ==> exists|b2: Seq<bool>|
                b2.len() == bools.len() && same_below(b2, bools, nb0) && all_true(r@, b2, ints)) by {
            assert forall|q: int| 0 <= q < cg.len() implies with_lit(cg[q]@, (#[trigger] groups@[q])@, deselect(nb0, q)) by {
                assert(groups@[q] == prev[q]);
            }
            lemma_disjunction_selected(g0, groups@, auxf, nb0, ni0, bools, ints);
        }
    }
    Some(r)
}

/// Two groups of clauses.
fn two_groups(a: Vec<Constraint>, b: Vec<Constraint>) -> (r: Vec<Vec<Constraint>>)
    ensures
        r@ == seq![a, b],
{
    let mut r: Vec<Vec<Constraint>> = Vec::new();
    r.push(a);
    r.push(b);
    assert(r@ =~= seq![a, b]);
    r
}

proof fn lemma_two_groups_ok(a: Vec<Constraint>, b: Vec<Constraint>, nb: nat, ni: nat, nb2: nat, ni2: nat)
    requires
        constraints_ok(a@, nb, ni),
        constraints_ok(b@, nb2, ni2),
        nb <= nb2,
        ni <= ni2,
    ensures
        groups_ok(seq![a, b], nb2, ni2),
{
    super::lemma_constraints_mono(a@, nb, ni, nb2, ni2);
    let gs = seq![a, b];
    assert forall|i: int| 0 <= i < gs.len() implies constraints_ok((#[trigger] gs[i])@, nb2, ni2) by {
        if i == 0 {
            assert(gs[i] == a);
        } else {
            assert(gs[i] == b);
        }
    }
}

/// Clauses whose conjunction is equivalent to `e` (to its negation where
/// `neg`), over existing and fresh variables. `None` where a variable was
/// removed, an arithmetic result leaves `i32` or no variable is left.
pub fn normalize_bool_expr(
    csp_vars: &CSPVars,
    norm: &mut NormCSP,
    map: &mut NormalizeMap,
    e: &AuxBoolExpr,
    neg: bool,
) -> (r: Option<Vec<Constraint>>)
    requires
        env_ok(*old(norm), *old(map)),
        csp_vars.wf(),
    ensures
        env_ok(*final(norm), *final(map)),
        map_keeps(*old(map), *final(map)),
        norm_grows(*old(norm), *final(norm)),
        r matches Some(cs) ==> constraints_ok(cs@, final(norm).vars.num_bool_var as nat, final(norm).vars.ni()),
    decreases *e, 1int,
{
    let ghost e0 = *e;
    match e {
        AuxBoolExpr::Const(b) => {
            let mut r: Vec<Constraint> = Vec::new();
            if *b == neg {
                r.push(Constraint::new());
            }
            Some(r)
        },
        AuxBoolExpr::Var(v) => {
            let nv = map.convert_bool_var(csp_vars, norm, *v)?;
            let lit = if neg { nv.negate() } else { nv };
            let mut r: Vec<Constraint> = Vec::new();
            r.push(bool_constraint(lit));
            Some(r)
        },
        AuxBoolExpr::NVar(v) => {
            if v.0 >= norm.vars.num_bool_var {
                return None;
            }
            let mut r: Vec<Constraint> = Vec::new();
            r.push(bool_constraint(NBoolLit::new(*v, neg)));
            Some(r)
        },
        AuxBoolExpr::And(es) => {
            let gs = normalize_children(csp_vars, norm, map, es, neg, Ghost(e0))?;
            if !neg {
                Some(normalize_conjunction(gs, Ghost(norm.vars.num_bool_var as nat), Ghost(norm.vars.ni())))
            } else {
                normalize_disjunction(norm, map, gs)
            }
        },
        AuxBoolExpr::Or(es) => {
            let gs = normalize_children(csp_vars, norm, map, es, neg, Ghost(e0))?;
            if neg {
                Some(normalize_conjunction(gs, Ghost(norm.vars.num_bool_var as nat), Ghost(norm.vars.ni())))
            } else {
                normalize_disjunction(norm, map, gs)
            }
        },
        AuxBoolExpr::Not(x) => {
            proof {
                assert(decreases_to!(e0 => e0->Not_0));
            }
            normalize_bool_expr(csp_vars, norm, map, x, !neg)
        },
        AuxBoolExpr::Xor(x, y) => {
            proof {
                assert(decreases_to!(e0 => e0->Xor_0));
                assert(decreases_to!(e0 => e0->Xor_1));
            }
            normalize_parity(csp_vars, norm, map, x, y, neg, Ghost(e0))
        },
        AuxBoolExpr::Iff(x, y) => {
            proof {
                assert(decreases_to!(e0 => e0->Iff_0));
                assert(decreases_to!(e0 => e0->Iff_1));
            }
            normalize_parity(csp_vars, norm, map, x, y, !neg, Ghost(e0))
        },
        AuxBoolExpr::Imp(x, y) => {
            proof {
                assert(decreases_to!(e0 => e0->Imp_0));
                assert(decreases_to!(e0 => e0->Imp_1));
            }
            let ghost nb0 = norm.vars.num_bool_var as nat;
            let ghost ni0 = norm.vars.ni();
            let a = normalize_bool_expr(csp_vars, norm, map, x, !neg)?;
            let ghost nb1 = norm.vars.num_bool_var as nat;
            let ghost ni1 = norm.vars.ni();
            let b = normalize_bool_expr(csp_vars, norm, map, y, neg)?;
            proof {
                lemma_two_groups_ok(a, b, nb1, ni1, norm.vars.num_bool_var as nat, norm.vars.ni());
            }
            let gs = two_groups(a, b);
            if !neg {
                normalize_disjunction(norm, map, gs)
            } else {
                Some(normalize_conjunction(gs, Ghost(norm.vars.num_bool_var as nat), Ghost(norm.vars.ni())))
            }
        },
        AuxBoolExpr::Cmp(op, x, y) => {
            proof {
                assert(decreases_to!(e0 => e0->Cmp_1));
                assert(decreases_to!(e0 => e0->Cmp_2));
            }
            let op2 = if neg { op.negate() } else { *op };
            let v1 = normalize_int_expr(csp_vars, norm, map, x)?;
            let v2 = normalize_int_expr(csp_vars, norm, map, y)?;
            let c = diff_lit(norm, &v1, &v2, op2)?;
            let mut r: Vec<Constraint> = Vec::new();
            r.push(c);
            Some(r)
        },
    }
}

/// `x == y` (where `same`) or `x != y` as clauses: the conjunction of two
/// disjunctions.
fn normalize_parity(
    csp_vars: &CSPVars,
    norm: &mut NormCSP,
    map: &mut NormalizeMap,
    x: &AuxBoolExpr,
    y: &AuxBoolExpr,
    same: bool,
    Ghost(e0): Ghost<AuxBoolExpr>,
) -> (r: Option<Vec<Constraint>>)
    requires
        env_ok(*old(norm), *old(map)),
        csp_vars.wf(),
        decreases_to!(e0 => *x),
        decreases_to!(e0 => *y),
    ensures
        env_ok(*final(norm), *final(map)),
        map_keeps(*old(map), *final(map)),
        norm_grows(*old(norm), *final(norm)),
        r matches Some(cs) ==> constraints_ok(cs@, final(norm).vars.num_bool_var as nat, final(norm).vars.ni()),
    decreases e0, 0int,
{
    let a1 = normalize_bool_expr(csp_vars, norm, map, x, false)?;
    let ghost nb1 = norm.vars.num_bool_var as nat;
    let ghost ni1 = norm.vars.ni();
    let b1 = normalize_bool_expr(csp_vars, norm, map, y, same)?;
    let ghost nb2 = norm.vars.num_bool_var as nat;
    let ghost ni2 = norm.vars.ni();
    let a2 = normalize_bool_expr(csp_vars, norm, map, x, true)?;
    let ghost nb3 = norm.vars.num_bool_var as nat;
    let ghost ni3 = norm.vars.ni();
    let b2 = normalize_bool_expr(csp_vars, norm, map, y, !same)?;
    let ghost nbb = norm.vars.num_bool_var as nat;
    let ghost nib = norm.vars.ni();
    proof {
        super::lemma_constraints_mono(a1@, nb1, ni1, nbb, nib);
        super::lemma_constraints_mono(b1@, nb2, ni2, nbb, nib);
        super::lemma_constraints_mono(a2@, nb3, ni3, nbb, nib);
        lemma_two_groups_ok(a1, b1, nbb, nib, nbb, nib);
    }
    let d1 = normalize_disjunction(norm, map, two_groups(a1, b1))?;
    let ghost nb4 = norm.vars.num_bool_var as nat;
    let ghost ni4 = norm.vars.ni();
    proof {
        super::lemma_constraints_mono(a2@, nbb, nib, nb4, ni4);
        super::lemma_constraints_mono(b2@, nbb, nib, nb4, ni4);
        lemma_two_groups_ok(a2, b2, nb4, ni4, nb4, ni4);
    }
    let d2 = normalize_disjunction(norm, map, two_groups(a2, b2))?;
    proof {
        lemma_two_groups_ok(d1, d2, nb4, ni4, norm.vars.num_bool_var as nat, norm.vars.ni());
    }
    Some(normalize_conjunction(two_groups(d1, d2), Ghost(norm.vars.num_bool_var as nat), Ghost(norm.vars.ni())))
}

fn normalize_children(
    csp_vars: &CSPVars,
    norm: &mut NormCSP,
    map: &mut NormalizeMap,
    es: &Vec<Box<AuxBoolExpr>>,
    neg: bool,
    Ghost(e0): Ghost<AuxBoolExpr>,
) -> (r: Option<Vec<Vec<Constraint>>>)
    requires
        env_ok(*old(norm), *old(map)),
        csp_vars.wf(),
        e0 == AuxBoolExpr::And(*es) || e0 == AuxBoolExpr::Or(*es),
    ensures
        env_ok(*final(norm), *final(map)),
        map_keeps(*old(map), *final(map)),
        norm_grows(*old(norm), *final(norm)),
        r matches Some(gs) ==> groups_ok(gs@, final(norm).vars.num_bool_var as nat, final(norm).vars.ni()),
    decreases e0, 0int,
{
    let n = es.len();
    let mut gs: Vec<Vec<Constraint>> = Vec::new();
    let mut i: usize = 0;
    while i < n
        invariant
            env_ok(*norm, *map),
            map_keeps(*old(map), *map),
            norm_grows(*old(norm), *norm),
            csp_vars.wf(),
            e0 == AuxBoolExpr::And(*es) || e0 == AuxBoolExpr::Or(*es),
            n == es@.len(),
            i <= n,
            groups_ok(gs@, norm.vars.num_bool_var as nat, norm.vars.ni()),
        decreases n - i,
    {
        proof {
            if e0 is And {
                assert(decreases_to!(e0 => e0->And_0));
                assert(decreases_to!(e0->And_0 => e0->And_0@));
                assert(decreases_to!(e0->And_0@ => e0->And_0@[i as int]));
            } else {
                assert(decreases_to!(e0 => e0->Or_0));
                assert(decreases_to!(e0->Or_0 => e0->Or_0@));
                assert(decreases_to!(e0->Or_0@ => e0->Or_0@[i as int]));
            }
            assert(decreases_to!(e0 => *es@[i as int]));
        }
        let ghost nb0 = norm.vars.num_bool_var as nat;
        let ghost ni0 = norm.vars.ni();
        let g = normalize_bool_expr(csp_vars, norm, map, &*es[i], neg)?;
        proof {
            lemma_groups_mono(gs@, nb0, ni0, norm.vars.num_bool_var as nat, norm.vars.ni());
        }
        let ghost prev = gs@;
        gs.push(g);
        proof {
            assert forall|q: int| 0 <= q < gs@.len() implies constraints_ok((#[trigger] gs@[q])@, norm.vars.num_bool_var as nat, norm.vars.ni()) by {
                if q < prev.len() {
                    assert(gs@[q] == prev[q]);
                }
            }
        }
        i += 1;
    }
    Some(gs)
}

/// The interval of values of a sum.
fn sum_domain(norm: &NormCSP, s: &LinearSum) -> (r: Option<Domain>)
    requires
        norm.vars.wf(),
        sum_ok(*s, norm.vars.ni()),
    ensures
        r matches Some(d) ==> d.wf() && !d.spec_is_empty(),
{
    norm.get_domain_linear_sum(s)
}

/// The constraint `x - v == 0` for a fresh variable `v` with the values of
/// `x`; `v` is returned.
fn define_var(norm: &mut NormCSP, map: &NormalizeMap, x: &LinearSum) -> (r: Option<NIntVar>)
    requires
        env_ok(*old(norm), *map),
        sum_ok(*x, old(norm).vars.ni()),
    ensures
        env_ok(*final(norm), *map),
        norm_grows(*old(norm), *final(norm)),
        r matches Some(v) ==> v.0 < final(norm).vars.ni(),
{
    let dom = sum_domain(norm, x)?;
    let v = fresh_int_var(norm, map, dom);
    let c = diff_lit(norm, x, &LinearSum::singleton(v), CmpOp::Eq)?;
    add_constraint_ok(norm, map, c);
    Some(v)
}

/// The smallest and largest value of variable `v`.
fn var_bounds(norm: &NormCSP, v: NIntVar) -> (r: (i32, i32))
    requires
        norm.vars.wf(),
        v.0 < norm.vars.ni(),
    ensures
        r.0 <= r.1,
        norm.vars.int_var@[v.0 as int].contains(r.0 as int),
        norm.vars.int_var@[v.0 as int].contains(r.1 as int),
        forall|x: int| norm.vars.int_var@[v.0 as int].contains(x) ==> r.0 <= x <= r.1,
{
    let repr = norm.vars.int_var(v);
    assert(norm.vars.int_var@[v.0 as int].wf());
    let lo = repr.lower_bound();
    let hi = repr.upper_bound();
    (lo, hi)
}

/// A sum equal to `e` over existing and fresh variables, whose defining
/// clauses are added to `norm`.
pub fn normalize_int_expr(
    csp_vars: &CSPVars,
    norm: &mut NormCSP,
    map: &mut NormalizeMap,
    e: &AuxIntExpr,
) -> (r: Option<LinearSum>)
    requires
        env_ok(*old(norm), *old(map)),
        csp_vars.wf(),
    ensures
        env_ok(*final(norm), *final(map)),
        map_keeps(*old(map), *final(map)),
        norm_grows(*old(norm), *final(norm)),
        r matches Some(s) ==> sum_ok(s, final(norm).vars.ni()),
    decreases *e, 1int,
{
    let ghost e0 = *e;
    match e {
        AuxIntExpr::Const(c) => Some(LinearSum::constant(*c)),
        AuxIntExpr::Var(v) => {
            let nv = map.convert_int_var(csp_vars, norm, *v)?;
            Some(LinearSum::singleton(nv))
        },
        AuxIntExpr::NVar(v) => {
            if v.0 >= norm.vars.int_var.len() {
                return None;
            }
            Some(LinearSum::singleton(*v))
        },
        AuxIntExpr::Linear(ts) => {
            let n = ts.len();
            let mut ret = LinearSum::new();
            let mut i: usize = 0;
            while i < n
                invariant
                    env_ok(*norm, *map),
                    map_keeps(*old(map), *map),
                    norm_grows(*old(norm), *norm),
                    csp_vars.wf(),
                    e0 == AuxIntExpr::Linear(*ts),
                    e0 == *e,
                    n == ts@.len(),
                    i <= n,
                    sum_ok(ret, norm.vars.ni()),
                decreases n - i,
            {
                proof {
                    assert(decreases_to!(e0 => e0->Linear_0));
                    assert(decreases_to!(e0->Linear_0 => e0->Linear_0@));
                    assert(decreases_to!(e0->Linear_0@ => e0->Linear_0@[i as int]));
                    assert(decreases_to!(e0->Linear_0@[i as int] => e0->Linear_0@[i as int].0));
                    assert(decreases_to!(*e => *ts@[i as int].0));
                }
                let coef = ts[i].1;
                let s = normalize_int_expr(csp_vars, norm, map, &*ts[i].0)?;
                let scaled = s.checked_scale(coef)?;
                let next = ret.checked_add(&scaled)?;
                proof {
                    lemma_sum_ok_combined(s, s, scaled, norm.vars.ni());
                    lemma_sum_ok_combined(ret, scaled, next, norm.vars.ni());
                }
                ret = next;
                i += 1;
            }
            Some(ret)
        },
        AuxIntExpr::If(c, t, f) => {
            proof {
                assert(decreases_to!(e0 => e0->If_0));
                assert(decreases_to!(e0 => e0->If_1));
                assert(decreases_to!(e0 => e0->If_2));
            }
            let ts = normalize_int_expr(csp_vars, norm, map, t)?;
            let fs = normalize_int_expr(csp_vars, norm, map, f)?;
            if ts.is_constant() && fs.is_constant() {
                let val_true = ts.constant;
                let val_false = fs.constant;
                let cond: NBoolLit = match &**c {
                    AuxBoolExpr::Var(cv) => map.convert_bool_var(csp_vars, norm, *cv)?,
                    AuxBoolExpr::NVar(cv) => {
                        if cv.0 >= norm.vars.num_bool_var {
                            return None;
                        }
                        NBoolLit::new(*cv, false)
                    },
                    _ => {
                        let b = fresh_bool_var(norm, map)?;
                        let lit = NBoolLit::new(b, false);
                        let cs = equiv_constraints(csp_vars, norm, map, lit, c, Ghost(e0))?;
                        add_constraints_ok(norm, map, cs);
                        lit
                    },
                };
                let ghost n0 = *norm;
                let v = norm.new_binary_int_var(cond, val_true, val_false);
                proof {
                    map.lemma_ok_mono(n0.vars.num_bool_var as nat, n0.vars.ni(), norm.vars.num_bool_var as nat, norm.vars.ni());
                }
                return Some(LinearSum::singleton(v));
            }
            let ghost ni1 = norm.vars.ni();
            let d1 = sum_domain(norm, &ts)?;
            let d2 = sum_domain(norm, &fs)?;
            let lo = if d1.lower_bound_checked() < d2.lower_bound_checked() { d1.lower_bound_checked() } else { d2.lower_bound_checked() };
            let hi = if d1.upper_bound_checked() > d2.upper_bound_checked() { d1.upper_bound_checked() } else { d2.upper_bound_checked() };
            let dom = Domain::range(lo, hi);
            assert(dom.contains(lo as int));
            let v = fresh_int_var(norm, map, dom);
            let vs = LinearSum::singleton(v);
            let eq1 = diff_lit(norm, &ts, &vs, CmpOp::Eq)?;
            let eq2 = diff_lit(norm, &fs, &vs, CmpOp::Eq)?;
            let ghost nb2 = norm.vars.num_bool_var as nat;
            let ghost ni2 = norm.vars.ni();
            let mut c1 = normalize_bool_expr(csp_vars, norm, map, c, false)?;
            let ghost nb3 = norm.vars.num_bool_var as nat;
            let ghost ni3 = norm.vars.ni();
            let mut c2 = normalize_bool_expr(csp_vars, norm, map, c, true)?;
            proof {
                super::lemma_constraints_mono(seq![eq1], nb2, ni2, norm.vars.num_bool_var as nat, norm.vars.ni());
                super::lemma_constraints_mono(seq![eq2], nb2, ni2, norm.vars.num_bool_var as nat, norm.vars.ni());
                assert(constraint_ok(seq![eq1][0], norm.vars.num_bool_var as nat, norm.vars.ni()));
                assert(constraint_ok(seq![eq2][0], norm.vars.num_bool_var as nat, norm.vars.ni()));
                super::lemma_constraints_mono(c1@, nb3, ni3, norm.vars.num_bool_var as nat, norm.vars.ni());
            }
            let ghost c1v = c1@;
            c1.push(eq1);
            let ghost c2v = c2@;
            c2.push(eq2);
            proof {
                let nbf = norm.vars.num_bool_var as nat;
                let nif = norm.vars.ni();
                assert forall|q: int| 0 <= q < c1@.len() implies constraint_ok(#[trigger] c1@[q], nbf, nif) by {
                    if q < c1v.len() {
                        assert(c1@[q] == c1v[q]);
                    }
                }
                assert forall|q: int| 0 <= q < c2@.len() implies constraint_ok(#[trigger] c2@[q], nbf, nif) by {
                    if q < c2v.len() {
                        assert(c2@[q] == c2v[q]);
                    }
                }
                lemma_two_groups_ok(c1, c2, nbf, nif, nbf, nif);
            }
            let cs = normalize_disjunction(norm, map, two_groups(c1, c2))?;
            add_constraints_ok(norm, map, cs);
            Some(LinearSum::singleton(v))
        },
        AuxIntExpr::Abs(x) => {
            proof {
                assert(decreases_to!(e0 => e0->Abs_0));
            }
            let xv = equivalent_int_var(csp_vars, norm, map, x)?;
            let (xl, xh) = var_bounds(norm, xv);
            let lo: i32 = if xl >= 0 {
                xl
            } else if xh <= 0 {
                if xh == i32::MIN { return None; } -xh
            } else {
                0
            };
            if xl == i32::MIN {
                return None;
            }
            let hi: i32 = if -xl > xh { -xl } else { xh };
            assert(lo <= hi);
            let dom = Domain::range(lo, hi);
            assert(dom.contains(lo as int));
            let v = fresh_int_var(norm, map, dom);
            let xs = LinearSum::singleton(xv);
            let vs = LinearSum::singleton(v);
            let zero = LinearSum::constant(0);
            let neg_x = xs.checked_scale(-1)?;
            let ge0 = diff_lit(norm, &xs, &zero, CmpOp::Ge)?;
            let lt0 = diff_lit(norm, &xs, &zero, CmpOp::Lt)?;
            let eq1 = diff_lit(norm, &xs, &vs, CmpOp::Eq)?;
            proof {
                lemma_sum_ok_combined(xs, xs, neg_x, norm.vars.ni());
            }
            let eq2 = diff_lit(norm, &neg_x, &vs, CmpOp::Eq)?;
            let mut c1: Vec<Constraint> = Vec::new();
            c1.push(ge0);
            c1.push(eq1);
            let mut c2: Vec<Constraint> = Vec::new();
            c2.push(lt0);
            c2.push(eq2);
            proof {
                let nbf = norm.vars.num_bool_var as nat;
                let nif = norm.vars.ni();
                assert(c1@ =~= seq![ge0, eq1]);
                assert(c2@ =~= seq![lt0, eq2]);
                assert forall|q: int| 0 <= q < c1@.len() implies constraint_ok(#[trigger] c1@[q], nbf, nif) by {}
                assert forall|q: int| 0 <= q < c2@.len() implies constraint_ok(#[trigger] c2@[q], nbf, nif) by {}
                lemma_two_groups_ok(c1, c2, nbf, nif, nbf, nif);
            }
            let cs = normalize_disjunction(norm, map, two_groups(c1, c2))?;
            add_constraints_ok(norm, map, cs);
            Some(LinearSum::singleton(v))
        },
        AuxIntExpr::Mul(x, y) => {
            proof {
                assert(decreases_to!(e0 => e0->Mul_0));
                assert(decreases_to!(e0 => e0->Mul_1));
            }
            let xs = normalize_int_expr(csp_vars, norm, map, x)?;
            let ys = normalize_int_expr(csp_vars, norm, map, y)?;
            if xs.is_constant() {
                let r = ys.checked_scale(xs.constant)?;
                proof {
                    lemma_sum_ok_combined(ys, ys, r, norm.vars.ni());
                }
                return Some(r);
            }
            if ys.is_constant() {
                let r = xs.checked_scale(ys.constant)?;
                proof {
                    lemma_sum_ok_combined(xs, xs, r, norm.vars.ni());
                }
                return Some(r);
            }
            let xv = match xs.as_singleton() {
                Some(v) => {
                    assert(xs.term@[0].0 == v);
                    v
                },
                None => define_var(norm, map, &xs)?,
            };
            let yv = match ys.as_singleton() {
                Some(v) => {
                    assert(ys.term@[0].0 == v);
                    v
                },
                None => define_var(norm, map, &ys)?,
            };
            let (xl, xh) = var_bounds(norm, xv);
            let (yl, yh) = var_bounds(norm, yv);
            proof {
                crate::norm_csp::lemma_i32_product(xl, yl);
                crate::norm_csp::lemma_i32_product(xl, yh);
                crate::norm_csp::lemma_i32_product(xh, yl);
                crate::norm_csp::lemma_i32_product(xh, yh);
            }
            let p1 = xl as i64 * yl as i64;
            let p2 = xl as i64 * yh as i64;
            let p3 = xh as i64 * yl as i64;
            let p4 = xh as i64 * yh as i64;
            let mut lo = p1;
            if p2 < lo { lo = p2; }
            if p3 < lo { lo = p3; }
            if p4 < lo { lo = p4; }
            let mut hi = p1;
            if p2 > hi { hi = p2; }
            if p3 > hi { hi = p3; }
            if p4 > hi { hi = p4; }
            if lo < i32::MIN as i64 || hi > i32::MAX as i64 {
                return None;
            }
            let dom = Domain::range(lo as i32, hi as i32);
            assert(dom.contains(lo as int));
            let z = fresh_int_var(norm, map, dom);
            add_extra_ok(norm, map, ExtraConstraint::Mul(xv, yv, z));
            Some(LinearSum::singleton(z))
        },
    }
}

/// Clauses stating that `lit` holds exactly where `c` does.
fn equiv_constraints(
    csp_vars: &CSPVars,
    norm: &mut NormCSP,
    map: &mut NormalizeMap,
    lit: NBoolLit,
    c: &AuxBoolExpr,
    Ghost(e0): Ghost<AuxIntExpr>,
) -> (r: Option<Vec<Constraint>>)
    requires
        env_ok(*old(norm), *old(map)),
        csp_vars.wf(),
        lit.var.0 < old(norm).vars.num_bool_var,
        decreases_to!(e0 => *c),
    ensures
        env_ok(*final(norm), *final(map)),
        map_keeps(*old(map), *final(map)),
        norm_grows(*old(norm), *final(norm)),
        r matches Some(cs) ==> constraints_ok(cs@, final(norm).vars.num_bool_var as nat, final(norm).vars.ni()),
    decreases e0, 0int,
{
    let ghost nb0 = norm.vars.num_bool_var as nat;
    let neg_c = normalize_bool_expr(csp_vars, norm, map, c, true)?;
    let ghost nb1 = norm.vars.num_bool_var as nat;
    let ghost ni1 = norm.vars.ni();
    let pos_c = normalize_bool_expr(csp_vars, norm, map, c, false)?;
    let nbf = norm.vars.num_bool_var;
    let mut l1: Vec<Constraint> = Vec::new();
    l1.push(bool_constraint(lit));
    let mut l2: Vec<Constraint> = Vec::new();
    l2.push(bool_constraint(lit.negate()));
    proof {
        let nif = norm.vars.ni();
        assert forall|q: int| 0 <= q < l1@.len() implies constraint_ok(#[trigger] l1@[q], nbf as nat, nif) by {}
        assert forall|q: int| 0 <= q < l2@.len() implies constraint_ok(#[trigger] l2@[q], nbf as nat, nif) by {}
        super::lemma_constraints_mono(neg_c@, nb1, ni1, nbf as nat, nif);
        lemma_two_groups_ok(l1, neg_c, nbf as nat, nif, nbf as nat, nif);
        lemma_two_groups_ok(l2, pos_c, nbf as nat, nif, nbf as nat, nif);
    }
    let d1 = normalize_disjunction(norm, map, two_groups(l1, neg_c))?;
    let ghost nb2 = norm.vars.num_bool_var as nat;
    let ghost ni2 = norm.vars.ni();
    proof {
        lemma_two_groups_ok(l2, pos_c, nbf as nat, ni1, nb2, ni2);
    }
    let d2 = normalize_disjunction(norm, map, two_groups(l2, pos_c))?;
    proof {
        lemma_two_groups_ok(d1, d2, nb2, ni2, norm.vars.num_bool_var as nat, norm.vars.ni());
    }
    Some(normalize_conjunction(two_groups(d1, d2), Ghost(norm.vars.num_bool_var as nat), Ghost(norm.vars.ni())))
}

/// A variable of `norm` equal to `e`: the variable itself where `e` is one,
/// else a fresh variable defined by a clause.
pub fn equivalent_int_var(
    csp_vars: &CSPVars,
    norm: &mut NormCSP,
    map: &mut NormalizeMap,
    e: &AuxIntExpr,
) -> (r: Option<NIntVar>)
    requires
        env_ok(*old(norm), *old(map)),
        csp_vars.wf(),
    ensures
        env_ok(*final(norm), *final(map)),
        map_keeps(*old(map), *final(map)),
        norm_grows(*old(norm), *final(norm)),
        r matches Some(v) ==> v.0 < final(norm).vars.ni(),
    decreases *e, 2int,
{
    match e {
        AuxIntExpr::Var(v) => map.convert_int_var(csp_vars, norm, *v),
        AuxIntExpr::NVar(v) => {
            if v.0 >= norm.vars.int_var.len() {
                return None;
            }
            Some(*v)
        },
        _ => {
            let x = normalize_int_expr(csp_vars, norm, map, e)?;
            define_var(norm, map, &x)
        },
    }
}

} // verus!
