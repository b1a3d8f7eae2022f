use vstd::prelude::*;

use super::expr::{lift_bool, lift_int, AuxBoolExpr, AuxIntExpr};
use super::extra::{normalize_circuit, normalize_extension_supports};
use super::norm::{env_ok, equivalent_int_var, normalize_bool_expr, tseitin_bool};
use super::{add_constraints_ok, add_extra_ok, fresh_bool_var, map_keeps, norm_grows, ConvertedBoolVar, NormalizeMap};
use crate::arithmetic::CmpOp;
use crate::config::Config;
use crate::csp::{BoolExpr, BoolVar, BoolVarStatus, CSPVars, IntExpr, Stmt, CSP};
use crate::norm_csp::BoolLit as NBoolLit;
use crate::norm_csp::IntVar as NIntVar;
use crate::norm_csp::{ExtraConstraint, NormCSP};

verus! {

/// Normalizes `e` and adds the resulting clauses to `norm`.
pub fn normalize_and_register_expr(
    csp_vars: &CSPVars,
    norm: &mut NormCSP,
    map: &mut NormalizeMap,
    e: AuxBoolExpr,
) -> (r: Option<()>)
    requires
        env_ok(*old(norm), *old(map)),
        csp_vars.wf(),
    ensures
        env_ok(*final(norm), *final(map)),
        map_keeps(*old(map), *final(map)),
        norm_grows(*old(norm), *final(norm)),
{
    let mut exprs: Vec<AuxBoolExpr> = Vec::new();
    let top = tseitin_bool(norm, map, &mut exprs, e, false)?;
    exprs.push(top);
    let n = exprs.len();
    let mut rest = exprs;
    let mut i: usize = 0;
    while i < n
        invariant
            env_ok(*norm, *map),
            map_keeps(*old(map), *map),
            norm_grows(*old(norm), *norm),
            csp_vars.wf(),
            i <= n,
            rest@.len() == n - i,
        decreases n - i,
    {
        let x = rest.remove(0);
        let cs = normalize_bool_expr(csp_vars, norm, map, &x, false)?;
        add_constraints_ok(norm, map, cs);
        i += 1;
    }
    Some(())
}

/// A literal equivalent to `e`: that of the variable where `e` is one or
/// its negation, else a fresh variable defined by clauses.
pub fn equivalent_bool_lit(
    csp_vars: &CSPVars,
    norm: &mut NormCSP,
    map: &mut NormalizeMap,
    e: AuxBoolExpr,
) -> (r: Option<NBoolLit>)
    requires
        env_ok(*old(norm), *old(map)),
        csp_vars.wf(),
    ensures
        env_ok(*final(norm), *final(map)),
        map_keeps(*old(map), *final(map)),
        norm_grows(*old(norm), *final(norm)),
        r matches Some(l) ==> l.var.0 < final(norm).vars.num_bool_var,
{
    let simple: Option<(crate::csp::BoolVar, bool)> = match &e {
        AuxBoolExpr::Var(v) => Some((*v, false)),
        AuxBoolExpr::Not(x) => match &**x {
            AuxBoolExpr::Var(v) => Some((*v, true)),
            _ => None,
        },
        _ => None,
    };
    match simple {
        Some((v, negated)) => {
            let l = map.convert_bool_var(csp_vars, norm, v)?;
            if negated {
                Some(l.negate())
            } else {
                Some(l)
            }
        },
        None => {
            let aux = fresh_bool_var(norm, map)?;
            let iff = AuxBoolExpr::Iff(Box::new(AuxBoolExpr::NVar(aux)), Box::new(e));
            normalize_and_register_expr(csp_vars, norm, map, iff)?;
            Some(NBoolLit::new(aux, false))
        },
    }
}

/// A copy of a Boolean expression.
pub fn copy_bool(e: &AuxBoolExpr) -> (r: AuxBoolExpr)
    decreases *e, 1int,
{
    let ghost e0 = *e;
    match e {
        AuxBoolExpr::Const(b) => AuxBoolExpr::Const(*b),
        AuxBoolExpr::Var(v) => AuxBoolExpr::Var(*v),
        AuxBoolExpr::NVar(v) => AuxBoolExpr::NVar(*v),
        AuxBoolExpr::And(es) => AuxBoolExpr::And(copy_bools(es, Ghost(e0))),
        AuxBoolExpr::Or(es) => AuxBoolExpr::Or(copy_bools(es, Ghost(e0))),
        AuxBoolExpr::Not(x) => {
            proof {
                assert(decreases_to!(e0 => e0->Not_0));
            }
            AuxBoolExpr::Not(Box::new(copy_bool(x)))
        },
        AuxBoolExpr::Xor(x, y) => {
            proof {
                assert(decreases_to!(e0 => e0->Xor_0));
                assert(decreases_to!(e0 => e0->Xor_1));
            }
            AuxBoolExpr::Xor(Box::new(copy_bool(x)), Box::new(copy_bool(y)))
        },
        AuxBoolExpr::Iff(x, y) => {
            proof {
                assert(decreases_to!(e0 => e0->Iff_0));
                assert(decreases_to!(e0 => e0->Iff_1));
            }
            AuxBoolExpr::Iff(Box::new(copy_bool(x)), Box::new(copy_bool(y)))
        },
        AuxBoolExpr::Imp(x, y) => {
            proof {
                assert(decreases_to!(e0 => e0->Imp_0));
                assert(decreases_to!(e0 => e0->Imp_1));
            }
            AuxBoolExpr::Imp(Box::new(copy_bool(x)), Box::new(copy_bool(y)))
        },
        AuxBoolExpr::Cmp(op, x, y) => {
            proof {
                assert(decreases_to!(e0 => e0->Cmp_1));
                assert(decreases_to!(e0 => e0->Cmp_2));
            }
            AuxBoolExpr::Cmp(*op, Box::new(copy_int(x)), Box::new(copy_int(y)))
        },
    }
}

fn copy_bools(es: &Vec<Box<AuxBoolExpr>>, Ghost(e0): Ghost<AuxBoolExpr>) -> (r: Vec<Box<AuxBoolExpr>>)
    requires
        e0 == AuxBoolExpr::And(*es) || e0 == AuxBoolExpr::Or(*es),
    decreases e0, 0int,
{
    let mut out: Vec<Box<AuxBoolExpr>> = Vec::new();
    let mut i: usize = 0;
    while i < es.len()
        invariant
            e0 == AuxBoolExpr::And(*es) || e0 == AuxBoolExpr::Or(*es),
            i <= es@.len(),
        decreases es@.len() - i,
    {
        proof {
            if e0 is And {
                assert(decreases_to!(e0 => e0->And_0));
                assert(decreases_to!(e0->And_0 => e0->And_0@));
                assert(decreases_to!(e0->And_0@ => e0->And_0@[i as int]));
            } else {
                assert(decreases_to!(e0 => e0->Or_0));
                assert(decreases_to!(e0->Or_0 => e0->Or_0@));
                assert(decreases_to!(e0->Or_0@ => e0->Or_0@[i as int]));
            }
            assert(decreases_to!(e0 => *es@[i as int]));
        }
        out.push(Box::new(copy_bool(&*es[i])));
        i += 1;
    }
    out
}

/// A copy of an integer expression.
pub fn copy_int(e: &AuxIntExpr) -> (r: AuxIntExpr)
    decreases *e, 1int,
{
    let ghost e0 = *e;
    match e {
        AuxIntExpr::Const(c) => AuxIntExpr::Const(*c),
        AuxIntExpr::Var(v) => AuxIntExpr::Var(*v),
        AuxIntExpr::NVar(v) => AuxIntExpr::NVar(*v),
        AuxIntExpr::Linear(ts) => {
            let mut out: Vec<(Box<AuxIntExpr>, i32)> = Vec::new();
            let mut i: usize = 0;
            while i < ts.len()
                invariant
                    e0 == AuxIntExpr::Linear(*ts),
                    e0 == *e,
                    i <= ts@.len(),
                decreases ts@.len() - i,
            {
                proof {
                    assert(decreases_to!(e0 => e0->Linear_0));
                    assert(decreases_to!(e0->Linear_0 => e0->Linear_0@));
                    assert(decreases_to!(e0->Linear_0@ => e0->Linear_0@[i as int]));
                    assert(decreases_to!(e0->Linear_0@[i as int] => e0->Linear_0@[i as int].0));
                    assert(decreases_to!(*e => *ts@[i as int].0));
                }
                out.push((Box::new(copy_int(&*ts[i].0)), ts[i].1));
                i += 1;
            }
            AuxIntExpr::Linear(out)
        },
        AuxIntExpr::If(c, t, f) => {
            proof {
                assert(decreases_to!(e0 => e0->If_0));
                assert(decreases_to!(e0 => e0->If_1));
                assert(decreases_to!(e0 => e0->If_2));
            }
            AuxIntExpr::If(Box::new(copy_bool(c)), Box::new(copy_int(t)), Box::new(copy_int(f)))
        },
        AuxIntExpr::Abs(x) => {
            proof {
                assert(decreases_to!(e0 => e0->Abs_0));
            }
            AuxIntExpr::Abs(Box::new(copy_int(x)))
        },
        AuxIntExpr::Mul(x, y) => {
            proof {
                assert(decreases_to!(e0 => e0->Mul_0));
                assert(decreases_to!(e0 => e0->Mul_1));
            }
            AuxIntExpr::Mul(Box::new(copy_int(x)), Box::new(copy_int(y)))
        },
    }
}

/// Whether two value lists are equal.
fn same_values(a: &Vec<i32>, b: &Vec<i32>) -> (r: bool)
    ensures
        r == (a@ == b@),
{
    if a.len() != b.len() {
        return false;
    }
    let mut i: usize = 0;
    while i < a.len()
        invariant
            a@.len() == b@.len(),
            i <= a@.len(),
            forall|k: int| 0 <= k < i ==> a@[k] == b@[k],
        decreases a@.len() - i,
    {
        if a[i] != b[i] {
            return false;
        }
        i += 1;
    }
    assert(a@ =~= b@);
    true
}

/// The clauses of an all-different constraint: every two expressions
/// differ; with the bijection option and when all are variables with the
/// same domain of exactly as many values, also every value is taken.
fn normalize_all_different(
    csp_vars: &CSPVars,
    norm: &mut NormCSP,
    map: &mut NormalizeMap,
    config: &Config,
    exprs: Vec<IntExpr>,
) -> (r: Option<()>)
    requires
        env_ok(*old(norm), *old(map)),
        csp_vars.wf(),
    ensures
        env_ok(*final(norm), *final(map)),
        map_keeps(*old(map), *final(map)),
        norm_grows(*old(norm), *final(norm)),
{
    let n = exprs.len();
    let mut vars_only: Vec<Option<crate::csp::IntVar>> = Vec::new();
    let mut lifted: Vec<AuxIntExpr> = Vec::new();
    let mut rest = exprs;
    let mut k: usize = 0;
    while k < n
        invariant
            k <= n,
            rest@.len() == n - k,
            lifted@.len() == k,
            vars_only@.len() == k,
        decreases n - k,
    {
        let e = rest.remove(0);
        match &e {
            IntExpr::Var(v) => vars_only.push(Some(*v)),
            _ => vars_only.push(None),
        }
        lifted.push(lift_int(e));
        k += 1;
    }
    let mut i: usize = 0;
    while i < n
        invariant
            env_ok(*norm, *map),
            map_keeps(*old(map), *map),
            norm_grows(*old(norm), *norm),
            csp_vars.wf(),
            lifted@.len() == n,
            i <= n,
        decreases n - i,
    {
        let mut j: usize = i + 1;
        while j < n
            invariant
                env_ok(*norm, *map),
                map_keeps(*old(map), *map),
                norm_grows(*old(norm), *norm),
                csp_vars.wf(),
                lifted@.len() == n,
                i < n,
                i + 1 <= j <= n,
            decreases n - j,
        {
            let ne = AuxBoolExpr::Cmp(CmpOp::Ne, Box::new(copy_int(&lifted[i])), Box::new(copy_int(&lifted[j])));
            normalize_and_register_expr(csp_vars, norm, map, ne)?;
            j += 1;
        }
        i += 1;
    }
    if !config.alldifferent_bijection_constraints || n == 0 {
        return Some(());
    }
    let mut domain: Option<Vec<i32>> = None;
    let mut t: usize = 0;
    while t < n
        invariant
            vars_only@.len() == n,
            t <= n,
            csp_vars.wf(),
            env_ok(*norm, *map),
            map_keeps(*old(map), *map),
            norm_grows(*old(norm), *norm),
        decreases n - t,
    {
        match vars_only[t] {
            Some(v) => {
                if v.0 >= csp_vars.int_var.len() {
                    return Some(());
                }
                assert(csp_vars.int_var@[v.0 as int].domain.wf());
                let d = csp_vars.int_var[v.0].domain.enumerate();
                match &domain {
                    Some(prev) => {
                        if !same_values(prev, &d) {
                            return Some(());
                        }
                    },
                    None => {
                        domain = Some(d);
                    },
                }
            },
            None => {
                return Some(());
            },
        }
        t += 1;
    }
    let values = match domain {
        Some(d) => d,
        None => {
            return Some(());
        },
    };
    if values.len() != n {
        return Some(());
    }
    let mut q: usize = 0;
    while q < values.len()
        invariant
            env_ok(*norm, *map),
            map_keeps(*old(map), *map),
            norm_grows(*old(norm), *norm),
            csp_vars.wf(),
            lifted@.len() == n,
            q <= values@.len(),
        decreases values@.len() - q,
    {
        let value = values[q];
        let mut alts: Vec<Box<AuxBoolExpr>> = Vec::new();
        let mut p: usize = 0;
        while p < n
            invariant
                lifted@.len() == n,
                p <= n,
            decreases n - p,
        {
            alts.push(Box::new(AuxBoolExpr::Cmp(CmpOp::Eq, Box::new(copy_int(&lifted[p])), Box::new(AuxIntExpr::Const(value)))));
            p += 1;
        }
        normalize_and_register_expr(csp_vars, norm, map, AuxBoolExpr::Or(alts))?;
        q += 1;
    }
    Some(())
}

/// Literals equivalent to each expression.
fn equivalent_bool_lits(
    csp_vars: &CSPVars,
    norm: &mut NormCSP,
    map: &mut NormalizeMap,
    exprs: Vec<BoolExpr>,
) -> (r: Option<Vec<NBoolLit>>)
    requires
        env_ok(*old(norm), *old(map)),
        csp_vars.wf(),
    ensures
        env_ok(*final(norm), *final(map)),
        map_keeps(*old(map), *final(map)),
        norm_grows(*old(norm), *final(norm)),
        r matches Some(ls) ==> ls@.len() == exprs@.len() && forall|k: int|
            0 <= k < ls@.len() ==> (#[trigger] ls@[k]).var.0 < final(norm).vars.num_bool_var,
{
    let n = exprs.len();
    let mut rest = exprs;
    let mut out: Vec<NBoolLit> = Vec::new();
    let mut i: usize = 0;
    while i < n
        invariant
            env_ok(*norm, *map),
            map_keeps(*old(map), *map),
            norm_grows(*old(norm), *norm),
            csp_vars.wf(),
            n == exprs@.len(),
            i <= n,
            rest@.len() == n - i,
            out@.len() == i,
            forall|k: int| 0 <= k < out@.len() ==> (#[trigger] out@[k]).var.0 < norm.vars.num_bool_var,
        decreases n - i,
    {
        let e = rest.remove(0);
        let l = equivalent_bool_lit(csp_vars, norm, map, lift_bool(e))?;
        out.push(l);
        i += 1;
    }
    Some(out)
}

/// Variables equivalent to each expression.
fn equivalent_int_vars(
    csp_vars: &CSPVars,
    norm: &mut NormCSP,
    map: &mut NormalizeMap,
    exprs: Vec<IntExpr>,
) -> (r: Option<Vec<NIntVar>>)
    requires
        env_ok(*old(norm), *old(map)),
        csp_vars.wf(),
    ensures
        env_ok(*final(norm), *final(map)),
        map_keeps(*old(map), *final(map)),
        norm_grows(*old(norm), *final(norm)),
        r matches Some(vs) ==> vs@.len() == exprs@.len() && forall|k: int|
            0 <= k < vs@.len() ==> (#[trigger] vs@[k]).0 < final(norm).vars.ni(),
{
    let n = exprs.len();
    let mut rest = exprs;
    let mut out: Vec<NIntVar> = Vec::new();
    let mut i: usize = 0;
    while i < n
        invariant
            env_ok(*norm, *map),
            map_keeps(*old(map), *map),
            norm_grows(*old(norm), *norm),
            csp_vars.wf(),
            n == exprs@.len(),
            i <= n,
            rest@.len() == n - i,
            out@.len() == i,
            forall|k: int| 0 <= k < out@.len() ==> (#[trigger] out@[k]).0 < norm.vars.ni(),
        decreases n - i,
    {
        let e = rest.remove(0);
        let v = equivalent_int_var(csp_vars, norm, map, &lift_int(e))?;
        out.push(v);
        i += 1;
    }
    Some(out)
}

/// Normalizes one statement into `norm`.
pub fn normalize_stmt(
    csp_vars: &CSPVars,
    norm: &mut NormCSP,
    map: &mut NormalizeMap,
    config: &Config,
    stmt: Stmt,
) -> (r: Option<()>)
    requires
        env_ok(*old(norm), *old(map)),
        csp_vars.wf(),
    ensures
        env_ok(*final(norm), *final(map)),
        map_keeps(*old(map), *final(map)),
        norm_grows(*old(norm), *final(norm)),
{
    match stmt {
        Stmt::Expr(e) => normalize_and_register_expr(csp_vars, norm, map, lift_bool(e)),
        Stmt::AllDifferent(exprs) => normalize_all_different(csp_vars, norm, map, config, exprs),
        Stmt::ActiveVerticesConnected(vertices, edges) => {
            let lits = equivalent_bool_lits(csp_vars, norm, map, vertices)?;
            add_extra_ok(norm, map, ExtraConstraint::ActiveVerticesConnected(lits, edges));
            Some(())
        },
        Stmt::Circuit(exprs) => {
            let vars = equivalent_int_vars(csp_vars, norm, map, exprs)?;
            normalize_circuit(csp_vars, norm, map, vars)
        },
        Stmt::ExtensionSupports(exprs, supports) => {
            let vars = equivalent_int_vars(csp_vars, norm, map, exprs)?;
            normalize_extension_supports(csp_vars, norm, map, config, vars, supports)
        },
        Stmt::GraphDivision(sizes, edges, edge_lits, opts) => {
            let n = sizes.len();
            let mut rest = sizes;
            let mut conv: Vec<Option<NIntVar>> = Vec::new();
            let mut i: usize = 0;
            while i < n
                invariant
                    env_ok(*norm, *map),
                    map_keeps(*old(map), *map),
                    norm_grows(*old(norm), *norm),
                    csp_vars.wf(),
                    i <= n,
                    rest@.len() == n - i,
                    forall|k: int| 0 <= k < conv@.len() ==> (#[trigger] conv@[k] matches Some(v) ==> v.0 < norm.vars.ni()),
                decreases n - i,
            {
                let s = rest.remove(0);
                match s {
                    Some(e) => {
                        let v = equivalent_int_var(csp_vars, norm, map, &lift_int(e))?;
                        conv.push(Some(v));
                    },
                    None => {
                        conv.push(None);
                    },
                }
                i += 1;
            }
            let lits = equivalent_bool_lits(csp_vars, norm, map, edge_lits)?;
            add_extra_ok(norm, map, ExtraConstraint::GraphDivision(conv, edges, lits, opts));
            Some(())
        },
    }
}

/// The two variables that the statement declares equal (`Iff`) or opposite
/// (`Xor`, with `true`), where it is such a statement over two variables.
pub open spec fn merge_pair(s: Stmt) -> Option<(BoolVar, BoolVar, bool)> {
    match s {
        Stmt::Expr(BoolExpr::Iff(x, y)) => match (*x, *y) {
            (BoolExpr::Var(a), BoolExpr::Var(b)) => Some((a, b, false)),
            _ => None,
        },
        Stmt::Expr(BoolExpr::Xor(x, y)) => match (*x, *y) {
            (BoolExpr::Var(a), BoolExpr::Var(b)) => Some((a, b, true)),
            _ => None,
        },
        _ => None,
    }
}

/// The pair holds Boolean variable `u`.
pub open spec fn pair_mentions(p: Option<(BoolVar, BoolVar, bool)>, u: int) -> bool {
    match p {
        Some((a, b, _)) => a.0 == u || b.0 == u,
        None => false,
    }
}

/// One of the first `k` statements declares Boolean variable `u` equal or
/// opposite to another.
pub open spec fn merged_before(stmts: Seq<Stmt>, k: int, u: int) -> bool {
    exists|j: int| 0 <= j < k && pair_mentions(#[trigger] merge_pair(stmts[j]), u)
}

/// Variable `u` has a literal when the `k`-th statement is merged: it had
/// one before, or an earlier statement merged it.
pub open spec fn lit_when_merging(map0: NormalizeMap, stmts: Seq<Stmt>, k: int, u: int) -> bool {
    map0.bool_at(u) is Lit || merged_before(stmts, k, u)
}

/// `l`, negated where `flip` holds.
pub open spec fn flip_lit(l: NBoolLit, flip: bool) -> NBoolLit {
    NBoolLit { var: l.var, negated: l.negated != flip }
}

/// Records that `x` and `y` are the same variable (`negated`: one is the
/// negation of the other) before anything else converts them.
fn merge_equivalent(
    csp_vars: &CSPVars,
    norm: &mut NormCSP,
    map: &mut NormalizeMap,
    x: BoolVar,
    y: BoolVar,
    negated: bool,
) -> (r: Option<()>)
    requires
        env_ok(*old(norm), *old(map)),
        csp_vars.wf(),
    ensures
        env_ok(*final(norm), *final(map)),
        norm_grows(*old(norm), *final(norm)),
        r is Some ==> map_keeps(*old(map), *final(map)),
        r is Some ==> forall|i: int| i != x.0 && i != y.0 ==> #[trigger] final(map).bool_at(i) == old(map).bool_at(i),
        r is Some ==> final(map).bool_at(x.0 as int) is Lit && final(map).bool_at(y.0 as int) is Lit,
        r is Some && x != y && !(old(map).bool_at(x.0 as int) is Lit && old(map).bool_at(y.0 as int) is Lit)
            ==> final(map).bool_at(y.0 as int) == ConvertedBoolVar::Lit(flip_lit(final(map).bool_at(x.0 as int)->Lit_0, negated)),
        old(map).bool_at(x.0 as int) is Removed || old(map).bool_at(y.0 as int) is Removed ==> r is None,
{
    let cx = map.get_bool_var_raw(x);
    let cy = map.get_bool_var_raw(y);
    if cx.is_removed() || cy.is_removed() {
        return None;
    }
    match (cx, cy) {
        (ConvertedBoolVar::Lit(_), ConvertedBoolVar::Lit(_)) => Some(()),
        (ConvertedBoolVar::Lit(xl), _) => {
            let l = if negated { xl.negate() } else { xl };
            map.set_bool(y, ConvertedBoolVar::Lit(l), Ghost(norm.vars.num_bool_var as nat), Ghost(norm.vars.ni()));
            Some(())
        },
        (_, ConvertedBoolVar::Lit(yl)) => {
            let l = if negated { yl.negate() } else { yl };
            map.set_bool(x, ConvertedBoolVar::Lit(l), Ghost(norm.vars.num_bool_var as nat), Ghost(norm.vars.ni()));
            Some(())
        },
        _ => {
            let xl = map.convert_bool_var(csp_vars, norm, x)?;
            let l = if negated { xl.negate() } else { xl };
            map.set_bool(y, ConvertedBoolVar::Lit(l), Ghost(norm.vars.num_bool_var as nat), Ghost(norm.vars.ni()));
            Some(())
        },
    }
}

/// Normalizes the constraints of `csp` into `norm`, converting variables
/// through `map`; the constraints of `csp` are taken out. `false` where
/// normalization had to stop: a constraint mentions a variable that
/// constant folding removed, an arithmetic result leaves `i32`, or an
/// extension-support row does not match its variables.
pub fn normalize(csp: &mut CSP, norm: &mut NormCSP, map: &mut NormalizeMap, config: &Config) -> (r: bool)
    requires
        old(csp).vars.wf(),
        env_ok(*old(norm), *old(map)),
    ensures
        env_ok(*final(norm), *final(map)),
        norm_grows(*old(norm), *final(norm)),
        final(csp).vars == old(csp).vars,
        final(csp).constraints@.len() == 0,
        r ==> forall|u: int|
            0 <= u < old(csp).vars.bool_var@.len() && old(csp).vars.bool_fixed(BoolVar(u as usize))
                ==> #[trigger] final(map).bool_at(u) is Removed,
        r && config.merge_equivalent_variables ==> forall|k: int|
            0 <= k < old(csp).constraints@.len() && #[trigger] merge_pair(old(csp).constraints@[k]) is Some ==> {
                let (a, b, flip) = merge_pair(old(csp).constraints@[k])->0;
                &&& final(map).bool_at(a.0 as int) is Lit
                &&& final(map).bool_at(b.0 as int) is Lit
                &&& a != b && !(lit_when_merging(*old(map), old(csp).constraints@, k, a.0 as int) && lit_when_merging(
                    *old(map),
                    old(csp).constraints@,
                    k,
                    b.0 as int,
                )) ==> final(map).bool_at(b.0 as int) == ConvertedBoolVar::Lit(
                    flip_lit(final(map).bool_at(a.0 as int)->Lit_0, flip),
                )
            },
{
    let mut stmts: Vec<Stmt> = Vec::new();
    std::mem::swap(&mut stmts, &mut csp.constraints);
    let csp_vars = &csp.vars;
    assert(csp.constraints@.len() == 0);
    let ghost stmts0 = stmts@;
    let ghost map0 = *old(map);
    if config.merge_equivalent_variables {
        let mut i: usize = 0;
        while i < stmts.len()
            invariant
                env_ok(*norm, *map),
                norm_grows(*old(norm), *norm),
                csp_vars.wf(),
                csp.vars == old(csp).vars,
                csp.constraints@.len() == 0,
                i <= stmts@.len(),
                stmts@ == stmts0,
                stmts0 == old(csp).constraints@,
                map0 == *old(map),
                map_keeps(map0, *map),
                forall|u: int| !merged_before(stmts0, i as int, u) ==> #[trigger] map.bool_at(u) == map0.bool_at(u),
                forall|u: int| merged_before(stmts0, i as int, u) ==> (#[trigger] map.bool_at(u)) is Lit,
                forall|k: int| 0 <= k < i && #[trigger] merge_pair(stmts0[k]) is Some ==> {
                    let (a, b, flip) = merge_pair(stmts0[k])->0;
                    &&& map.bool_at(a.0 as int) is Lit
                    &&& map.bool_at(b.0 as int) is Lit
                    &&& a != b && !(lit_when_merging(map0, stmts0, k, a.0 as int) && lit_when_merging(map0, stmts0, k, b.0 as int))
                        ==> map.bool_at(b.0 as int) == ConvertedBoolVar::Lit(flip_lit(map.bool_at(a.0 as int)->Lit_0, flip))
                },
            decreases stmts@.len() - i,
        {
            let pair: Option<(BoolVar, BoolVar, bool)> = match &stmts[i] {
                Stmt::Expr(BoolExpr::Iff(x, y)) => match (&**x, &**y) {
                    (BoolExpr::Var(a), BoolExpr::Var(b)) => Some((*a, *b, false)),
                    _ => None,
                },
                Stmt::Expr(BoolExpr::Xor(x, y)) => match (&**x, &**y) {
                    (BoolExpr::Var(a), BoolExpr::Var(b)) => Some((*a, *b, true)),
                    _ => None,
                },
                _ => None,
            };
            assert(pair == merge_pair(stmts0[i as int]));
            let ghost m_before = *map;
            match pair {
                Some((a, b, negated)) => {
                    if merge_equivalent(csp_vars, norm, map, a, b, negated).is_none() {
                        return false;
                    }
                    proof {
                        assert(lit_when_merging(map0, stmts0, i as int, a.0 as int) == m_before.bool_at(a.0 as int) is Lit) by {
                            if merged_before(stmts0, i as int, a.0 as int) {
                                assert(m_before.bool_at(a.0 as int) is Lit);
                            } else {
                                assert(m_before.bool_at(a.0 as int) == map0.bool_at(a.0 as int));
                            }
                        }
                        assert(lit_when_merging(map0, stmts0, i as int, b.0 as int) == m_before.bool_at(b.0 as int) is Lit) by {
                            if merged_before(stmts0, i as int, b.0 as int) {
                                assert(m_before.bool_at(b.0 as int) is Lit);
                            } else {
                                assert(m_before.bool_at(b.0 as int) == map0.bool_at(b.0 as int));
                            }
                        }
                        assert forall|u: int| merged_before(stmts0, i + 1, u) implies (#[trigger] map.bool_at(u)) is Lit by {
                            let j = choose|j: int| 0 <= j < i + 1 && pair_mentions(#[trigger] merge_pair(stmts0[j]), u);
                            if j < i {
                                assert(merged_before(stmts0, i as int, u));
                                assert(m_before.bool_at(u) is Lit);
                            }
                        }
                        assert forall|u: int| !merged_before(stmts0, i + 1, u) implies #[trigger] map.bool_at(u) == map0.bool_at(u) by {
                            assert(!merged_before(stmts0, i as int, u)) by {
                                if merged_before(stmts0, i as int, u) {
                                    let j = choose|j: int| 0 <= j < i && pair_mentions(#[trigger] merge_pair(stmts0[j]), u);
                                    assert(0 <= j < i + 1);
                                }
                            }
                            assert(!pair_mentions(merge_pair(stmts0[i as int]), u));
                            assert(m_before.bool_at(u) == map0.bool_at(u));
                        }
                    }
                },
                None => {
                    proof {
                        assert forall|u: int| merged_before(stmts0, i + 1, u) implies (#[trigger] map.bool_at(u)) is Lit by {
                            let j = choose|j: int| 0 <= j < i + 1 && pair_mentions(#[trigger] merge_pair(stmts0[j]), u);
                            assert(j != i);
                            assert(merged_before(stmts0, i as int, u));
                        }
                        assert forall|u: int| !merged_before(stmts0, i + 1, u) implies #[trigger] map.bool_at(u) == map0.bool_at(u) by {
                            if merged_before(stmts0, i as int, u) {
                                let j = choose|j: int| 0 <= j < i && pair_mentions(#[trigger] merge_pair(stmts0[j]), u);
                                assert(0 <= j < i + 1);
                            }
                        }
                    }
                },
            }
            i += 1;
        }
    }
    let ghost m_merged = *map;
    let nbv = csp_vars.bool_var.len();
    let mut v: usize = 0;
    while v < nbv
        invariant
            env_ok(*norm, *map),
            norm_grows(*old(norm), *norm),
            csp_vars.wf(),
            csp.vars == old(csp).vars,
            csp.constraints@.len() == 0,
            nbv == csp_vars.bool_var@.len(),
            v <= nbv,
            map_keeps(m_merged, *map),
            config.merge_equivalent_variables ==> forall|k: int| 0 <= k < stmts0.len() && #[trigger] merge_pair(stmts0[k]) is Some ==> {
                let (a, b, flip) = merge_pair(stmts0[k])->0;
                &&& map.bool_at(a.0 as int) is Lit
                &&& map.bool_at(b.0 as int) is Lit
                &&& a != b && !(lit_when_merging(map0, stmts0, k, a.0 as int) && lit_when_merging(map0, stmts0, k, b.0 as int))
                    ==> map.bool_at(b.0 as int) == ConvertedBoolVar::Lit(flip_lit(map.bool_at(a.0 as int)->Lit_0, flip))
            },
            stmts0 == old(csp).constraints@,
            map0 == *old(map),
            forall|u: int|
                0 <= u < v && (#[trigger] csp_vars.bool_var@[u]).possibility_mask != 0 && csp_vars.bool_var@[u].possibility_mask != 3
                    ==> map.bool_at(u) is Removed,
        decreases nbv - v,
    {
        assert(csp_vars.bool_var@[v as int].wf());
        match csp_vars.bool_var[v].get_status() {
            BoolVarStatus::Fixed(_) => {
                let var = BoolVar(v);
                if map.get_bool_var_raw(var).is_lit() {
                    return false;
                }
                map.set_bool(var, ConvertedBoolVar::Removed, Ghost(norm.vars.num_bool_var as nat), Ghost(norm.vars.ni()));
            },
            _ => {},
        }
        v += 1;
    }
    let np = csp.prenormalize_vars.len();
    let mut p: usize = 0;
    while p < np
        invariant
            env_ok(*norm, *map),
            norm_grows(*old(norm), *norm),
            csp_vars.wf(),
            csp.vars == old(csp).vars,
            csp.constraints@.len() == 0,
            np == csp.prenormalize_vars@.len(),
            p <= np,
            map_keeps(m_merged, *map),
            config.merge_equivalent_variables ==> forall|k: int| 0 <= k < stmts0.len() && #[trigger] merge_pair(stmts0[k]) is Some ==> {
                let (a, b, flip) = merge_pair(stmts0[k])->0;
                &&& map.bool_at(a.0 as int) is Lit
                &&& map.bool_at(b.0 as int) is Lit
                &&& a != b && !(lit_when_merging(map0, stmts0, k, a.0 as int) && lit_when_merging(map0, stmts0, k, b.0 as int))
                    ==> map.bool_at(b.0 as int) == ConvertedBoolVar::Lit(flip_lit(map.bool_at(a.0 as int)->Lit_0, flip))
            },
            stmts0 == old(csp).constraints@,
            map0 == *old(map),
            nbv == csp_vars.bool_var@.len(),
            forall|u: int|
                0 <= u < nbv && (#[trigger] csp_vars.bool_var@[u]).possibility_mask != 0 && csp_vars.bool_var@[u].possibility_mask != 3
                    ==> map.bool_at(u) is Removed,
        decreases np - p,
    {
        let lit = match map.convert_bool_var(csp_vars, norm, csp.prenormalize_vars[p]) {
            Some(l) => l,
            None => {
                return false;
            },
        };
        let ghost n0 = *norm;
        norm.add_prenormalize_var(lit.var);
        proof {
            assert forall|k: int| 0 <= k < norm.prenormalize_vars@.len() implies (#[trigger] norm.prenormalize_vars@[k]).0 < norm.vars.num_bool_var by {
                if k < n0.prenormalize_vars@.len() {
                    assert(norm.prenormalize_vars@[k] == n0.prenormalize_vars@[k]);
                }
            }
        }
        p += 1;
    }
    let n = stmts.len();
    let mut rest = stmts;
    let mut s: usize = 0;
    while s < n
        invariant
            env_ok(*norm, *map),
            norm_grows(*old(norm), *norm),
            csp_vars.wf(),
            csp.vars == old(csp).vars,
            csp.constraints@.len() == 0,
            s <= n,
            rest@.len() == n - s,
            map_keeps(m_merged, *map),
            config.merge_equivalent_variables ==> forall|k: int| 0 <= k < stmts0.len() && #[trigger] merge_pair(stmts0[k]) is Some ==> {
                let (a, b, flip) = merge_pair(stmts0[k])->0;
                &&& map.bool_at(a.0 as int) is Lit
                &&& map.bool_at(b.0 as int) is Lit
                &&& a != b && !(lit_when_merging(map0, stmts0, k, a.0 as int) && lit_when_merging(map0, stmts0, k, b.0 as int))
                    ==> map.bool_at(b.0 as int) == ConvertedBoolVar::Lit(flip_lit(map.bool_at(a.0 as int)->Lit_0, flip))
            },
            stmts0 == old(csp).constraints@,
            map0 == *old(map),
            nbv == csp_vars.bool_var@.len(),
            forall|u: int|
                0 <= u < nbv && (#[trigger] csp_vars.bool_var@[u]).possibility_mask != 0 && csp_vars.bool_var@[u].possibility_mask != 3
                    ==> map.bool_at(u) is Removed,
        decreases n - s,
    {
        let stmt = rest.remove(0);
        if normalize_stmt(csp_vars, norm, map, config, stmt).is_none() {
            return false;
        }
        s += 1;
    }
    true
}

} // verus!
