use vstd::prelude::*;

use super::expr::{aux_eval_all, aux_eval_any, aux_eval_bool, aux_eval_int, AuxBoolExpr, AuxIntExpr};
use super::norm::env_ok;
use super::stmt::normalize_and_register_expr;
use super::{
    add_constraint_ok, add_extra_ok, constraint_ok, fresh_bool_var, linear_constraint, make_linear_lit, map_keeps, norm_grows,
    NormalizeMap,
};
use crate::arithmetic::CmpOp;
use crate::config::Config;
use crate::csp::{CSPVars, Env};
use crate::domain::{seq_has, strictly_sorted};
use crate::norm_csp::BoolLit as NBoolLit;
use crate::norm_csp::IntVar as NIntVar;
use crate::norm_csp::{Constraint, ExtraConstraint, IntVarRepresentation, LinearSum, NormCSP};

verus! {

/// `x == c` (or `x != c`) as a clause, where the encoder accepts it.
fn value_lit(norm: &NormCSP, x: NIntVar, c: i32, op: CmpOp) -> (r: Option<crate::norm_csp::LinearLit>)
    requires
        x.0 < norm.vars.ni(),
    ensures
        r matches Some(l) ==> super::linear_lit_ok(l, norm.vars.ni()),
        r is Some <==> -0x7fff_fffe <= c <= 0x7fff_fffe,
        r matches Some(l) ==> l.op == op && l.sum.term@ == seq![(x, 1i32)] && l.sum.constant == -c,
{
    let s = LinearSum::singleton(x).checked_sub(&LinearSum::constant(c))?;
    proof {
        assert forall|t: int| 0 <= t < s.term@.len() implies (#[trigger] s.term@[t]).0.0 < norm.vars.ni() by {
            if crate::norm_csp::linear::occurs(seq![(x, 1i32)], s.term@[t].0) {
                let j = choose|j: int| 0 <= j < 1 && (#[trigger] seq![(x, 1i32)][j]).0 == s.term@[t].0;
            } else {
                let j = choose|j: int| 0 <= j < 0 && (#[trigger] Seq::<(NIntVar, i32)>::empty()[j]).0 == s.term@[t].0;
            }
        }
    }
    make_linear_lit(s, op, norm)
}

/// The values of a variable in the order the circuit encoding visits them.
fn circuit_values(repr: &IntVarRepresentation) -> (r: Vec<i32>)
    requires
        repr.wf(),
    ensures
        repr matches IntVarRepresentation::Domain(d) ==> strictly_sorted(r@) && forall|x: int| d.contains(x) <==> seq_has(r@, x),
        repr matches IntVarRepresentation::Binary { cond: _, v_false, v_true } ==> r@ == seq![*v_true, *v_false],
{
    match repr {
        IntVarRepresentation::Domain(d) => d.enumerate(),
        IntVarRepresentation::Binary { cond: _, v_false, v_true } => {
            let mut r: Vec<i32> = Vec::new();
            r.push(*v_true);
            r.push(*v_false);
            r
        },
    }
}

/// Edges of the successor graph with the literal selecting each.
pub open spec fn edges_ok(edges: Seq<(usize, usize, NBoolLit)>, n: nat, nb: nat) -> bool {
    forall|k: int| 0 <= k < edges.len() ==> (#[trigger] edges[k]).0 < n && edges[k].1 < n && edges[k].2.var.0 < nb
}

pub open spec fn keyed_ok(es: Seq<((usize, usize), NBoolLit)>, n: nat, nb: nat) -> bool {
    forall|k: int| 0 <= k < es.len() ==> (#[trigger] es[k]).0.0 < n && es[k].0.1 < n && es[k].1.var.0 < nb
}

/// `a` comes before `b`.
fn key_less(a: (usize, usize), b: (usize, usize)) -> (r: bool)
    ensures
        r == (a.0 < b.0 || (a.0 == b.0 && a.1 < b.1)),
{
    a.0 < b.0 || (a.0 == b.0 && a.1 < b.1)
}

/// The entries ordered by key, entries of equal keys in their first order.
fn sort_by_key(es: Vec<((usize, usize), NBoolLit)>, Ghost(n): Ghost<nat>, Ghost(nb): Ghost<nat>) -> (r: Vec<((usize, usize), NBoolLit)>)
    requires
        keyed_ok(es@, n, nb),
    ensures
        keyed_ok(r@, n, nb),
        r@.len() == es@.len(),
        r@.to_multiset() == es@.to_multiset(),
        forall|a: int, b: int| 0 <= a < b < r@.len() ==> !key_before(r@[b].0, r@[a].0),
{
    let mut out: Vec<((usize, usize), NBoolLit)> = Vec::new();
    assert(out@ =~= es@.take(0));
    let mut i: usize = 0;
    while i < es.len()
        invariant
            i <= es@.len(),
            out@.len() == i,
            keyed_ok(es@, n, nb),
            keyed_ok(out@, n, nb),
            out@.to_multiset() == es@.take(i as int).to_multiset(),
            forall|a: int, b: int| 0 <= a < b < out@.len() ==> !key_before(out@[b].0, out@[a].0),
        decreases es@.len() - i,
    {
        let item = es[i];
        let mut pos = out.len();
        while pos > 0 && key_less(item.0, out[pos - 1].0)
            invariant
                pos <= out@.len(),
                forall|k: int| pos <= k < out@.len() ==> key_before(item.0, #[trigger] out@[k].0),
            decreases pos,
        {
            pos -= 1;
        }
        let ghost prev = out@;
        out.insert(pos, item);
        proof {
            assert(es@.take(i + 1) =~= es@.take(i as int).push(item));
            assert(out@ == prev.insert(pos as int, item));
            vstd::seq_lib::to_multiset_insert(prev, pos as int, item);
            vstd::seq_lib::to_multiset_build(es@.take(i as int), item);
            assert forall|k: int| 0 <= k < out@.len() implies (#[trigger] out@[k]).0.0 < n && out@[k].0.1 < n && out@[k].1.var.0 < nb by {
                if k < pos {
                    assert(out@[k] == prev[k]);
                } else if k == pos {
                    assert(out@[k] == es@[i as int]);
                } else {
                    assert(out@[k] == prev[k - 1]);
                }
            }
            assert forall|a: int, b: int| 0 <= a < b < out@.len() implies !key_before(out@[b].0, out@[a].0) by {
                if b < pos {
                    assert(out@[a] == prev[a] && out@[b] == prev[b]);
                } else if b == pos {
                    assert(out@[a] == prev[a]);
                    assert(!key_before(item.0, prev[pos - 1].0));
                    if a < pos - 1 {
                        assert(!key_before(prev[pos - 1].0, prev[a].0));
                    }
                } else if a < pos {
                    assert(out@[a] == prev[a] && out@[b] == prev[b - 1]);
                } else if a == pos {
                    assert(out@[b] == prev[b - 1]);
                } else {
                    assert(out@[a] == prev[a - 1] && out@[b] == prev[b - 1]);
                }
            }
        }
        i += 1;
    }
    assert(es@.take(es@.len() as int) =~= es@);
    out
}

/// Key `a` comes before key `b`.
pub open spec fn key_before(a: (usize, usize), b: (usize, usize)) -> bool {
    a.0 < b.0 || (a.0 == b.0 && a.1 < b.1)
}

/// The clauses of a circuit constraint: variable `i` names the successor of
/// node `i` (itself where it is left out of the circuit); every node has at
/// most one predecessor and the chosen edges form one connected cycle.
pub fn normalize_circuit(
    csp_vars: &CSPVars,
    norm: &mut NormCSP,
    map: &mut NormalizeMap,
    vars: Vec<NIntVar>,
) -> (r: Option<()>)
    requires
        env_ok(*old(norm), *old(map)),
        csp_vars.wf(),
        forall|k: int| 0 <= k < vars@.len() ==> (#[trigger] vars@[k]).0 < old(norm).vars.ni(),
    ensures
        env_ok(*final(norm), *final(map)),
        map_keeps(*old(map), *final(map)),
        norm_grows(*old(norm), *final(norm)),
{
    let n = vars.len();
    if n > 0x7fff_ffff {
        return None;
    }
    let mut edges: Vec<(usize, usize, NBoolLit)> = Vec::new();
    let mut in_edges: Vec<Vec<usize>> = Vec::new();
    let mut self_edge: Vec<Option<NBoolLit>> = Vec::new();
    let mut k: usize = 0;
    while k < n
        invariant
            k <= n,
            in_edges@.len() == k,
            self_edge@.len() == k,
            forall|a: int| 0 <= a < k ==> (#[trigger] in_edges@[a])@.len() == 0,
            forall|a: int| 0 <= a < k ==> (#[trigger] self_edge@[a]) is None,
        decreases n - k,
    {
        in_edges.push(Vec::new());
        self_edge.push(None);
        k += 1;
    }
    let mut i: usize = 0;
    while i < n
        invariant
            env_ok(*norm, *map),
            map_keeps(*old(map), *map),
            norm_grows(*old(norm), *norm),
            csp_vars.wf(),
            n == vars@.len(),
            n <= 0x7fff_ffff,
            forall|a: int| 0 <= a < vars@.len() ==> (#[trigger] vars@[a]).0 < norm.vars.ni(),
            i <= n,
            in_edges@.len() == n,
            self_edge@.len() == n,
            edges_ok(edges@, n as nat, norm.vars.num_bool_var as nat),
            forall|a: int, t: int| 0 <= a < n && 0 <= t < in_edges@[a]@.len() ==> #[trigger] in_edges@[a]@[t] < edges@.len(),
            forall|a: int| 0 <= a < n ==> (#[trigger] self_edge@[a] matches Some(l) ==> l.var.0 < norm.vars.num_bool_var),
        decreases n - i,
    {
        let x = vars[i];
        assert(norm.vars.int_var@[x.0 as int].wf());
        let values = circuit_values(norm.vars.int_var(x));
        let mut valid: Vec<usize> = Vec::new();
        let mut has_out_of_range = false;
        let mut t: usize = 0;
        while t < values.len()
            invariant
                t <= values@.len(),
                forall|a: int| 0 <= a < valid@.len() ==> (#[trigger] valid@[a]) < n,
            decreases values@.len() - t,
        {
            let v = values[t];
            if v >= 0 && (v as usize) < n {
                valid.push(v as usize);
            } else {
                has_out_of_range = true;
            }
            t += 1;
        }
        if has_out_of_range {
            let ge = AuxBoolExpr::Cmp(CmpOp::Ge, Box::new(AuxIntExpr::NVar(x)), Box::new(AuxIntExpr::Const(0)));
            normalize_and_register_expr(csp_vars, norm, map, ge)?;
            let le = AuxBoolExpr::Cmp(CmpOp::Le, Box::new(AuxIntExpr::NVar(x)), Box::new(AuxIntExpr::Const((n - 1) as i32)));
            normalize_and_register_expr(csp_vars, norm, map, le)?;
        }
        let mut q: usize = 0;
        while q < valid.len()
            invariant
                env_ok(*norm, *map),
                map_keeps(*old(map), *map),
                norm_grows(*old(norm), *norm),
                csp_vars.wf(),
                n == vars@.len(),
                i < n,
                forall|a: int| 0 <= a < vars@.len() ==> (#[trigger] vars@[a]).0 < norm.vars.ni(),
                forall|a: int| 0 <= a < valid@.len() ==> (#[trigger] valid@[a]) < n,
                q <= valid@.len(),
                in_edges@.len() == n,
                self_edge@.len() == n,
                edges_ok(edges@, n as nat, norm.vars.num_bool_var as nat),
                forall|a: int, t: int| 0 <= a < n && 0 <= t < in_edges@[a]@.len() ==> #[trigger] in_edges@[a]@[t] < edges@.len(),
                forall|a: int| 0 <= a < n ==> (#[trigger] self_edge@[a] matches Some(l) ==> l.var.0 < norm.vars.num_bool_var),
            decreases valid@.len() - q,
        {
            let j = valid[q];
            let v = fresh_bool_var(norm, map)?;
            let lit = NBoolLit::new(v, false);
            let iff = AuxBoolExpr::Iff(
                Box::new(AuxBoolExpr::NVar(v)),
                Box::new(AuxBoolExpr::Cmp(CmpOp::Eq, Box::new(AuxIntExpr::NVar(x)), Box::new(AuxIntExpr::Const(j as i32)))),
            );
            normalize_and_register_expr(csp_vars, norm, map, iff)?;
            if i != j {
                let idx = edges.len();
                let ghost ie = in_edges@;
                let mut row = in_edges.remove(j);
                row.push(idx);
                in_edges.insert(j, row);
                edges.push((i, j, lit));
                proof {
                    assert forall|a: int, t: int| 0 <= a < n && 0 <= t < in_edges@[a]@.len() implies #[trigger] in_edges@[a]@[t] < edges@.len() by {
                        if a != j {
                            assert(in_edges@[a] == ie[a]);
                        } else if t < ie[a]@.len() {
                            assert(in_edges@[a]@[t] == ie[a]@[t]);
                        }
                    }
                    assert forall|a: int| 0 <= a < edges@.len() implies (#[trigger] edges@[a]).0 < n && edges@[a].1 < n && edges@[a].2.var.0 < norm.vars.num_bool_var by {
                        if a < idx {
                            assert(edges@[a] == edges@.drop_last()[a]);
                        }
                    }
                }
            } else {
                let ghost se = self_edge@;
                self_edge.set(i, Some(lit));
                proof {
                    assert forall|a: int| 0 <= a < n implies (#[trigger] self_edge@[a] matches Some(l) ==> l.var.0 < norm.vars.num_bool_var) by {
                        if a != i {
                            assert(self_edge@[a] == se[a]);
                        }
                    }
                }
            }
            q += 1;
        }
        i += 1;
    }
    let mut a: usize = 0;
    while a < n
        invariant
            env_ok(*norm, *map),
            map_keeps(*old(map), *map),
            norm_grows(*old(norm), *norm),
            a <= n,
            in_edges@.len() == n,
            self_edge@.len() == n,
            edges_ok(edges@, n as nat, norm.vars.num_bool_var as nat),
            forall|b: int, t: int| 0 <= b < n && 0 <= t < in_edges@[b]@.len() ==> #[trigger] in_edges@[b]@[t] < edges@.len(),
            forall|b: int| 0 <= b < n ==> (#[trigger] self_edge@[b] matches Some(l) ==> l.var.0 < norm.vars.num_bool_var),
        decreases n - a,
    {
        let nb = norm.vars.num_bool_var;
        let mut in_lits: Vec<NBoolLit> = Vec::new();
        let row = &in_edges[a];
        let mut t: usize = 0;
        while t < row.len()
            invariant
                *row == in_edges@[a as int],
                a < n,
                in_edges@.len() == n,
                t <= row@.len(),
                edges_ok(edges@, n as nat, nb as nat),
                forall|b: int, s: int| 0 <= b < n && 0 <= s < in_edges@[b]@.len() ==> #[trigger] in_edges@[b]@[s] < edges@.len(),
                forall|s: int| 0 <= s < in_lits@.len() ==> (#[trigger] in_lits@[s]).var.0 < nb,
            decreases row@.len() - t,
        {
            let e = row[t];
            assert(in_edges@[a as int]@[t as int] < edges@.len());
            in_lits.push(edges[e].2);
            t += 1;
        }
        match self_edge[a] {
            Some(l) => {
                in_lits.push(l);
            },
            None => {},
        }
        let m = in_lits.len();
        let mut p: usize = 0;
        while p < m
            invariant
                env_ok(*norm, *map),
                map_keeps(*old(map), *map),
                norm_grows(*old(norm), *norm),
                nb == norm.vars.num_bool_var,
                m == in_lits@.len(),
                p <= m,
                forall|s: int| 0 <= s < in_lits@.len() ==> (#[trigger] in_lits@[s]).var.0 < nb,
            decreases m - p,
        {
            let mut q: usize = p + 1;
            while q < m
                invariant
                    env_ok(*norm, *map),
                    map_keeps(*old(map), *map),
                    norm_grows(*old(norm), *norm),
                    nb == norm.vars.num_bool_var,
                    m == in_lits@.len(),
                    p < m,
                    p + 1 <= q <= m,
                    forall|s: int| 0 <= s < in_lits@.len() ==> (#[trigger] in_lits@[s]).var.0 < nb,
                decreases m - q,
            {
                let mut c = Constraint::new();
                c.add_bool(in_lits[p].negate());
                c.add_bool(in_lits[q].negate());
                add_constraint_ok(norm, map, c);
                q += 1;
            }
            p += 1;
        }
        let c = Constraint { bool_lit: in_lits, linear_lit: Vec::new() };
        add_constraint_ok(norm, map, c);
        a += 1;
    }
    let mut undir: Vec<((usize, usize), NBoolLit)> = Vec::new();
    let mut t: usize = 0;
    while t < edges.len()
        invariant
            t <= edges@.len(),
            edges_ok(edges@, n as nat, norm.vars.num_bool_var as nat),
            keyed_ok(undir@, n as nat, norm.vars.num_bool_var as nat),
        decreases edges@.len() - t,
    {
        let (s, d, l) = edges[t];
        let key = if s < d { (s, d) } else { (d, s) };
        let ghost prev = undir@;
        undir.push((key, l));
        proof {
            assert forall|k: int| 0 <= k < undir@.len() implies (#[trigger] undir@[k]).0.0 < n && undir@[k].0.1 < n && undir@[k].1.var.0 < norm.vars.num_bool_var by {
                if k < prev.len() {
                    assert(undir@[k] == prev[k]);
                }
            }
        }
        t += 1;
    }
    let sorted = sort_by_key(undir, Ghost(n as nat), Ghost(norm.vars.num_bool_var as nat));
    let mut dedup: Vec<((usize, usize), NBoolLit)> = Vec::new();
    let mut i: usize = 0;
    while i < sorted.len()
        invariant
            env_ok(*norm, *map),
            map_keeps(*old(map), *map),
            norm_grows(*old(norm), *norm),
            csp_vars.wf(),
            keyed_ok(sorted@, n as nat, norm.vars.num_bool_var as nat),
            keyed_ok(dedup@, n as nat, norm.vars.num_bool_var as nat),
        decreases sorted@.len() - i,
    {
        let ghost prev = dedup@;
        if i + 1 < sorted.len() && sorted[i].0.0 == sorted[i + 1].0.0 && sorted[i].0.1 == sorted[i + 1].0.1 {
            let lit1 = sorted[i].1;
            let lit2 = sorted[i + 1].1;
            if lit1.negated || lit2.negated {
                return None;
            }
            let v = fresh_bool_var(norm, map)?;
            let mut alts: Vec<Box<AuxBoolExpr>> = Vec::new();
            alts.push(Box::new(AuxBoolExpr::NVar(lit1.var)));
            alts.push(Box::new(AuxBoolExpr::NVar(lit2.var)));
            let iff = AuxBoolExpr::Iff(Box::new(AuxBoolExpr::NVar(v)), Box::new(AuxBoolExpr::Or(alts)));
            normalize_and_register_expr(csp_vars, norm, map, iff)?;
            dedup.push((sorted[i].0, NBoolLit::new(v, false)));
            i += 2;
        } else {
            dedup.push(sorted[i]);
            i += 1;
        }
        proof {
            assert forall|k: int| 0 <= k < dedup@.len() implies (#[trigger] dedup@[k]).0.0 < n && dedup@[k].0.1 < n && dedup@[k].1.var.0 < norm.vars.num_bool_var by {
                if k < prev.len() {
                    assert(dedup@[k] == prev[k]);
                }
            }
        }
    }
    let mut adj: Vec<Vec<usize>> = Vec::new();
    let mut k: usize = 0;
    while k < n
        invariant
            k <= n,
            adj@.len() == k,
        decreases n - k,
    {
        adj.push(Vec::new());
        k += 1;
    }
    let mut idx: usize = 0;
    while idx < dedup.len()
        invariant
            idx <= dedup@.len(),
            adj@.len() == n,
            keyed_ok(dedup@, n as nat, norm.vars.num_bool_var as nat),
        decreases dedup@.len() - idx,
    {
        let (u, v) = dedup[idx].0;
        let mut ru = adj.remove(u);
        ru.push(idx);
        adj.insert(u, ru);
        let mut rv = adj.remove(v);
        rv.push(idx);
        adj.insert(v, rv);
        idx += 1;
    }
    let mut line_edges: Vec<(usize, usize)> = Vec::new();
    let mut a: usize = 0;
    while a < n
        invariant
            a <= n,
            adj@.len() == n,
        decreases n - a,
    {
        let row = &adj[a];
        let mut j: usize = 0;
        while j < row.len()
            invariant
                j <= row@.len(),
            decreases row@.len() - j,
        {
            let mut q: usize = 0;
            while q < j
                invariant
                    q <= j,
                    j < row@.len(),
                decreases j - q,
            {
                line_edges.push((row[j], row[q]));
                q += 1;
            }
            j += 1;
        }
        a += 1;
    }
    let mut vertices: Vec<NBoolLit> = Vec::new();
    let mut t: usize = 0;
    while t < dedup.len()
        invariant
            t <= dedup@.len(),
            vertices@.len() == t,
            keyed_ok(dedup@, n as nat, norm.vars.num_bool_var as nat),
            forall|s: int| 0 <= s < t ==> (#[trigger] vertices@[s]).var.0 < norm.vars.num_bool_var,
        decreases dedup@.len() - t,
    {
        vertices.push(dedup[t].1);
        t += 1;
    }
    add_extra_ok(norm, map, ExtraConstraint::ActiveVerticesConnected(vertices, line_edges));
    Some(())
}

/// `a` comes before `b` in lexicographic order.
fn row_less(a: &Vec<i32>, b: &Vec<i32>) -> (r: bool)
    ensures
        r == row_lex_less(a@, b@),
{
    let mut i: usize = 0;
    while i < a.len() && i < b.len()
        invariant
            i <= a@.len(),
            i <= b@.len(),
            forall|j: int| 0 <= j < i ==> a@[j] == b@[j],
        decreases a@.len() - i,
    {
        if a[i] != b[i] {
            proof {
                lemma_row_lex_first_difference(a@, b@, i as int);
            }
            return a[i] < b[i];
        }
        i += 1;
    }
    proof {
        lemma_row_lex_prefix(a@, b@, i as int);
    }
    a.len() < b.len()
}

/// `a` comes before `b` in lexicographic order: at the first position where
/// they differ `a` is smaller, or `a` is a proper prefix of `b`.
pub open spec fn row_lex_less(a: Seq<i32>, b: Seq<i32>) -> bool {
    exists|k: int| #[trigger] row_lex_at(a, b, k)
}

/// `a` and `b` agree before position `k`, and there `a` is smaller or ends
/// while `b` goes on.
pub open spec fn row_lex_at(a: Seq<i32>, b: Seq<i32>, k: int) -> bool {
    &&& 0 <= k <= a.len()
    &&& k <= b.len()
    &&& forall|j: int| 0 <= j < k ==> a[j] == b[j]
    &&& (k < a.len() && k < b.len() && a[k] < b[k]) || (k == a.len() && k < b.len())
}

proof fn lemma_row_lex_first_difference(a: Seq<i32>, b: Seq<i32>, i: int)
    requires
        0 <= i < a.len(),
        i < b.len(),
        forall|j: int| 0 <= j < i ==> a[j] == b[j],
        a[i] != b[i],
    ensures
        row_lex_less(a, b) == (a[i] < b[i]),
{
    if row_lex_less(a, b) {
        let k = choose|k: int| row_lex_at(a, b, k);
        if k < i {
            assert(a[k] == b[k]);
        } else if k > i {
            assert(a[i] == b[i]);
        }
    }
    if a[i] < b[i] {
        assert(row_lex_at(a, b, i));
    }
}

proof fn lemma_row_lex_prefix(a: Seq<i32>, b: Seq<i32>, i: int)
    requires
        0 <= i,
        i == a.len() || i == b.len(),
        i <= a.len(),
        i <= b.len(),
        forall|j: int| 0 <= j < i ==> a[j] == b[j],
    ensures
        row_lex_less(a, b) == (a.len() < b.len()),
{
    if row_lex_less(a, b) {
        let k = choose|k: int| row_lex_at(a, b, k);
        if k < i {
            assert(a[k] == b[k]);
        }
    }
    if a.len() < b.len() {
        assert(row_lex_at(a, b, i));
    }
}

proof fn lemma_row_lex_asym(a: Seq<i32>, b: Seq<i32>)
    ensures
        !(row_lex_less(a, b) && row_lex_less(b, a)),
{
    if row_lex_less(a, b) && row_lex_less(b, a) {
        let ka = choose|k: int| row_lex_at(a, b, k);
        let kb = choose|k: int| row_lex_at(b, a, k);
        if ka < kb {
            assert(b[ka] == a[ka]);
        } else if kb < ka {
            assert(a[kb] == b[kb]);
        }
    }
}

proof fn lemma_row_lex_trans(a: Seq<i32>, b: Seq<i32>, c: Seq<i32>)
    requires
        row_lex_less(a, b),
        row_lex_less(b, c),
    ensures
        row_lex_less(a, c),
{
    let ka = choose|k: int| row_lex_at(a, b, k);
    let kb = choose|k: int| row_lex_at(b, c, k);
    if ka <= kb {
        if ka < kb {
            assert(b[ka] == c[ka] || ka == b.len());
        }
        assert(row_lex_at(a, c, ka));
    } else {
        assert(a[kb] == b[kb]);
        assert(row_lex_at(a, c, kb));
    }
}

proof fn lemma_row_lex_total(a: Seq<i32>, b: Seq<i32>, i: int)
    requires
        0 <= i <= a.len(),
        i <= b.len(),
        forall|j: int| 0 <= j < i ==> a[j] == b[j],
    ensures
        row_lex_less(a, b) || row_lex_less(b, a) || a == b,
    decreases a.len() - i,
{
    if i == a.len() || i == b.len() {
        if a.len() == b.len() {
            assert(a =~= b);
        } else if a.len() < b.len() {
            assert(row_lex_at(a, b, i));
        } else {
            assert(row_lex_at(b, a, i));
        }
    } else if a[i] != b[i] {
        if a[i] < b[i] {
            assert(row_lex_at(a, b, i));
        } else {
            assert(row_lex_at(b, a, i));
        }
    } else {
        lemma_row_lex_total(a, b, i + 1);
    }
}

/// The rows in lexicographic order.
fn sort_rows(rows: Vec<Vec<i32>>, Ghost(m): Ghost<nat>) -> (r: Vec<Vec<i32>>)
    requires
        forall|k: int| 0 <= k < rows@.len() ==> (#[trigger] rows@[k])@.len() >= m,
    ensures
        forall|k: int| 0 <= k < r@.len() ==> (#[trigger] r@[k])@.len() >= m,
        r@.to_multiset() == rows@.to_multiset(),
        forall|a: int, b: int| 0 <= a < b < r@.len() ==> !row_lex_less(r@[b]@, r@[a]@),
{
    let n = rows.len();
    let ghost r0 = rows@;
    let mut rest = rows;
    let mut out: Vec<Vec<i32>> = Vec::new();
    assert(out@ =~= r0.take(0));
    let mut i: usize = 0;
    while i < n
        invariant
            n == r0.len(),
            i <= n,
            rest@ == r0.subrange(i as int, n as int),
            forall|k: int| 0 <= k < r0.len() ==> (#[trigger] r0[k])@.len() >= m,
            forall|k: int| 0 <= k < out@.len() ==> (#[trigger] out@[k])@.len() >= m,
            out@.to_multiset() == r0.take(i as int).to_multiset(),
            forall|a: int, b: int| 0 <= a < b < out@.len() ==> !row_lex_less(out@[b]@, out@[a]@),
        decreases n - i,
    {
        let item = rest.remove(0);
        assert(item == r0[i as int]);
        let mut pos = out.len();
        while pos > 0 && row_less(&item, &out[pos - 1])
            invariant
                pos <= out@.len(),
                forall|k: int| pos <= k < out@.len() ==> row_lex_less(item@, #[trigger] out@[k]@),
            decreases pos,
        {
            pos -= 1;
        }
        let ghost prev = out@;
        let ghost it = item;
        out.insert(pos, item);
        proof {
            assert(r0.take(i + 1) =~= r0.take(i as int).push(it));
            assert(out@ == prev.insert(pos as int, it));
            vstd::seq_lib::to_multiset_insert(prev, pos as int, it);
            vstd::seq_lib::to_multiset_build(r0.take(i as int), it);
            assert forall|k: int| 0 <= k < out@.len() implies (#[trigger] out@[k])@.len() >= m by {
                if k < pos {
                    assert(out@[k] == prev[k]);
                } else if k == pos {
                    assert(out@[k] == it);
                } else {
                    assert(out@[k] == prev[k - 1]);
                }
            }
            assert forall|a: int, b: int| 0 <= a < b < out@.len() implies !row_lex_less(out@[b]@, out@[a]@) by {
                if b < pos {
                    assert(out@[a] == prev[a] && out@[b] == prev[b]);
                } else if b == pos {
                    assert(out@[a] == prev[a]);
                    let last = prev[pos - 1]@;
                    let va = prev[a]@;
                    assert(!row_lex_less(it@, last));
                    if row_lex_less(it@, va) && va != last {
                        assert(!row_lex_less(last, va));
                        lemma_row_lex_total(va, last, 0);
                        lemma_row_lex_trans(it@, va, last);
                    }
                } else if a < pos {
                    assert(out@[a] == prev[a] && out@[b] == prev[b - 1]);
                } else if a == pos {
                    assert(out@[b] == prev[b - 1]);
                    lemma_row_lex_asym(it@, prev[b - 1]@);
                } else {
                    assert(out@[a] == prev[a - 1] && out@[b] == prev[b - 1]);
                }
            }
        }
        i += 1;
    }
    assert(r0.take(n as int) =~= r0);
    out
}

/// The position of `x` in the strictly increasing `d`.
fn find_index(d: &Vec<i32>, x: i32) -> (r: Option<usize>)
    ensures
        r matches Some(i) ==> i < d@.len() && d@[i as int] == x && forall|j: int| 0 <= j < i ==> d@[j] != x,
        r is None ==> forall|j: int| 0 <= j < d@.len() ==> d@[j] != x,
{
    let mut i: usize = 0;
    while i < d.len()
        invariant
            i <= d@.len(),
            forall|j: int| 0 <= j < i ==> d@[j] != x,
        decreases d@.len() - i,
    {
        if d[i] == x {
            return Some(i);
        }
        i += 1;
    }
    None
}

/// The first `len` entries of `a` and `b` agree.
fn same_prefix(a: &Vec<usize>, b: &Vec<usize>, len: usize) -> (r: bool)
    requires
        len <= a@.len(),
        len <= b@.len(),
    ensures
        r == forall|j: int| 0 <= j < len ==> a@[j] == b@[j],
{
    let mut i: usize = 0;
    while i < len
        invariant
            forall|j: int| 0 <= j < i ==> a@[j] == b@[j],
            i <= len,
            len <= a@.len(),
            len <= b@.len(),
        decreases len - i,
    {
        if a[i] != b[i] {
            return false;
        }
        i += 1;
    }
    true
}

/// Rows of indices into the domains: row `r`, position `k` indexes `domains[k]`.
pub open spec fn rows_ok(rows: Seq<Vec<usize>>, domains: Seq<Vec<i32>>) -> bool {
    &&& forall|r: int| 0 <= r < rows.len() ==> (#[trigger] rows[r])@.len() == domains.len()
    &&& forall|r: int, k: int| 0 <= r < rows.len() && 0 <= k < domains.len() ==> #[trigger] rows[r]@[k] < domains[k]@.len()
}

/// Some row of `supports` has a `None` (wildcard) entry.
pub open spec fn has_wildcard_spec(supports: Seq<Vec<Option<i32>>>) -> bool {
    exists|a: int, b: int| 0 <= a < supports.len() && 0 <= b < supports[a]@.len() && (#[trigger] supports[a]@[b]) is None
}

/// Whether some row of `supports` has a `None` (wildcard) entry.
pub fn has_wildcard(supports: &Vec<Vec<Option<i32>>>) -> (r: bool)
    ensures
        r == has_wildcard_spec(supports@),
{
    let mut a: usize = 0;
    while a < supports.len()
        invariant
            a <= supports@.len(),
            forall|i: int, b: int| 0 <= i < a && 0 <= b < supports@[i]@.len() ==> !((#[trigger] supports@[i]@[b]) is None),
        decreases supports@.len() - a,
    {
        let row = &supports[a];
        let mut b: usize = 0;
        while b < row.len()
            invariant
                a < supports@.len(),
                *row == supports@[a as int],
                b <= row@.len(),
                forall|j: int| 0 <= j < b ==> !(row@[j] is None),
            decreases row@.len() - b,
        {
            if row[b].is_none() {
                return true;
            }
            b += 1;
        }
        a += 1;
    }
    false
}

/// The values `vals` of the normalized variables match `row` on the first
/// `len` variables of `vars`: where the row has a value, the variable takes
/// it; `None` matches any value.
pub open spec fn row_matches(row: Seq<Option<i32>>, vars: Seq<NIntVar>, vals: Seq<int>, len: int) -> bool {
    forall|b: int| 0 <= b < len ==> (#[trigger] row[b] matches Some(c) ==> vals[vars[b].0 as int] == c)
}

/// Some row of `rows` (taking the first `count`) matches `vals`.
pub open spec fn some_row_matches(rows: Seq<Vec<Option<i32>>>, vars: Seq<NIntVar>, vals: Seq<int>, count: int) -> bool {
    exists|a: int| 0 <= a < count && row_matches(#[trigger] rows[a]@, vars, vals, vars.len() as int)
}

proof fn lemma_all_push(es: Seq<Box<AuxBoolExpr>>, e: Box<AuxBoolExpr>, env: Env, nenv: Env)
    ensures
        aux_eval_all(es.push(e), env, nenv) == (aux_eval_all(es, env, nenv) && aux_eval_bool(*e, env, nenv)),
{
    let t = es.push(e);
    if aux_eval_all(es, env, nenv) && aux_eval_bool(*e, env, nenv) {
        assert forall|i: int| 0 <= i < t.len() implies aux_eval_bool(*#[trigger] t[i], env, nenv) by {
            if i < es.len() {
                assert(t[i] == es[i]);
            }
        }
    }
    if aux_eval_all(t, env, nenv) {
        assert forall|i: int| 0 <= i < es.len() implies aux_eval_bool(*#[trigger] es[i], env, nenv) by {
            assert(t[i] == es[i]);
        }
        assert(aux_eval_bool(*t[es.len() as int], env, nenv));
    }
}

proof fn lemma_any_push(es: Seq<Box<AuxBoolExpr>>, e: Box<AuxBoolExpr>, env: Env, nenv: Env)
    ensures
        aux_eval_any(es.push(e), env, nenv) == (aux_eval_any(es, env, nenv) || aux_eval_bool(*e, env, nenv)),
{
    let t = es.push(e);
    if aux_eval_any(t, env, nenv) {
        let i = choose|i: int| 0 <= i < t.len() && aux_eval_bool(*#[trigger] t[i], env, nenv);
        if i < es.len() {
            assert(t[i] == es[i]);
        }
    }
    if aux_eval_any(es, env, nenv) {
        let i = choose|i: int| 0 <= i < es.len() && aux_eval_bool(*#[trigger] es[i], env, nenv);
        assert(t[i] == es[i]);
    }
    if aux_eval_bool(*e, env, nenv) {
        assert(t[es.len() as int] == e);
    }
}

/// The formula of an extension constraint with wildcards: it holds exactly
/// when the values of `vars` match some row of `supports`. `None` when a
/// row does not have one entry per variable.
pub fn supports_expr(vars: &Vec<NIntVar>, supports: &Vec<Vec<Option<i32>>>) -> (r: Option<AuxBoolExpr>)
    ensures
        r is None <==> exists|a: int| 0 <= a < supports@.len() && (#[trigger] supports@[a])@.len() != vars@.len(),
        r matches Some(e) ==> forall|env: Env, nenv: Env| #[trigger] aux_eval_bool(e, env, nenv)
            <==> some_row_matches(supports@, vars@, nenv.ints, supports@.len() as int),
{
    let nv = vars.len();
    let mut alts: Vec<Box<AuxBoolExpr>> = Vec::new();
    let mut a: usize = 0;
    while a < supports.len()
        invariant
            a <= supports@.len(),
            nv == vars@.len(),
            forall|i: int| 0 <= i < a ==> (#[trigger] supports@[i])@.len() == nv,
            forall|env: Env, nenv: Env| #[trigger] aux_eval_any(alts@, env, nenv)
                <==> some_row_matches(supports@, vars@, nenv.ints, a as int),
        decreases supports@.len() - a,
    {
        let row = &supports[a];
        if row.len() != nv {
            return None;
        }
        let mut conj: Vec<Box<AuxBoolExpr>> = Vec::new();
        let mut b: usize = 0;
        while b < nv
            invariant
                b <= nv,
                nv == vars@.len(),
                row@.len() == nv,
                forall|env: Env, nenv: Env| #[trigger] aux_eval_all(conj@, env, nenv)
                    <==> row_matches(row@, vars@, nenv.ints, b as int),
            decreases nv - b,
        {
            let ghost prev = conj@;
            match row[b] {
                Some(c) => {
                    let e = Box::new(AuxBoolExpr::Cmp(CmpOp::Eq, Box::new(AuxIntExpr::NVar(vars[b])), Box::new(AuxIntExpr::Const(c))));
                    conj.push(e);
                    proof {
                        assert(row@[b as int] == Some(c));
                        assert forall|env: Env, nenv: Env| #[trigger] aux_eval_all(conj@, env, nenv)
                            <==> row_matches(row@, vars@, nenv.ints, b + 1) by {
                            lemma_all_push(prev, e, env, nenv);
                            let x = AuxIntExpr::NVar(vars@[b as int]);
                            let y = AuxIntExpr::Const(c);
                            assert(*e == AuxBoolExpr::Cmp(CmpOp::Eq, Box::new(x), Box::new(y)));
                            assert(aux_eval_int(x, env, nenv) == nenv.ints[vars@[b as int].0 as int]);
                            assert(aux_eval_int(y, env, nenv) == c as int);
                            assert(aux_eval_bool(*e, env, nenv) == (nenv.ints[vars@[b as int].0 as int] == c as int));
                            if row_matches(row@, vars@, nenv.ints, b as int) && aux_eval_bool(*e, env, nenv) {
                                assert forall|j: int| 0 <= j < b + 1 implies (#[trigger] row@[j] matches Some(d) ==> nenv.ints[vars@[j].0 as int] == d) by {
                                    if j < b {
                                        assert(row_matches(row@, vars@, nenv.ints, b as int));
                                    }
                                }
                            }
                            if row_matches(row@, vars@, nenv.ints, b + 1) {
                                assert(row@[b as int] matches Some(d) ==> nenv.ints[vars@[b as int].0 as int] == d);
                                assert forall|j: int| 0 <= j < b implies (#[trigger] row@[j] matches Some(d) ==> nenv.ints[vars@[j].0 as int] == d) by {
                                    assert(row@[j] matches Some(d) ==> nenv.ints[vars@[j].0 as int] == d);
                                }
                            }
                        }
                    }
                },
                None => {
                    proof {
                        assert(row@[b as int] is None);
                        assert forall|env: Env, nenv: Env| #[trigger] aux_eval_all(conj@, env, nenv)
                            <==> row_matches(row@, vars@, nenv.ints, b + 1) by {
                            if row_matches(row@, vars@, nenv.ints, b as int) {
                                assert forall|j: int| 0 <= j < b + 1 implies (#[trigger] row@[j] matches Some(d) ==> nenv.ints[vars@[j].0 as int] == d) by {
                                    if j < b {
                                        assert(row_matches(row@, vars@, nenv.ints, b as int));
                                    } else {
                                        assert(row@[j] is None);
                                    }
                                }
                            }
                            if row_matches(row@, vars@, nenv.ints, b + 1) {
                                assert forall|j: int| 0 <= j < b implies (#[trigger] row@[j] matches Some(d) ==> nenv.ints[vars@[j].0 as int] == d) by {
                                    assert(row@[j] matches Some(d) ==> nenv.ints[vars@[j].0 as int] == d);
                                }
                            }
                        }
                    }
                },
            }
            b += 1;
        }
        let ghost prev_alts = alts@;
        let e = Box::new(AuxBoolExpr::And(conj));
        alts.push(e);
        proof {
            assert forall|env: Env, nenv: Env| #[trigger] aux_eval_any(alts@, env, nenv)
                <==> some_row_matches(supports@, vars@, nenv.ints, a + 1) by {
                lemma_any_push(prev_alts, e, env, nenv);
                assert(aux_eval_bool(*e, env, nenv) == aux_eval_all(conj@, env, nenv));
                if some_row_matches(supports@, vars@, nenv.ints, a + 1) {
                    let i = choose|i: int| 0 <= i < a + 1 && row_matches(#[trigger] supports@[i]@, vars@, nenv.ints, vars@.len() as int);
                    if i < a {
                        assert(some_row_matches(supports@, vars@, nenv.ints, a as int));
                    }
                }
                if some_row_matches(supports@, vars@, nenv.ints, a as int) {
                    let i = choose|i: int| 0 <= i < a && row_matches(#[trigger] supports@[i]@, vars@, nenv.ints, vars@.len() as int);
                    assert(some_row_matches(supports@, vars@, nenv.ints, a + 1));
                }
                if aux_eval_all(conj@, env, nenv) {
                    assert(row_matches(supports@[a as int]@, vars@, nenv.ints, vars@.len() as int));
                    assert(some_row_matches(supports@, vars@, nenv.ints, a + 1));
                }
            }
        }
        a += 1;
    }
    let r = AuxBoolExpr::Or(alts);
    assert forall|env: Env, nenv: Env| #[trigger] aux_eval_bool(r, env, nenv)
        <==> some_row_matches(supports@, vars@, nenv.ints, supports@.len() as int) by {
        assert(aux_eval_bool(r, env, nenv) == aux_eval_any(alts@, env, nenv));
    }
    Some(r)
}

/// The clauses of an extension constraint: the values of `vars` form one of
/// the rows of `supports` (`None` in a row allows any value). With the
/// native option the constraint is kept as it is.
pub fn normalize_extension_supports(
    csp_vars: &CSPVars,
    norm: &mut NormCSP,
    map: &mut NormalizeMap,
    config: &Config,
    vars: Vec<NIntVar>,
    supports: Vec<Vec<Option<i32>>>,
) -> (r: Option<()>)
    requires
        env_ok(*old(norm), *old(map)),
        csp_vars.wf(),
        forall|k: int| 0 <= k < vars@.len() ==> (#[trigger] vars@[k]).0 < old(norm).vars.ni(),
    ensures
        env_ok(*final(norm), *final(map)),
        map_keeps(*old(map), *final(map)),
        norm_grows(*old(norm), *final(norm)),
        !config.use_native_extension_supports && has_wildcard_spec(supports@)
            && (exists|a: int| 0 <= a < supports@.len() && (#[trigger] supports@[a])@.len() != vars@.len()) ==> r is None,
        !config.use_native_extension_supports && !has_wildcard_spec(supports@)
            && (exists|a: int| 0 <= a < supports@.len() && (#[trigger] supports@[a])@.len() < vars@.len()) ==> r is None,
{
    if config.use_native_extension_supports {
        add_extra_ok(norm, map, ExtraConstraint::ExtensionSupports(vars, supports));
        return Some(());
    }
    let nv = vars.len();
    let has_star = has_wildcard(&supports);
    if has_star {
        let e = match supports_expr(&vars, &supports) {
            Some(e) => e,
            None => {
                return None;
            },
        };
        return normalize_and_register_expr(csp_vars, norm, map, e);
    }
    let mut domains: Vec<Vec<i32>> = Vec::new();
    let mut k: usize = 0;
    while k < nv
        invariant
            norm.vars.wf(),
            nv == vars@.len(),
            k <= nv,
            domains@.len() == k,
            forall|j: int| 0 <= j < vars@.len() ==> (#[trigger] vars@[j]).0 < norm.vars.ni(),
        decreases nv - k,
    {
        assert(norm.vars.int_var@[vars@[k as int].0 as int].wf());
        domains.push(norm.vars.int_var(vars[k]).enumerate());
        k += 1;
    }
    let mut rows: Vec<Vec<i32>> = Vec::new();
    let mut a: usize = 0;
    while a < supports.len()
        invariant
            a <= supports@.len(),
            !has_wildcard_spec(supports@),
            forall|j: int| 0 <= j < a ==> (#[trigger] supports@[j])@.len() >= nv,
            forall|j: int| 0 <= j < rows@.len() ==> (#[trigger] rows@[j])@.len() >= nv,
            env_ok(*norm, *map),
            map_keeps(*old(map), *map),
            *norm == *old(norm),
        decreases supports@.len() - a,
    {
        let row = &supports[a];
        if row.len() < nv {
            return None;
        }
        let mut vals: Vec<i32> = Vec::new();
        let mut b: usize = 0;
        while b < row.len()
            invariant
                a < supports@.len(),
                *row == supports@[a as int],
                !has_wildcard_spec(supports@),
                b <= row@.len(),
                vals@.len() == b,
                forall|j: int| 0 <= j < b ==> row@[j] == Some(#[trigger] vals@[j]),
            decreases row@.len() - b,
        {
            assert(!(supports@[a as int]@[b as int] is None));
            vals.push(row[b].unwrap());
            b += 1;
        }
        rows.push(vals);
        a += 1;
    }
    let rows = sort_rows(rows, Ghost(nv as nat));
    let mut idx_rows: Vec<Vec<usize>> = Vec::new();
    let mut a: usize = 0;
    while a < rows.len()
        invariant
            a <= rows@.len(),
            nv == domains@.len(),
            forall|j: int| 0 <= j < rows@.len() ==> (#[trigger] rows@[j])@.len() >= nv,
            rows_ok(idx_rows@, domains@),
        decreases rows@.len() - a,
    {
        let support = &rows[a];
        let mut row: Vec<usize> = Vec::new();
        let mut b: usize = 0;
        let mut complete = true;
        while b < nv
            invariant
                b <= nv,
                nv == domains@.len(),
                support@.len() >= nv,
                row@.len() == b,
                forall|j: int| 0 <= j < b ==> (#[trigger] row@[j]) < domains@[j]@.len(),
            decreases nv - b,
        {
            match find_index(&domains[b], support[b]) {
                Some(i) => {
                    row.push(i);
                },
                None => {
                    complete = false;
                    break;
                },
            }
            b += 1;
        }
        if complete && row.len() == nv {
            let ghost prev = idx_rows@;
            let ghost rw = row;
            idx_rows.push(row);
            proof {
                assert forall|r: int| 0 <= r < idx_rows@.len() implies (#[trigger] idx_rows@[r])@.len() == domains@.len() by {
                    if r < prev.len() {
                        assert(idx_rows@[r] == prev[r]);
                    } else {
                        assert(idx_rows@[r] == rw);
                    }
                }
                assert forall|r: int, j: int| 0 <= r < idx_rows@.len() && 0 <= j < domains@.len() implies #[trigger] idx_rows@[r]@[j] < domains@[j]@.len() by {
                    if r < prev.len() {
                        assert(idx_rows@[r] == prev[r]);
                    } else {
                        assert(idx_rows@[r] == rw);
                    }
                }
            }
        }
        a += 1;
    }
    let total = idx_rows.len();
    let mut n_prefix: usize = 0;
    while n_prefix < nv
        invariant
            env_ok(*norm, *map),
            map_keeps(*old(map), *map),
            norm_grows(*old(norm), *norm),
            n_prefix <= nv,
            nv == domains@.len(),
            nv == vars@.len(),
            total == idx_rows@.len(),
            rows_ok(idx_rows@, domains@),
            forall|j: int| 0 <= j < vars@.len() ==> (#[trigger] vars@[j]).0 < norm.vars.ni(),
        decreases nv - n_prefix,
    {
        let mut left: usize = 0;
        while left < total
            invariant
                env_ok(*norm, *map),
                map_keeps(*old(map), *map),
                norm_grows(*old(norm), *norm),
                n_prefix < nv,
                nv == domains@.len(),
                nv == vars@.len(),
                total == idx_rows@.len(),
                left <= total,
                rows_ok(idx_rows@, domains@),
                forall|j: int| 0 <= j < vars@.len() ==> (#[trigger] vars@[j]).0 < norm.vars.ni(),
            decreases total - left,
        {
            assert(idx_rows@[left as int]@.len() == nv);
            let mut right = left + 1;
            while right < total && same_prefix(&idx_rows[left], &idx_rows[right], n_prefix)
                invariant
                    left < right <= total,
                    total == idx_rows@.len(),
                    n_prefix < nv,
                    nv == domains@.len(),
                    rows_ok(idx_rows@, domains@),
                decreases total - right,
            {
                assert(idx_rows@[right as int]@.len() == nv);
                right += 1;
            }
            let mut vi = n_prefix;
            while vi < nv
                invariant
                    env_ok(*norm, *map),
                    map_keeps(*old(map), *map),
                    norm_grows(*old(norm), *norm),
                    n_prefix <= vi <= nv,
                    nv == domains@.len(),
                    nv == vars@.len(),
                    total == idx_rows@.len(),
                    left < right <= total,
                    rows_ok(idx_rows@, domains@),
                    forall|j: int| 0 <= j < vars@.len() ==> (#[trigger] vars@[j]).0 < norm.vars.ni(),
                decreases nv - vi,
            {
                let dlen = domains[vi].len();
                let mut has_val: Vec<bool> = Vec::new();
                let mut t: usize = 0;
                while t < dlen
                    invariant
                        t <= dlen,
                        has_val@.len() == t,
                    decreases dlen - t,
                {
                    has_val.push(false);
                    t += 1;
                }
                let mut i: usize = left;
                while i < right
                    invariant
                        left <= i <= right,
                        right <= total,
                        total == idx_rows@.len(),
                        vi < nv,
                        nv == domains@.len(),
                        dlen == domains@[vi as int]@.len(),
                        has_val@.len() == dlen,
                        rows_ok(idx_rows@, domains@),
                    decreases right - i,
                {
                    assert(idx_rows@[i as int]@[vi as int] < domains@[vi as int]@.len());
                    let pos = idx_rows[i][vi];
                    has_val.set(pos, true);
                    i += 1;
                }
                let mut all = true;
                let mut t: usize = 0;
                while t < dlen
                    invariant
                        t <= dlen,
                        has_val@.len() == dlen,
                    decreases dlen - t,
                {
                    if !has_val[t] {
                        all = false;
                    }
                    t += 1;
                }
                if !all {
                    let mut constraint = Constraint::new();
                    let mut p: usize = 0;
                    while p < n_prefix
                        invariant
                            p <= n_prefix,
                            n_prefix < nv,
                            nv == domains@.len(),
                            nv == vars@.len(),
                            left < total,
                            total == idx_rows@.len(),
                            rows_ok(idx_rows@, domains@),
                            forall|j: int| 0 <= j < vars@.len() ==> (#[trigger] vars@[j]).0 < norm.vars.ni(),
                            constraint_ok(constraint, norm.vars.num_bool_var as nat, norm.vars.ni()),
                            env_ok(*norm, *map),
                            map_keeps(*old(map), *map),
                            norm_grows(*old(norm), *norm),
                        decreases n_prefix - p,
                    {
                        assert(idx_rows@[left as int]@[p as int] < domains@[p as int]@.len());
                        let value = domains[p][idx_rows[left][p]];
                        let lit = value_lit(norm, vars[p], value, CmpOp::Ne)?;
                        let ghost lv = constraint.linear_lit@;
                        constraint.add_linear(lit);
                        proof {
                            assert forall|q: int| 0 <= q < constraint.linear_lit@.len() implies super::linear_lit_ok(#[trigger] constraint.linear_lit@[q], norm.vars.ni()) by {
                                if q < lv.len() {
                                    assert(constraint.linear_lit@[q] == lv[q]);
                                }
                            }
                        }
                        p += 1;
                    }
                    let mut t: usize = 0;
                    while t < dlen
                        invariant
                            t <= dlen,
                            has_val@.len() == dlen,
                            vi < nv,
                            nv == domains@.len(),
                            nv == vars@.len(),
                            dlen == domains@[vi as int]@.len(),
                            forall|j: int| 0 <= j < vars@.len() ==> (#[trigger] vars@[j]).0 < norm.vars.ni(),
                            constraint_ok(constraint, norm.vars.num_bool_var as nat, norm.vars.ni()),
                            env_ok(*norm, *map),
                            map_keeps(*old(map), *map),
                            norm_grows(*old(norm), *norm),
                        decreases dlen - t,
                    {
                        if has_val[t] {
                            let lit = value_lit(norm, vars[vi], domains[vi][t], CmpOp::Eq)?;
                            let ghost lv = constraint.linear_lit@;
                            constraint.add_linear(lit);
                            proof {
                                assert forall|q: int| 0 <= q < constraint.linear_lit@.len() implies super::linear_lit_ok(#[trigger] constraint.linear_lit@[q], norm.vars.ni()) by {
                                    if q < lv.len() {
                                        assert(constraint.linear_lit@[q] == lv[q]);
                                    }
                                }
                            }
                        }
                        t += 1;
                    }
                    add_constraint_ok(norm, map, constraint);
                }
                vi += 1;
            }
            left = right;
        }
        n_prefix += 1;
    }
    Some(())
}

} // verus!
