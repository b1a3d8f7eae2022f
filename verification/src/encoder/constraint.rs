use vstd::prelude::*;

use super::decompose::{all_vars_encoded, decompose_linear_lit, encoded_below, map_extends};
use super::direct::{
    all_direct, direct_reads, direct_reads_sum, encode_linear_eq_direct, encode_linear_ne_direct,
    encode_simple_linear_direct_encoding, LinearInfoForDirectEncoding,
};
use super::mixed::{all_encoded, encode_linear_ge_mixed, reads_sum};
use super::native::{add_clause_set, encode_linear_ge_order_encoding_native, is_ge_order_encoding_native_applicable};
use super::{clauses_kept, lemma_clauses_kept_trans, clauses_in_range, is_unsatisfiable_linear, suggest_encoder, ClauseSet, EncodeMap, EncoderKind, Encoding};
use crate::arithmetic::CmpOp;
use crate::config::Config;
use crate::norm_csp::{BoolLit, Constraint, LinearLit, LinearSum, NormCSPVars};
use crate::sat::{clause_holds, clause_in_range, clauses_hold, lit_holds, lit_wf, Lit, SAT};
use crate::arithmetic::op_holds;
use crate::norm_csp::linear::lemma_terms_value_single;
use super::exactly_one;

verus! {

/// The SAT literal that `map` gives the Boolean literal `b`.
pub open spec fn sat_lit_of(map: EncodeMap, b: BoolLit) -> Lit {
    if b.negated {
        map.bool_lit(b.var.0 as int)->0.spec_not()
    } else {
        map.bool_lit(b.var.0 as int)->0
    }
}

/// Negating the sum and shifting it by one stays within `i32`.
pub open spec fn sum_negatable(sum: LinearSum) -> bool {
    &&& -0x7fff_fffe <= sum.constant <= 0x7fff_fffe
    &&& forall|i: int| 0 <= i < sum.term@.len() ==> -0x7fff_ffff <= (#[trigger] sum.term@[i]).1
}

/// The linear literals of a constraint can be encoded with `map`.
pub open spec fn linears_ok(map: EncodeMap, lits: Seq<LinearLit>) -> bool {
    forall|k: int|
        0 <= k < lits.len() ==> (#[trigger] lits[k]).sum.wf() && all_encoded(map, lits[k].sum) && sum_negatable(
            lits[k].sum,
        )
}

/// The state shared by the encoding steps.
pub open spec fn env_ok(norm_vars: NormCSPVars, sat: SAT, map: EncodeMap) -> bool {
    &&& sat.wf()
    &&& map.wf(sat.spec_num_vars())
    &&& norm_vars.wf()
    &&& encoded_below(map, norm_vars.ni())
}

fn neg_sum(sum: &LinearSum) -> (r: LinearSum)
    requires
        sum.wf(),
        sum_negatable(*sum),
    ensures
        r.wf(),
        r.term@.len() == sum.term@.len(),
        forall|i: int| 0 <= i < r.term@.len() ==> (#[trigger] r.term@[i]).0 == sum.term@[i].0,
        r.constant == -sum.constant,
{
    sum.scale(-1)
}

fn shifted(sum: &LinearSum, c: i32) -> (r: LinearSum)
    requires
        sum.wf(),
        -0x7fff_ffff <= sum.constant <= 0x7fff_ffff,
        c == -1 || c == 0,
    ensures
        r.wf(),
        r.term@ == sum.term@,
        r.constant == sum.constant + c,
{
    sum.add_constant(c)
}

/// `all_encoded` carries over to a sum with the same variables.
proof fn lemma_same_vars_encoded(map: EncodeMap, a: LinearSum, b: LinearSum)
    requires
        all_encoded(map, a),
        b.term@.len() == a.term@.len(),
        forall|i: int| 0 <= i < b.term@.len() ==> (#[trigger] b.term@[i]).0 == a.term@[i].0,
    ensures
        all_encoded(map, b),
{
    assert forall|i: int| 0 <= i < b.term@.len() implies (#[trigger] map.int_enc(b.term@[i].0.0 as int)) is Some by {
        assert(map.int_enc(a.term@[i].0.0 as int) is Some);
    }
}

/// `all_encoded` survives growing the map.
proof fn lemma_encoded_extends(new: EncodeMap, old: EncodeMap, s: LinearSum)
    requires
        all_encoded(old, s),
        map_extends(new, old),
    ensures
        all_encoded(new, s),
{
    assert forall|i: int| 0 <= i < s.term@.len() implies (#[trigger] new.int_enc(s.term@[i].0.0 as int)) is Some by {
        assert(old.int_enc(s.term@[i].0.0 as int) is Some);
    }
}

/// Decomposed literals ready for encoding: well formed, encoded, and of a
/// form that the encoders take.
pub open spec fn decomposed_ok(map: EncodeMap, lits: Seq<LinearLit>) -> bool {
    forall|k: int| 0 <= k < lits.len() ==> (#[trigger] lits[k]).sum.wf() && all_encoded(map, lits[k].sum)
}

proof fn lemma_decomposed_extends(new: EncodeMap, old: EncodeMap, groups: Seq<Vec<LinearLit>>)
    requires
        forall|g: int| 0 <= g < groups.len() ==> decomposed_ok(old, (#[trigger] groups[g])@),
        map_extends(new, old),
    ensures
        forall|g: int| 0 <= g < groups.len() ==> decomposed_ok(new, (#[trigger] groups[g])@),
{
    assert forall|g: int| 0 <= g < groups.len() implies decomposed_ok(new, (#[trigger] groups[g])@) by {
        assert forall|k: int| 0 <= k < groups[g]@.len() implies (#[trigger] groups[g]@[k]).sum.wf() && all_encoded(
            new,
            groups[g]@[k].sum,
        ) by {
            assert(decomposed_ok(old, groups[g]@));
            lemma_encoded_extends(new, old, groups[g]@[k].sum);
        }
    }
}

pub proof fn lemma_map_extends_trans(a: EncodeMap, b: EncodeMap, c: EncodeMap)
    requires
        map_extends(b, a),
        map_extends(c, b),
    ensures
        map_extends(c, a),
{
}

/// Encodes one term `x op -constant` over a single direct-encoded variable.
fn simple_direct(map: &EncodeMap, sat: &SAT, lit: &LinearLit) -> (r: Option<Vec<Lit>>)
    requires
        map.wf(sat.spec_num_vars()),
        lit.sum.wf(),
        lit.sum.term@.len() == 1,
        map.int_enc(lit.sum.term@[0].0.0 as int) matches Some(Encoding::Direct(_)),
    ensures
        r matches Some(c) ==> clause_in_range(c@, sat.spec_num_vars() as int),
        r is None <==> forall|i: int|
            0 <= i < map.int_enc(lit.sum.term@[0].0.0 as int)->0->Direct_0.domain@.len() ==> op_holds(
                lit.op,
                map.int_enc(lit.sum.term@[0].0.0 as int)->0->Direct_0.domain@[i] * lit.sum.term@[0].1 + lit.sum.constant,
                0,
            ),
        r matches Some(c) ==> forall|m: Seq<bool>, vals: Seq<int>|
            #[trigger] direct_reads_sum(*map, lit.sum, m, vals) ==> (clause_holds(m, c@) <==> lit.holds(vals)),
{
    let ghost n = sat.spec_num_vars();
    let (var, coef) = lit.sum.term[0];
    assert(lit.sum.term@[0].1 != 0);
    let slot = map.int_encoding(var);
    assert(map.int_enc(var.0 as int)->0.wf(n));
    match slot {
        Some(Encoding::Direct(e)) => {
            let info = LinearInfoForDirectEncoding::new(coef, e);
            let r = encode_simple_linear_direct_encoding(&info, lit.op, lit.sum.constant);
            proof {
                assert(lit.sum.term@ =~= seq![(var, coef)]);
                if r is Some {
                    let c = r->0;
                    assert forall|m: Seq<bool>, vals: Seq<int>| #[trigger] direct_reads_sum(*map, lit.sum, m, vals) implies (clause_holds(
                        m,
                        c@,
                    ) <==> lit.holds(vals)) by {
                        let val = vals[var.0 as int];
                        assert(map.int_enc(lit.sum.term@[0].0.0 as int) == Some(Encoding::Direct(*e)));
                        assert(direct_reads(*e, m, val));
                        let i = choose|i: int| 0 <= i < e.domain@.len() && e.domain@[i] == val;
                        assert forall|j: int| 0 <= j < e.lits@.len() && j != i implies !lit_holds(m, e.lits@[j]) by {
                            if j < i {
                                assert(e.domain@[j] < e.domain@[i]);
                            } else {
                                assert(e.domain@[i] < e.domain@[j]);
                            }
                        }
                        assert(lit_holds(m, e.lits@[i]));
                        assert(exactly_one(m, info.encoding.lits@, i));
                        lemma_terms_value_single((var, coef), vals);
                        assert(e.domain@[i] * coef == coef * val) by (nonlinear_arith)
                            requires
                                e.domain@[i] == val,
                        ;
                    }
                }
                if r is Some {
                    let c = r->0;
                    assert forall|k: int| 0 <= k < c@.len() implies lit_wf(#[trigger] c@[k]) && c@[k].spec_var().0 < n by {
                        let i = choose|i: int| 0 <= i < info.size() && (c@[k] == info.encoding.lits@[i] || c@[k] == info.encoding.lits@[i].spec_not());
                        assert(e.lits@[i].spec_var().0 < n);
                    }
                }
            }
            r
        },
        _ => None,
    }
}

/// Clauses whose disjunction with the other literals of a constraint
/// encodes `lit`, or the native constraint when it applies.
/// Encodes a constraint: a disjunction of Boolean literals and linear
/// literals over integer variables whose encodings are in `map`.
pub fn encode_constraint(
    norm_vars: &mut NormCSPVars,
    sat: &mut SAT,
    map: &mut EncodeMap,
    config: &Config,
    constr: Constraint,
)
    requires
        env_ok(*old(norm_vars), *old(sat), *old(map)),
        linears_ok(*old(map), constr.linear_lit@),
    ensures
        env_ok(*final(norm_vars), *final(sat), *final(map)),
        map_extends(*final(map), *old(map)),
        final(norm_vars).ni() >= old(norm_vars).ni(),
        final(norm_vars).num_bool_var == old(norm_vars).num_bool_var,
        all_vars_encoded(*old(map), old(norm_vars).ni()) ==> all_vars_encoded(*final(map), final(norm_vars).ni()),
        final(sat).spec_num_vars() >= old(sat).spec_num_vars(),
        final(sat).spec_backend() == old(sat).spec_backend(),
        old(sat).spec_exhausted() ==> final(sat).spec_exhausted(),
        clauses_kept(*old(sat), *final(sat)),
        constr.linear_lit@.len() == 0 ==> final(sat).spec_clauses() == old(sat).spec_clauses().push(
            constr.bool_lit@.map_values(|b: BoolLit| sat_lit_of(*final(map), b)),
        ),
{
    let ghost map0 = *map;
    let ghost covered0 = all_vars_encoded(*old(map), old(norm_vars).ni());
    let mut bool_lits: Vec<Lit> = Vec::new();
    let mut i: usize = 0;
    while i < constr.bool_lit.len()
        invariant
            clauses_kept(*old(sat), *sat),
            env_ok(*norm_vars, *sat, *map),
            map_extends(*map, map0),
            map0 == *old(map),
            *norm_vars == *old(norm_vars),
            covered0 == all_vars_encoded(*old(map), old(norm_vars).ni()),
            covered0 ==> all_vars_encoded(*map, norm_vars.ni()),
            sat.spec_num_vars() >= old(sat).spec_num_vars(),
            sat.spec_backend() == old(sat).spec_backend(),
            old(sat).spec_exhausted() ==> sat.spec_exhausted(),
            i <= constr.bool_lit@.len(),
            clause_in_range(bool_lits@, sat.spec_num_vars() as int),
            sat.spec_clauses() == old(sat).spec_clauses(),
            bool_lits@ == constr.bool_lit@.take(i as int).map_values(|b: BoolLit| sat_lit_of(*map, b)),
            forall|k: int| 0 <= k < i ==> (#[trigger] map.bool_lit(constr.bool_lit@[k].var.0 as int)) is Some,
        decreases constr.bool_lit@.len() - i,
    {
        let ghost n0 = sat.spec_num_vars();
        let ghost m0 = *map;
        let l = map.convert_bool_lit(sat, constr.bool_lit[i]);
        proof {
            assert forall|v: int| (#[trigger] map.int_enc(v)) is Some implies 0 <= v < norm_vars.ni() by {
                assert(m0.int_enc(v) is Some);
            }
            if covered0 {
                assert forall|v: int| 0 <= v < norm_vars.ni() implies (#[trigger] map.int_enc(v)) is Some by {
                    assert(m0.int_enc(v) is Some);
                }
            }
        }
        let ghost prev_lits = bool_lits@;
        bool_lits.push(l);
        proof {
            assert forall|k: int| 0 <= k < i + 1 implies (#[trigger] map.bool_lit(constr.bool_lit@[k].var.0 as int)) is Some by {
                if k < i {
                    assert(m0.bool_lit(constr.bool_lit@[k].var.0 as int) is Some);
                }
            }
            assert forall|k: int| 0 <= k < i implies sat_lit_of(*map, #[trigger] constr.bool_lit@[k]) == sat_lit_of(m0, constr.bool_lit@[k]) by {
                assert(m0.bool_lit(constr.bool_lit@[k].var.0 as int) is Some);
            }
            assert(bool_lits@ =~= constr.bool_lit@.take(i + 1).map_values(|b: BoolLit| sat_lit_of(*map, b))) by {
                assert forall|k: int| 0 <= k < i + 1 implies #[trigger] bool_lits@[k] == sat_lit_of(*map, constr.bool_lit@[k]) by {
                    if k < i {
                        assert(bool_lits@[k] == prev_lits[k]);
                        assert(prev_lits[k] == sat_lit_of(m0, constr.bool_lit@[k]));
                    }
                }
            }
            assert forall|k: int| 0 <= k < bool_lits@.len() implies lit_wf(#[trigger] bool_lits@[k]) && bool_lits@[k].spec_var().0 < sat.spec_num_vars() by {
                if k < bool_lits@.len() - 1 {
                    assert(bool_lits@[k] == bool_lits@.drop_last()[k]);
                }
            }
        }
        i += 1;
    }
    if constr.linear_lit.len() == 0 {
        proof {
            assert(constr.bool_lit@.take(i as int) =~= constr.bool_lit@);
        }
        sat.add_clause(bool_lits.as_slice());
        return;
    }
    proof {
        assert forall|k: int| 0 <= k < constr.linear_lit@.len() implies (#[trigger] constr.linear_lit@[k]).sum.wf() && all_encoded(*map, constr.linear_lit@[k].sum) && sum_negatable(constr.linear_lit@[k].sum) by {
            lemma_encoded_extends(*map, map0, constr.linear_lit@[k].sum);
        }
    }
    let ghost lits0 = constr.linear_lit@;
    let mut simplified: Vec<Vec<LinearLit>> = Vec::new();
    let mut rest = constr.linear_lit;
    let total = rest.len();
    let mut t: usize = 0;
    while t < total
        invariant
            clauses_kept(*old(sat), *sat),
            env_ok(*norm_vars, *sat, *map),
            map_extends(*map, map0),
            map0 == *old(map),
            norm_vars.ni() >= old(norm_vars).ni(),
            norm_vars.num_bool_var == old(norm_vars).num_bool_var,
            covered0 == all_vars_encoded(*old(map), old(norm_vars).ni()),
            covered0 ==> all_vars_encoded(*map, norm_vars.ni()),
            sat.spec_num_vars() >= old(sat).spec_num_vars(),
            sat.spec_backend() == old(sat).spec_backend(),
            old(sat).spec_exhausted() ==> sat.spec_exhausted(),
            clause_in_range(bool_lits@, sat.spec_num_vars() as int),
            total == lits0.len(),
            t <= total,
            rest@ == lits0.subrange(t as int, total as int),
            linears_ok(map0, lits0),
            forall|g: int| 0 <= g < simplified@.len() ==> decomposed_ok(*map, (#[trigger] simplified@[g])@),
        decreases total - t,
    {
        let lit = rest.remove(0);
        assert(lit == lits0[t as int]);
        proof {
            lemma_encoded_extends(*map, map0, lit.sum);
        }
        let ghost map_before = *map;
        if is_unsatisfiable_linear(map, &lit) {
            t += 1;
            continue;
        }
        match suggest_encoder(map, &lit) {
            EncoderKind::MixedGe => {
                if lit.op == CmpOp::Ne {
                    let s1 = shifted(&neg_sum(&lit.sum), -1);
                    let s2 = shifted(&lit.sum, -1);
                    proof {
                        lemma_same_vars_encoded(*map, lit.sum, s1);
                        lemma_same_vars_encoded(*map, lit.sum, s2);
                    }
                    let l1 = LinearLit::new(s1, CmpOp::Ge);
                    let l2 = LinearLit::new(s2, CmpOp::Ge);
                    let ghost mb = *map;
                    let d1 = decompose_linear_lit(norm_vars, sat, map, config, &l1);
                    proof {
                        lemma_encoded_extends(*map, mb, l2.sum);
                        lemma_decomposed_extends(*map, mb, simplified@);
                    }
                    match d1 {
                        Some(v) => {
                            simplified.push(v);
                        },
                        None => {},
                    }
                    let ghost mb2 = *map;
                    let d2 = decompose_linear_lit(norm_vars, sat, map, config, &l2);
                    proof {
                        lemma_decomposed_extends(*map, mb2, simplified@);
                    }
                    match d2 {
                        Some(v) => {
                            simplified.push(v);
                        },
                        None => {},
                    }
                    proof {
                        lemma_map_extends_trans(map0, mb, mb2);
                        lemma_map_extends_trans(map0, mb2, *map);
                    }
                } else {
                    let mut sums: Vec<LinearSum> = Vec::new();
                    if lit.op == CmpOp::Eq {
                        sums.push(lit.sum.copy());
                        sums.push(neg_sum(&lit.sum));
                    } else if lit.op == CmpOp::Le {
                        sums.push(neg_sum(&lit.sum));
                    } else if lit.op == CmpOp::Lt {
                        sums.push(shifted(&neg_sum(&lit.sum), -1));
                    } else if lit.op == CmpOp::Ge {
                        sums.push(lit.sum.copy());
                    } else {
                        sums.push(shifted(&lit.sum, -1));
                    }
                    proof {
                        assert forall|k: int| 0 <= k < sums@.len() implies (#[trigger] sums@[k]).wf() && all_encoded(*map, sums@[k]) by {
                            lemma_same_vars_encoded(*map, lit.sum, sums@[k]);
                        }
                    }
                    let mut decomposed: Vec<LinearLit> = Vec::new();
                    let mut is_unsat = false;
                    let ns = sums.len();
                    let mut q: usize = 0;
                    while q < ns
                        invariant
                            clauses_kept(*old(sat), *sat),
                            env_ok(*norm_vars, *sat, *map),
                            map_extends(*map, map0),
                            map_extends(*map, map_before),
                            map0 == *old(map),
                            norm_vars.ni() >= old(norm_vars).ni(),
                            norm_vars.num_bool_var == old(norm_vars).num_bool_var,
                            covered0 == all_vars_encoded(*old(map), old(norm_vars).ni()),
                            covered0 ==> all_vars_encoded(*map, norm_vars.ni()),
                            sat.spec_num_vars() >= old(sat).spec_num_vars(),
                            sat.spec_backend() == old(sat).spec_backend(),
                            old(sat).spec_exhausted() ==> sat.spec_exhausted(),
                            clause_in_range(bool_lits@, sat.spec_num_vars() as int),
                            ns == sums@.len(),
                            q <= ns,
                            forall|k: int| 0 <= k < sums@.len() ==> (#[trigger] sums@[k]).wf() && all_encoded(map_before, sums@[k]),
                            decomposed_ok(*map, decomposed@),
                            forall|g: int| 0 <= g < simplified@.len() ==> decomposed_ok(*map, (#[trigger] simplified@[g])@),
                        decreases ns - q,
                    {
                        let s = sums[q].copy();
                        proof {
                            lemma_encoded_extends(*map, map_before, s);
                        }
                        let ge = LinearLit::new(s, CmpOp::Ge);
                        let ghost mb = *map;
                        let res = decompose_linear_lit(norm_vars, sat, map, config, &ge);
                        proof {
                            lemma_decomposed_extends(*map, mb, simplified@);
                            lemma_map_extends_trans(map0, mb, *map);
                            lemma_map_extends_trans(map_before, mb, *map);
                            assert forall|k: int| 0 <= k < decomposed@.len() implies (#[trigger] decomposed@[k]).sum.wf() && all_encoded(*map, decomposed@[k].sum) by {
                                lemma_encoded_extends(*map, mb, decomposed@[k].sum);
                            }
                        }
                        match res {
                            Some(v) => {
                                let mut v = v;
                                let ghost v0 = v@;
                                let nv = v.len();
                                let mut w: usize = 0;
                                while w < nv
                                    invariant
                                        nv == v0.len(),
                                        w <= nv,
                                        v@ == v0.subrange(w as int, nv as int),
                                        decomposed_ok(*map, decomposed@),
                                        decomposed_ok(*map, v0),
                                    decreases nv - w,
                                {
                                    let x = v.remove(0);
                                    assert(x == v0[w as int]);
                                    let ghost pd = decomposed@;
                                    decomposed.push(x);
                                    proof {
                                        assert forall|k: int| 0 <= k < decomposed@.len() implies (#[trigger] decomposed@[k]).sum.wf() && all_encoded(*map, decomposed@[k].sum) by {
                                            if k < pd.len() {
                                                assert(decomposed@[k] == pd[k]);
                                            }
                                        }
                                    }
                                    w += 1;
                                }
                            },
                            None => {
                                is_unsat = true;
                                break;
                            },
                        }
                        q += 1;
                    }
                    if !is_unsat {
                        simplified.push(decomposed);
                    }
                }
            },
            EncoderKind::DirectSimple => {
                let mut v: Vec<LinearLit> = Vec::new();
                v.push(lit);
                simplified.push(v);
            },
            EncoderKind::DirectEqNe => {
                let ghost mb = *map;
                let d = decompose_linear_lit(norm_vars, sat, map, config, &lit);
                proof {
                    lemma_decomposed_extends(*map, mb, simplified@);
                    lemma_map_extends_trans(map0, mb, *map);
                }
                match d {
                    Some(v) => {
                        simplified.push(v);
                    },
                    None => {},
                }
            },
        }
        t += 1;
    }
    encode_simplified(sat, map, config, simplified, bool_lits);
}

/// Growing the SAT instance keeps clauses in range.
proof fn lemma_clauses_grow(cs: Seq<Seq<Lit>>, n: nat, m: nat)
    requires
        clauses_in_range(cs, n),
        n <= m,
    ensures
        clauses_in_range(cs, m),
{
    assert forall|j: int| 0 <= j < cs.len() implies clause_in_range(#[trigger] cs[j], m as int) by {
        assert(clause_in_range(cs[j], n as int));
    }
}

fn concat_lits(a: &[Lit], b: &Vec<Lit>) -> (r: Vec<Lit>)
    ensures
        r@ == a@ + b@,
{
    let mut r: Vec<Lit> = Vec::new();
    let mut i: usize = 0;
    while i < a.len()
        invariant
            i <= a@.len(),
            r@ == a@.take(i as int),
        decreases a@.len() - i,
    {
        r.push(a[i]);
        i += 1;
        assert(r@ =~= a@.take(i as int));
    }
    let mut j: usize = 0;
    while j < b.len()
        invariant
            i == a@.len(),
            j <= b@.len(),
            r@ == a@ + b@.take(j as int),
        decreases b@.len() - j,
    {
        r.push(b[j]);
        j += 1;
        assert(r@ =~= a@ + b@.take(j as int));
    }
    assert(a@.take(a@.len() as int) =~= a@);
    assert(b@.take(b@.len() as int) =~= b@);
    r
}

proof fn lemma_concat_in_range(a: Seq<Lit>, b: Seq<Lit>, n: int)
    requires
        clause_in_range(a, n),
        clause_in_range(b, n),
    ensures
        clause_in_range(a + b, n),
{
    assert forall|i: int| 0 <= i < (a + b).len() implies lit_wf(#[trigger] (a + b)[i]) && (a + b)[i].spec_var().0 < n by {
        if i < a.len() {
            assert((a + b)[i] == a[i]);
        } else {
            assert((a + b)[i] == b[i - a.len()]);
        }
    }
}

/// The clauses of one group of linear literals (a conjunction), or the
/// native constraint when it applies; `None` when the group always holds.
fn encode_group(
    sat: &mut SAT,
    map: &EncodeMap,
    config: &Config,
    group: Vec<LinearLit>,
    maybe_native: bool,
    native_applied: &mut bool,
) -> (r: ClauseSet)
    requires
        old(sat).wf(),
        map.wf(old(sat).spec_num_vars()),
        decomposed_ok(*map, group@),
    ensures
        final(sat).wf(),
        final(sat).spec_num_vars() == old(sat).spec_num_vars(),
        final(sat).spec_backend() == old(sat).spec_backend(),
        final(sat).spec_exhausted() == old(sat).spec_exhausted(),
        clauses_kept(*old(sat), *final(sat)),
        clauses_in_range(r@, final(sat).spec_num_vars()),
        !maybe_native ==> forall|m: Seq<bool>, vals: Seq<int>|
            #[trigger] group_reads(*map, group@, m, vals) && (forall|k: int| 0 <= k < group@.len() ==> encodable(*map, #[trigger] group@[k]))
                ==> (clauses_hold(m, r@) <==> forall|k: int| 0 <= k < group@.len() ==> (#[trigger] group@[k]).holds(vals)),
{
    let ghost n = sat.spec_num_vars();
    let mut conj = ClauseSet::new();
    let mut group = group;
    let ghost g0 = group@;
    let total = group.len();
    let mut k: usize = 0;
    while k < total
        invariant
            clauses_kept(*old(sat), *sat),
            sat.wf(),
            sat.spec_num_vars() == n,
            sat.spec_backend() == old(sat).spec_backend(),
            sat.spec_exhausted() == old(sat).spec_exhausted(),
            map.wf(n),
            decomposed_ok(*map, g0),
            total == g0.len(),
            k <= total,
            group@ == g0.subrange(k as int, total as int),
            clauses_in_range(conj@, n),
            !maybe_native ==> forall|m: Seq<bool>, vals: Seq<int>|
                #[trigger] group_reads(*map, g0, m, vals) && (forall|j: int| 0 <= j < g0.len() ==> encodable(*map, #[trigger] g0[j]))
                    ==> (clauses_hold(m, conj@) <==> forall|j: int| 0 <= j < k ==> (#[trigger] g0[j]).holds(vals)),
        decreases total - k,
    {
        let lit = group.remove(0);
        assert(lit == g0[k as int]);
        let ghost before = conj@;
        match suggest_encoder(map, &lit) {
            EncoderKind::MixedGe => {
                if maybe_native && is_ge_order_encoding_native_applicable(map, config, &lit.sum) {
                    *native_applied = true;
                    let ghost sb = *sat;
                    encode_linear_ge_order_encoding_native(map, sat, config, &lit.sum);
                    proof {
                        lemma_clauses_kept_trans(*old(sat), sb, *sat);
                    }
                } else {
                    let enc = encode_linear_ge_mixed(map, sat, &lit.sum);
                    let ghost prev = conj@;
                    conj.append(enc);
                    proof {
                        assert forall|j: int| 0 <= j < conj@.len() implies clause_in_range(#[trigger] conj@[j], n as int) by {
                            if j < prev.len() {
                                assert(conj@[j] == prev[j]);
                            } else {
                                assert(conj@[j] == enc@[j - prev.len()]);
                            }
                        }
                        assert forall|m: Seq<bool>, vals: Seq<int>| #[trigger] group_reads(*map, g0, m, vals) && (forall|j: int| 0 <= j < g0.len() ==> encodable(*map, #[trigger] g0[j])) implies (clauses_hold(m, conj@) <==> clauses_hold(m, before)
                            && lit.holds(vals)) by {
                            assert(reads_sum(*map, g0[k as int].sum, m, vals));
                            assert(encodable(*map, g0[k as int]));
                            lemma_clauses_hold_concat(m, before, enc@);
                        }
                    }
                }
            },
            EncoderKind::DirectSimple => {
                match simple_direct(map, sat, &lit) {
                    Some(c) => {
                        let ghost prev = conj@;
                        conj.push(c.as_slice());
                        proof {
                            assert forall|j: int| 0 <= j < conj@.len() implies clause_in_range(#[trigger] conj@[j], n as int) by {
                                if j < prev.len() {
                                    assert(conj@[j] == prev[j]);
                                }
                            }
                            assert forall|m: Seq<bool>, vals: Seq<int>| #[trigger] group_reads(*map, g0, m, vals) && (forall|j: int| 0 <= j < g0.len() ==> encodable(*map, #[trigger] g0[j])) implies (clauses_hold(m, conj@) <==> clauses_hold(m, before)
                                && lit.holds(vals)) by {
                                assert(reads_sum(*map, g0[k as int].sum, m, vals));
                                lemma_reads_direct(*map, lit.sum, m, vals);
                                assert(conj@ =~= before + seq![c@]);
                                lemma_clauses_hold_concat(m, before, seq![c@]);
                                assert(clauses_hold(m, seq![c@]) == clause_holds(m, c@)) by {
                                    assert(seq![c@][0] == c@);
                                }
                            }
                        }
                    },
                    None => {
                        proof {
                            assert forall|m: Seq<bool>, vals: Seq<int>| #[trigger] group_reads(*map, g0, m, vals) && (forall|j: int| 0 <= j < g0.len() ==> encodable(*map, #[trigger] g0[j])) implies (clauses_hold(m, conj@) <==> clauses_hold(m, before)
                                && lit.holds(vals)) by {
                                assert(reads_sum(*map, g0[k as int].sum, m, vals));
                                let v = lit.sum.term@[0].0;
                                let coef = lit.sum.term@[0].1;
                                let e = map.int_enc(v.0 as int)->0->Direct_0;
                                assert(map.int_enc(lit.sum.term@[0].0.0 as int) == Some(Encoding::Direct(e)));
                                assert(direct_reads(e, m, vals[v.0 as int]));
                                let i = choose|i: int| 0 <= i < e.domain@.len() && e.domain@[i] == vals[v.0 as int];
                                assert(lit.sum.term@ =~= seq![(v, coef)]);
                                lemma_terms_value_single((v, coef), vals);
                                assert(e.domain@[i] * coef == coef * vals[v.0 as int]) by (nonlinear_arith)
                                    requires
                                        e.domain@[i] == vals[v.0 as int],
                                ;
                            }
                        }
                    },
                }
            },
            EncoderKind::DirectEqNe => {
                let enc = if lit.op == CmpOp::Eq {
                    encode_linear_eq_direct(map, sat, &lit.sum)
                } else {
                    encode_linear_ne_direct(map, sat, &lit.sum)
                };
                let ghost prev = conj@;
                conj.append(enc);
                proof {
                    assert forall|j: int| 0 <= j < conj@.len() implies clause_in_range(#[trigger] conj@[j], n as int) by {
                        if j < prev.len() {
                            assert(conj@[j] == prev[j]);
                        } else {
                            assert(conj@[j] == enc@[j - prev.len()]);
                        }
                    }
                    assert forall|m: Seq<bool>, vals: Seq<int>| #[trigger] group_reads(*map, g0, m, vals) && (forall|j: int| 0 <= j < g0.len() ==> encodable(*map, #[trigger] g0[j])) implies (clauses_hold(m, conj@) <==> clauses_hold(m, before)
                        && lit.holds(vals)) by {
                        assert(reads_sum(*map, g0[k as int].sum, m, vals));
                        lemma_reads_direct(*map, lit.sum, m, vals);
                        lemma_clauses_hold_concat(m, before, enc@);
                    }
                }
            },
        }
        proof {
            if !maybe_native {
                assert forall|m: Seq<bool>, vals: Seq<int>|
                    #[trigger] group_reads(*map, g0, m, vals) && (forall|j: int| 0 <= j < g0.len() ==> encodable(*map, #[trigger] g0[j]))
                        implies (clauses_hold(m, conj@) <==> forall|j: int| 0 <= j < k + 1 ==> (#[trigger] g0[j]).holds(vals)) by {
                    assert(clauses_hold(m, conj@) <==> clauses_hold(m, before) && lit.holds(vals));
                    assert((forall|j: int| 0 <= j < k + 1 ==> (#[trigger] g0[j]).holds(vals)) <==> ((forall|j: int|
                        0 <= j < k ==> (#[trigger] g0[j]).holds(vals)) && lit.holds(vals)));
                }
            }
        }
        k += 1;
    }
    proof {
        assert(g0.subrange(0, total as int) =~= g0);
    }
    conj
}

/// Under `m` every variable of every literal of `group` reads its value in
/// `vals` through its encoding in `map`.
pub open spec fn group_reads(map: EncodeMap, group: Seq<LinearLit>, m: Seq<bool>, vals: Seq<int>) -> bool {
    forall|k: int| 0 <= k < group.len() ==> reads_sum(map, (#[trigger] group[k]).sum, m, vals)
}

/// The encoder chosen for `lit` handles its comparison: `>= 0`, or a single
/// direct-encoded variable, or an (in)equality over direct-encoded variables.
pub open spec fn encodable(map: EncodeMap, lit: LinearLit) -> bool {
    ||| lit.op == CmpOp::Ge
    ||| (lit.sum.term@.len() == 1 && map.int_enc(lit.sum.term@[0].0.0 as int) matches Some(Encoding::Direct(_)))
    ||| ((lit.op == CmpOp::Eq || lit.op == CmpOp::Ne) && all_direct(map, lit.sum))
}

/// Reading through encodings reads direct-encoded variables directly.
proof fn lemma_reads_direct(map: EncodeMap, sum: LinearSum, m: Seq<bool>, vals: Seq<int>)
    requires
        reads_sum(map, sum, m, vals),
        all_direct(map, sum),
    ensures
        direct_reads_sum(map, sum, m, vals),
{
    assert forall|k: int| 0 <= k < sum.term@.len() implies match #[trigger] map.int_enc(sum.term@[k].0.0 as int) {
        Some(Encoding::Direct(e)) => direct_reads(e, m, vals[sum.term@[k].0.0 as int]),
        _ => false,
    } by {
        assert(map.int_enc(sum.term@[k].0.0 as int) matches Some(Encoding::Direct(_)));
    }
}

/// The clauses of two lists hold when those of each list hold.
proof fn lemma_clauses_hold_concat(m: Seq<bool>, a: Seq<Seq<Lit>>, b: Seq<Seq<Lit>>)
    ensures
        clauses_hold(m, a + b) == (clauses_hold(m, a) && clauses_hold(m, b)),
{
    let c = a + b;
    if clauses_hold(m, c) {
        assert forall|j: int| 0 <= j < b.len() implies clause_holds(m, #[trigger] b[j]) by {
            assert(c[a.len() + j] == b[j]);
        }
        assert forall|j: int| 0 <= j < a.len() implies clause_holds(m, #[trigger] a[j]) by {
            assert(c[j] == a[j]);
        }
    }
    if clauses_hold(m, a) && clauses_hold(m, b) {
        assert forall|j: int| 0 <= j < c.len() implies clause_holds(m, #[trigger] c[j]) by {
            if j < a.len() {
                assert(c[j] == a[j]);
            } else {
                assert(c[j] == b[j - a.len()]);
            }
        }
    }
}

/// Adds the clauses of `bool_lits` or the groups of linear literals
/// `simplified` (a disjunction of conjunctions), introducing channeling
/// variables when more than one group needs several clauses.
fn encode_simplified(
    sat: &mut SAT,
    map: &EncodeMap,
    config: &Config,
    simplified: Vec<Vec<LinearLit>>,
    bool_lits: Vec<Lit>,
)
    requires
        old(sat).wf(),
        map.wf(old(sat).spec_num_vars()),
        forall|g: int| 0 <= g < simplified@.len() ==> decomposed_ok(*map, (#[trigger] simplified@[g])@),
        clause_in_range(bool_lits@, old(sat).spec_num_vars() as int),
    ensures
        final(sat).wf(),
        final(sat).spec_num_vars() >= old(sat).spec_num_vars(),
        final(sat).spec_backend() == old(sat).spec_backend(),
        old(sat).spec_exhausted() ==> final(sat).spec_exhausted(),
        clauses_kept(*old(sat), *final(sat)),
{
    let ghost n = sat.spec_num_vars();
    let mut bool_lits = bool_lits;
    if simplified.len() == 0 {
        sat.add_clause(bool_lits.as_slice());
        return;
    }
    let maybe_native = simplified.len() == 1 && bool_lits.len() == 0;
    let mut native_applied = false;
    let mut encoded_lits: Vec<ClauseSet> = Vec::new();
    let mut rest = simplified;
    let ghost s0 = rest@;
    let total = rest.len();
    let mut g: usize = 0;
    while g < total
        invariant
            clauses_kept(*old(sat), *sat),
            sat.wf(),
            sat.spec_num_vars() == n,
            n == old(sat).spec_num_vars(),
            sat.spec_backend() == old(sat).spec_backend(),
            sat.spec_exhausted() == old(sat).spec_exhausted(),
            map.wf(n),
            forall|h: int| 0 <= h < s0.len() ==> decomposed_ok(*map, (#[trigger] s0[h])@),
            total == s0.len(),
            g <= total,
            rest@ == s0.subrange(g as int, total as int),
            clause_in_range(bool_lits@, n as int),
            forall|h: int| 0 <= h < encoded_lits@.len() ==> clauses_in_range((#[trigger] encoded_lits@[h])@, n),
        decreases total - g,
    {
        let group = rest.remove(0);
        assert(group == s0[g as int]);
        let conj = encode_group(sat, map, config, group, maybe_native, &mut native_applied);
        if conj.len() == 0 {
            return;
        }
        if conj.len() == 1 {
            let c = conj.get(0);
            assert(clause_in_range(conj@[0], n as int));
            let ghost pb = bool_lits@;
            bool_lits = concat_lits(c, &bool_lits);
            proof {
                lemma_concat_in_range(conj@[0], pb, n as int);
            }
        } else {
            let ghost prev = encoded_lits@;
            encoded_lits.push(conj);
            proof {
                assert forall|h: int| 0 <= h < encoded_lits@.len() implies clauses_in_range((#[trigger] encoded_lits@[h])@, n) by {
                    if h < prev.len() {
                        assert(encoded_lits@[h] == prev[h]);
                    }
                }
            }
        }
        g += 1;
    }
    if encoded_lits.len() == 0 {
        sat.add_clause(bool_lits.as_slice());
    } else if encoded_lits.len() == 1 {
        let clauses = encoded_lits.remove(0);
        let mut j: usize = 0;
        while j < clauses.len()
            invariant
                clauses_kept(*old(sat), *sat),
                sat.wf(),
                sat.spec_num_vars() == n,
                sat.spec_backend() == old(sat).spec_backend(),
                sat.spec_exhausted() == old(sat).spec_exhausted(),
                clauses_in_range(clauses@, n),
                clause_in_range(bool_lits@, n as int),
            decreases clauses@.len() - j,
        {
            let buffer = concat_lits(clauses.get(j), &bool_lits);
            proof {
                assert(clause_in_range(clauses@[j as int], n as int));
                lemma_concat_in_range(clauses@[j as int], bool_lits@, n as int);
            }
            sat.add_clause(buffer.as_slice());
            j += 1;
        }
    } else {
        let mut channeling_lits: Vec<Lit> = Vec::new();
        let m = encoded_lits.len();
        if m == 2 && bool_lits.len() == 0 {
            let v = sat.fresh_var();
            channeling_lits.push(v.as_lit(false));
            channeling_lits.push(v.as_lit(true));
        } else {
            let mut q: usize = 0;
            while q < m
                invariant
                    clauses_kept(*old(sat), *sat),
                    sat.wf(),
                    sat.spec_num_vars() >= n,
                    sat.spec_backend() == old(sat).spec_backend(),
                    old(sat).spec_exhausted() ==> sat.spec_exhausted(),
                    clause_in_range(bool_lits@, sat.spec_num_vars() as int),
                    clause_in_range(channeling_lits@, sat.spec_num_vars() as int),
                    channeling_lits@.len() == q,
                    q <= m,
                decreases m - q,
            {
                let v = sat.fresh_var();
                let ghost pc = channeling_lits@;
                let ghost pb = bool_lits@;
                channeling_lits.push(v.as_lit(true));
                bool_lits.push(v.as_lit(false));
                proof {
                    assert forall|k: int| 0 <= k < channeling_lits@.len() implies lit_wf(#[trigger] channeling_lits@[k]) && channeling_lits@[k].spec_var().0 < sat.spec_num_vars() by {
                        if k < pc.len() {
                            assert(channeling_lits@[k] == pc[k]);
                        }
                    }
                    assert forall|k: int| 0 <= k < bool_lits@.len() implies lit_wf(#[trigger] bool_lits@[k]) && bool_lits@[k].spec_var().0 < sat.spec_num_vars() by {
                        if k < pb.len() {
                            assert(bool_lits@[k] == pb[k]);
                        }
                    }
                }
                q += 1;
            }
            sat.add_clause(bool_lits.as_slice());
        }
        let ghost n2 = sat.spec_num_vars();
        let mut rest2 = encoded_lits;
        let ghost e0 = rest2@;
        let mut q: usize = 0;
        while q < m
            invariant
                clauses_kept(*old(sat), *sat),
                sat.wf(),
                sat.spec_num_vars() == n2,
                n <= n2,
                sat.spec_backend() == old(sat).spec_backend(),
                old(sat).spec_exhausted() ==> sat.spec_exhausted(),
                m == e0.len(),
                q <= m,
                rest2@ == e0.subrange(q as int, m as int),
                forall|h: int| 0 <= h < e0.len() ==> clauses_in_range((#[trigger] e0[h])@, n),
                channeling_lits@.len() == m,
                clause_in_range(channeling_lits@, n2 as int),
            decreases m - q,
        {
            let clauses = rest2.remove(0);
            assert(clauses == e0[q as int]);
            proof {
                lemma_clauses_grow(clauses@, n, n2);
            }
            let ch = channeling_lits[q];
            let mut j: usize = 0;
            while j < clauses.len()
                invariant
                    clauses_kept(*old(sat), *sat),
                    sat.wf(),
                    sat.spec_num_vars() == n2,
                    sat.spec_backend() == old(sat).spec_backend(),
                    old(sat).spec_exhausted() ==> sat.spec_exhausted(),
                    clauses_in_range(clauses@, n2),
                    lit_wf(ch) && ch.spec_var().0 < n2,
                decreases clauses@.len() - j,
            {
                let mut single: Vec<Lit> = Vec::new();
                single.push(ch);
                let buffer = concat_lits(clauses.get(j), &single);
                proof {
                    assert(clause_in_range(clauses@[j as int], n2 as int));
                    assert(clause_in_range(single@, n2 as int));
                    lemma_concat_in_range(clauses@[j as int], single@, n2 as int);
                }
                sat.add_clause(buffer.as_slice());
                j += 1;
            }
            q += 1;
        }
    }
}

} // verus!
