use vstd::prelude::*;

use super::constraint::{encode_constraint, env_ok, linears_ok, sum_negatable};
use super::decompose::{all_vars_encoded, encoded_below, map_extends};
use super::constraint::lemma_map_extends_trans;
use super::clauses_kept;
use super::mixed::all_encoded;
use super::EncodeMap;
use crate::arithmetic::CmpOp;
use crate::config::Config;
use crate::domain::Domain;
use crate::norm_csp::{BoolLit, Constraint, LinearLit, ExtraConstraint, IntVar, IntVarRepresentation, NormCSP, NormCSPVars};
use crate::sat::SAT;

verus! {

/// How an integer variable gets encoded.
#[derive(Clone, Copy, Debug, PartialEq, Eq, Structural)]
pub enum EncodeScheme {
    Order,
    Direct,
}

/// The number of values of a domain.
pub open spec fn domain_size(d: Domain) -> int {
    match d {
        Domain::Range(l, h) => if l > h { 0 } else { h - l + 1 },
        Domain::Enumerative(v) => v@.len() as int,
    }
}

/// A linear literal that direct encoding handles: an (in)equality of at
/// most two terms.
pub open spec fn simple_linear_lit(lit: LinearLit) -> bool {
    (lit.op == CmpOp::Eq || lit.op == CmpOp::Ne) && lit.sum.term@.len() <= 2
}

/// Variable `v` occurs in a linear literal of `cs` that is not simple.
pub open spec fn in_complex_lit(cs: Seq<Constraint>, v: int) -> bool {
    exists|c: int, l: int, t: int|
        0 <= c < cs.len() && 0 <= l < cs[c].linear_lit@.len() && !simple_linear_lit(#[trigger] cs[c].linear_lit@[l])
            && 0 <= t < cs[c].linear_lit@[l].sum.term@.len() && (#[trigger] cs[c].linear_lit@[l].sum.term@[t]).0.0 == v
}

/// The size variables of a division constraint; none for other constraints.
pub open spec fn region_sizes(e: ExtraConstraint) -> Seq<Option<IntVar>> {
    match e {
        ExtraConstraint::GraphDivision(sizes, _, _, _) => sizes@,
        _ => Seq::empty(),
    }
}

/// Variable `v` is the size of a region in a division constraint of `es`.
pub open spec fn is_region_size(es: Seq<ExtraConstraint>, v: int) -> bool {
    exists|e: int, t: int|
        0 <= e < es.len() && 0 <= t < region_sizes(es[e]).len() && #[trigger] region_sizes(es[e])[t] == Some(IntVar(v as usize))
}

/// Variable `v` may be direct encoded by its representation: a domain of
/// at most 500 values, or a binary variable where the configuration asks
/// for that.
pub open spec fn direct_representation(config: Config, repr: IntVarRepresentation) -> bool {
    match repr {
        IntVarRepresentation::Domain(d) => domain_size(d) <= 500,
        IntVarRepresentation::Binary { .. } => config.direct_encoding_for_binary_vars,
    }
}

/// Chooses the encoding of each new variable `first + i`: direct encoding
/// where it is enabled, for variables that only occur in (in)equalities of
/// at most two terms, are not the size of a region, and have at most 500
/// values; order encoding otherwise.
pub fn decide_encode_schemes(
    config: &Config,
    norm_vars: &NormCSPVars,
    first: usize,
    count: usize,
    new_constraints: &Vec<Constraint>,
    new_ext_constraints: &Vec<ExtraConstraint>,
) -> (r: Vec<EncodeScheme>)
    requires
        norm_vars.wf(),
        first + count <= norm_vars.ni(),
    ensures
        r@.len() == count,
        forall|i: int| 0 <= i < count ==> ((#[trigger] r@[i]) == EncodeScheme::Direct <==> {
            &&& config.use_direct_encoding
            &&& direct_representation(*config, norm_vars.int_var@[first + i])
            &&& !in_complex_lit(new_constraints@, first + i)
            &&& !is_region_size(new_ext_constraints@, first + i)
        }),
{
    let n_int = norm_vars.int_var.len();
    let ghost cs = new_constraints@;
    let ghost es = new_ext_constraints@;
    let mut direct: Vec<bool> = Vec::new();
    let mut i: usize = 0;
    while i < count
        invariant
            norm_vars.wf(),
            first + count <= norm_vars.ni(),
            n_int == norm_vars.ni(),
            i <= count,
            direct@.len() == i,
            forall|k: int| 0 <= k < i ==> (#[trigger] direct@[k]) == match norm_vars.int_var@[first + k] {
                IntVarRepresentation::Domain(_) => true,
                IntVarRepresentation::Binary { .. } => config.direct_encoding_for_binary_vars,
            },
        decreases count - i,
    {
        let maybe = match norm_vars.int_var(IntVar(first + i)) {
            IntVarRepresentation::Domain(_) => true,
            IntVarRepresentation::Binary { .. } => config.direct_encoding_for_binary_vars,
        };
        direct.push(maybe);
        i += 1;
    }
    let ghost d0 = direct@;
    let mut c: usize = 0;
    while c < new_constraints.len()
        invariant
            direct@.len() == count,
            cs == new_constraints@,
            c <= cs.len(),
            forall|k: int| 0 <= k < count ==> (#[trigger] direct@[k]) == (d0[k] && !exists|c2: int, l: int, t: int|
                0 <= c2 < c && 0 <= l < cs[c2].linear_lit@.len() && !simple_linear_lit(#[trigger] cs[c2].linear_lit@[l])
                    && 0 <= t < cs[c2].linear_lit@[l].sum.term@.len() && (#[trigger] cs[c2].linear_lit@[l].sum.term@[t]).0.0 == first + k),
        decreases new_constraints@.len() - c,
    {
        let constr = &new_constraints[c];
        let ghost before = direct@;
        let mut l: usize = 0;
        while l < constr.linear_lit.len()
            invariant
                direct@.len() == count,
                cs == new_constraints@,
                c < cs.len(),
                *constr == cs[c as int],
                l <= constr.linear_lit@.len(),
                forall|k: int| 0 <= k < count ==> (#[trigger] direct@[k]) == (before[k] && !exists|l2: int, t: int|
                    0 <= l2 < l && !simple_linear_lit(#[trigger] cs[c as int].linear_lit@[l2])
                        && 0 <= t < cs[c as int].linear_lit@[l2].sum.term@.len() && (#[trigger] cs[c as int].linear_lit@[l2].sum.term@[t]).0.0 == first + k),
            decreases constr.linear_lit@.len() - l,
        {
            let lit = &constr.linear_lit[l];
            let is_simple = (lit.op == CmpOp::Eq || lit.op == CmpOp::Ne) && lit.sum.term.len() <= 2;
            let ghost mid = direct@;
            if !is_simple {
                let mut t: usize = 0;
                while t < lit.sum.term.len()
                    invariant
                        direct@.len() == count,
                        *lit == cs[c as int].linear_lit@[l as int],
                        t <= lit.sum.term@.len(),
                        forall|k: int| 0 <= k < count ==> (#[trigger] direct@[k]) == (mid[k] && !exists|t2: int|
                            0 <= t2 < t && (#[trigger] lit.sum.term@[t2]).0.0 == first + k),
                    decreases lit.sum.term@.len() - t,
                {
                    let v = lit.sum.term[t].0.0;
                    if v >= first && v - first < count {
                        direct.set(v - first, false);
                    }
                    proof {
                        assert forall|k: int| 0 <= k < count implies (#[trigger] direct@[k]) == (mid[k] && !exists|t2: int|
                            0 <= t2 < t + 1 && (#[trigger] lit.sum.term@[t2]).0.0 == first + k) by {
                            if lit.sum.term@[t as int].0.0 == first + k {
                                assert(0 <= t < t + 1);
                            }
                        }
                    }
                    t += 1;
                }
            }
            proof {
                assert forall|k: int| 0 <= k < count implies (#[trigger] direct@[k]) == (before[k] && !exists|l2: int, t: int|
                    0 <= l2 < l + 1 && !simple_linear_lit(#[trigger] cs[c as int].linear_lit@[l2])
                        && 0 <= t < cs[c as int].linear_lit@[l2].sum.term@.len() && (#[trigger] cs[c as int].linear_lit@[l2].sum.term@[t]).0.0 == first + k) by {
                    if exists|l2: int, t: int|
                        0 <= l2 < l + 1 && !simple_linear_lit(#[trigger] cs[c as int].linear_lit@[l2])
                            && 0 <= t < cs[c as int].linear_lit@[l2].sum.term@.len() && (#[trigger] cs[c as int].linear_lit@[l2].sum.term@[t]).0.0 == first + k {
                        let (l2, t2) = choose|l2: int, t: int|
                            0 <= l2 < l + 1 && !simple_linear_lit(#[trigger] cs[c as int].linear_lit@[l2])
                                && 0 <= t < cs[c as int].linear_lit@[l2].sum.term@.len() && (#[trigger] cs[c as int].linear_lit@[l2].sum.term@[t]).0.0 == first + k;
                        if l2 == l {
                            assert(!is_simple);
                            assert(lit.sum.term@[t2].0.0 == first + k);
                        }
                    }
                }
            }
            l += 1;
        }
        proof {
            assert forall|k: int| 0 <= k < count implies (#[trigger] direct@[k]) == (d0[k] && !exists|c2: int, l: int, t: int|
                0 <= c2 < c + 1 && 0 <= l < cs[c2].linear_lit@.len() && !simple_linear_lit(#[trigger] cs[c2].linear_lit@[l])
                    && 0 <= t < cs[c2].linear_lit@[l].sum.term@.len() && (#[trigger] cs[c2].linear_lit@[l].sum.term@[t]).0.0 == first + k) by {
                if exists|c2: int, l: int, t: int|
                    0 <= c2 < c + 1 && 0 <= l < cs[c2].linear_lit@.len() && !simple_linear_lit(#[trigger] cs[c2].linear_lit@[l])
                        && 0 <= t < cs[c2].linear_lit@[l].sum.term@.len() && (#[trigger] cs[c2].linear_lit@[l].sum.term@[t]).0.0 == first + k {
                    let (c2, l2, t2) = choose|c2: int, l: int, t: int|
                        0 <= c2 < c + 1 && 0 <= l < cs[c2].linear_lit@.len() && !simple_linear_lit(#[trigger] cs[c2].linear_lit@[l])
                            && 0 <= t < cs[c2].linear_lit@[l].sum.term@.len() && (#[trigger] cs[c2].linear_lit@[l].sum.term@[t]).0.0 == first + k;
                    if c2 == c {
                        assert(0 <= l2 < constr.linear_lit@.len());
                    }
                }
            }
        }
        c += 1;
    }
    let ghost d1 = direct@;
    let mut e: usize = 0;
    while e < new_ext_constraints.len()
        invariant
            direct@.len() == count,
            first + count <= usize::MAX,
            es == new_ext_constraints@,
            e <= es.len(),
            forall|k: int| 0 <= k < count ==> (#[trigger] direct@[k]) == (d1[k] && !exists|e2: int, t: int|
                0 <= e2 < e && 0 <= t < region_sizes(es[e2]).len() && #[trigger] region_sizes(es[e2])[t] == Some(IntVar((first + k) as usize))),
        decreases new_ext_constraints@.len() - e,
    {
        let ghost before = direct@;
        match &new_ext_constraints[e] {
            ExtraConstraint::GraphDivision(sizes, _, _, _) => {
                let mut t: usize = 0;
                while t < sizes.len()
                    invariant
                        direct@.len() == count,
                        first + count <= usize::MAX,
                        t <= sizes@.len(),
                        forall|k: int| 0 <= k < count ==> (#[trigger] direct@[k]) == (before[k] && !exists|t2: int|
                            0 <= t2 < t && #[trigger] sizes@[t2] == Some(IntVar((first + k) as usize))),
                    decreases sizes@.len() - t,
                {
                    let ghost before_t = direct@;
                    match sizes[t] {
                        Some(v) => {
                            if v.0 >= first && v.0 - first < count {
                                direct.set(v.0 - first, false);
                            }
                        },
                        None => {},
                    }
                    proof {
                        assert forall|k: int| 0 <= k < count implies (#[trigger] direct@[k]) == (before[k] && !exists|t2: int|
                            0 <= t2 < t + 1 && #[trigger] sizes@[t2] == Some(IntVar((first + k) as usize))) by {
                            if sizes@[t as int] == Some(IntVar((first + k) as usize)) {
                                assert(0 <= t < t + 1);
                                assert(direct@[k] == false);
                            } else {
                                if exists|t2: int| 0 <= t2 < t + 1 && #[trigger] sizes@[t2] == Some(IntVar((first + k) as usize)) {
                                    let t2 = choose|t2: int| 0 <= t2 < t + 1 && #[trigger] sizes@[t2] == Some(IntVar((first + k) as usize));
                                    assert(t2 < t);
                                }
                                assert(direct@[k] == before_t[k]);
                            }
                        }
                    }
                    t += 1;
                }
                proof {
                    assert forall|k: int| 0 <= k < count implies (#[trigger] direct@[k]) == (d1[k] && !exists|e2: int, t: int|
                        0 <= e2 < e + 1 && 0 <= t < region_sizes(es[e2]).len() && #[trigger] region_sizes(es[e2])[t] == Some(IntVar((first + k) as usize))) by {
                        assert(region_sizes(es[e as int]) == sizes@);
                    }
                }
            },
            _ => {
                proof {
                    assert forall|k: int| 0 <= k < count implies (#[trigger] direct@[k]) == (d1[k] && !exists|e2: int, t: int|
                        0 <= e2 < e + 1 && 0 <= t < region_sizes(es[e2]).len() && #[trigger] region_sizes(es[e2])[t] == Some(IntVar((first + k) as usize))) by {
                        assert(region_sizes(es[e as int]) == Seq::<Option<IntVar>>::empty());
                    }
                }
            },
        }
        e += 1;
    }
    proof {
        assert forall|k: int| 0 <= k < count implies (#[trigger] direct@[k]) == (d0[k] && !in_complex_lit(cs, first + k)
            && !is_region_size(es, first + k)) by {
            if is_region_size(es, first + k) {
                let (e2, t2) = choose|e2: int, t: int|
                    0 <= e2 < es.len() && 0 <= t < region_sizes(es[e2]).len() && #[trigger] region_sizes(es[e2])[t] == Some(IntVar((first + k) as usize));
                assert(0 <= e2 < es.len());
            }
        }
    }
    let mut r: Vec<EncodeScheme> = Vec::new();
    let mut i: usize = 0;
    while i < count
        invariant
            norm_vars.wf(),
            first + count <= norm_vars.ni(),
            n_int == norm_vars.ni(),
            direct@.len() == count,
            i <= count,
            r@.len() == i,
            forall|k: int| 0 <= k < count ==> (#[trigger] direct@[k]) == (d0[k] && !in_complex_lit(cs, first + k)
                && !is_region_size(es, first + k)),
            forall|k: int| 0 <= k < count ==> (#[trigger] d0[k]) == match norm_vars.int_var@[first + k] {
                IntVarRepresentation::Domain(_) => true,
                IntVarRepresentation::Binary { .. } => config.direct_encoding_for_binary_vars,
            },
            forall|k: int| 0 <= k < i ==> ((#[trigger] r@[k]) == EncodeScheme::Direct <==> {
                &&& config.use_direct_encoding
                &&& direct_representation(*config, norm_vars.int_var@[first + k])
                &&& !in_complex_lit(cs, first + k)
                &&& !is_region_size(es, first + k)
            }),
        decreases count - i,
    {
        let ghost k = i as int;
        assert(d0[k] == match norm_vars.int_var@[first + k] {
            IntVarRepresentation::Domain(_) => true,
            IntVarRepresentation::Binary { .. } => config.direct_encoding_for_binary_vars,
        });
        let use_direct = if config.use_direct_encoding && direct[i] {
            match norm_vars.int_var(IntVar(first + i)) {
                IntVarRepresentation::Domain(d) => {
                    assert(norm_vars.int_var@[first + i].wf());
                    d.num_candidates() <= 500
                },
                _ => true,
            }
        } else {
            false
        };
        r.push(if use_direct {
            EncodeScheme::Direct
        } else {
            EncodeScheme::Order
        });
        i += 1;
    }
    r
}

/// The integer variables of `norm` below `k` are exactly those that `map`
/// encodes.
pub open spec fn map_matches(map: EncodeMap, k: nat) -> bool {
    &&& encoded_below(map, k)
    &&& forall|v: int| 0 <= v < k ==> (#[trigger] map.int_enc(v)) is Some
}

/// Every linear literal of `cs` is well formed, negatable, and over
/// variables below `ni`.
pub open spec fn constraints_ok(cs: Seq<Constraint>, ni: nat) -> bool {
    forall|c: int, k: int|
        0 <= c < cs.len() && 0 <= k < cs[c].linear_lit@.len() ==> (#[trigger] cs[c].linear_lit@[k]).sum.wf()
            && sum_negatable(cs[c].linear_lit@[k].sum) && forall|t: int|
            0 <= t < cs[c].linear_lit@[k].sum.term@.len() ==> (#[trigger] cs[c].linear_lit@[k].sum.term@[t]).0.0 < ni
}

/// Encodes the constraints of `norm` added since the last call into `sat`,
/// encoding its new integer variables first. Extra constraints that the
/// built-in engine cannot express (connectivity, extension supports,
/// region division, products) are left out, and `false` is returned when
/// there was one.
pub fn encode(norm: &mut NormCSP, sat: &mut SAT, map: &mut EncodeMap, config: &Config) -> (r: bool)
    requires
        old(sat).wf(),
        old(map).wf(old(sat).spec_num_vars()),
        old(norm).vars.wf(),
        old(norm).num_encoded_vars <= old(norm).vars.ni(),
        map_matches(*old(map), old(norm).num_encoded_vars as nat),
        constraints_ok(old(norm).constraints@, old(norm).vars.ni()),
    ensures
        final(sat).wf(),
        final(map).wf(final(sat).spec_num_vars()),
        final(norm).vars.wf(),
        final(norm).num_encoded_vars == final(norm).vars.ni(),
        map_matches(*final(map), final(norm).num_encoded_vars as nat),
        final(norm).constraints@.len() == 0,
        final(norm).extra_constraints@.len() == 0,
        final(sat).spec_num_vars() >= old(sat).spec_num_vars(),
        final(sat).spec_backend() == old(sat).spec_backend(),
        old(sat).spec_exhausted() ==> final(sat).spec_exhausted(),
        clauses_kept(*old(sat), *final(sat)),
        map_extends(*final(map), *old(map)),
        r == (old(norm).extra_constraints@.len() == 0),
{
    let first = norm.num_encoded_vars;
    let count = norm.vars.int_var.len() - first;
    let mut constrs: Vec<Constraint> = Vec::new();
    std::mem::swap(&mut constrs, &mut norm.constraints);
    let mut extra: Vec<ExtraConstraint> = Vec::new();
    std::mem::swap(&mut extra, &mut norm.extra_constraints);
    let scheme = decide_encode_schemes(config, &norm.vars, first, count, &constrs, &extra);
    let mut i: usize = 0;
    while i < count
        invariant
            clauses_kept(*old(sat), *sat),
            map_extends(*map, *old(map)),
            sat.wf(),
            map.wf(sat.spec_num_vars()),
            norm.vars.wf(),
            first + count == norm.vars.ni(),
            first + count == norm.vars.int_var.len(),
            scheme@.len() == count,
            i <= count,
            map_matches(*map, (first + i) as nat),
            sat.spec_num_vars() >= old(sat).spec_num_vars(),
            sat.spec_backend() == old(sat).spec_backend(),
            old(sat).spec_exhausted() ==> sat.spec_exhausted(),
            norm.vars == old(norm).vars,
            norm.prenormalize_vars == old(norm).prenormalize_vars,
        decreases count - i,
    {
        let var = IntVar(first + i);
        assert(map.int_enc(var.0 as int) is None);
        let ghost m0 = *map;
        if scheme[i] == EncodeScheme::Direct {
            map.convert_int_var_direct_encoding(&norm.vars, sat, var);
        } else {
            map.convert_int_var_order_encoding(&norm.vars, sat, var);
        }
        proof {
            assert forall|v: int| (#[trigger] map.int_enc(v)) is Some implies 0 <= v < first + i + 1 by {
                if v != var.0 {
                    assert(m0.int_enc(v) is Some);
                }
            }
            assert forall|v: int| 0 <= v < first + i + 1 implies (#[trigger] map.int_enc(v)) is Some by {
                if v != var.0 {
                    assert(m0.int_enc(v) is Some);
                }
            }
        }
        i += 1;
    }
    let mut p: usize = 0;
    while p < norm.prenormalize_vars.len()
        invariant
            clauses_kept(*old(sat), *sat),
            map_extends(*map, *old(map)),
            sat.wf(),
            map.wf(sat.spec_num_vars()),
            norm.vars.wf(),
            first + count == norm.vars.ni(),
            map_matches(*map, norm.vars.ni()),
            sat.spec_num_vars() >= old(sat).spec_num_vars(),
            sat.spec_backend() == old(sat).spec_backend(),
            old(sat).spec_exhausted() ==> sat.spec_exhausted(),
            norm.vars == old(norm).vars,
        decreases norm.prenormalize_vars@.len() - p,
    {
        let v = norm.prenormalize_vars[p];
        let ghost m0 = *map;
        map.convert_bool_lit(sat, BoolLit::new(v, false));
        proof {
            assert forall|w: int| (#[trigger] map.int_enc(w)) is Some implies 0 <= w < norm.vars.ni() by {
                assert(m0.int_enc(w) is Some);
            }
            assert forall|w: int| 0 <= w < norm.vars.ni() implies (#[trigger] map.int_enc(w)) is Some by {
                assert(m0.int_enc(w) is Some);
            }
        }
        p += 1;
    }
    let ghost c0 = constrs@;
    let total = constrs.len();
    let mut rest = constrs;
    let mut k: usize = 0;
    while k < total
        invariant
            clauses_kept(*old(sat), *sat),
            map_extends(*map, *old(map)),
            env_ok(norm.vars, *sat, *map),
            map_matches(*map, norm.vars.ni()),
            norm.vars.ni() >= first + count,
            constraints_ok(c0, (first + count) as nat),
            total == c0.len(),
            k <= total,
            rest@ == c0.subrange(k as int, total as int),
            sat.spec_num_vars() >= old(sat).spec_num_vars(),
            sat.spec_backend() == old(sat).spec_backend(),
            old(sat).spec_exhausted() ==> sat.spec_exhausted(),
            norm.constraints@.len() == 0,
            norm.extra_constraints@.len() == 0,
        decreases total - k,
    {
        let constr = rest.remove(0);
        assert(constr == c0[k as int]);
        proof {
            assert forall|t: int| 0 <= t < constr.linear_lit@.len() implies (#[trigger] constr.linear_lit@[t]).sum.wf() && all_encoded(*map, constr.linear_lit@[t].sum) && sum_negatable(constr.linear_lit@[t].sum) by {
                assert(c0[k as int].linear_lit@[t] == constr.linear_lit@[t]);
                assert forall|j: int| 0 <= j < constr.linear_lit@[t].sum.term@.len() implies (#[trigger] map.int_enc(constr.linear_lit@[t].sum.term@[j].0.0 as int)) is Some by {
                    assert(c0[k as int].linear_lit@[t].sum.term@[j].0.0 < first + count);
                }
            }
        }
        let ghost m0 = *map;
        let ghost ni0 = norm.vars.ni();
        encode_constraint(&mut norm.vars, sat, map, config, constr);
        proof {
            lemma_map_extends_trans(*old(map), m0, *map);
            assert(all_vars_encoded(m0, ni0));
            assert(all_vars_encoded(*map, norm.vars.ni()));
        }
        k += 1;
    }
    let supported = extra.len() == 0;
    norm.num_encoded_vars = norm.vars.int_var.len();
    supported
}

} // verus!
