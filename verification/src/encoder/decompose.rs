use vstd::prelude::*;

use super::direct::partial_bound;
use super::mixed::all_encoded;
use super::{clauses_kept, lemma_clauses_kept_refl, lemma_clauses_kept_trans, linear_range, EncodeMap, Encoding};
use crate::arithmetic::CmpOp;
use crate::config::Config;
use crate::domain::Domain;
use crate::norm_csp::{IntVar, IntVarRepresentation, LinearLit, LinearSum, NormCSPVars};
use crate::sat::SAT;

verus! {

/// Only variables below `ni` are encoded.
pub open spec fn encoded_below(map: EncodeMap, ni: nat) -> bool {
    forall|v: int| (#[trigger] map.int_enc(v)) is Some ==> 0 <= v < ni
}

/// Every integer variable below `ni` is encoded.
pub open spec fn all_vars_encoded(map: EncodeMap, ni: nat) -> bool {
    forall|v: int| 0 <= v < ni ==> (#[trigger] map.int_enc(v)) is Some
}

/// Every encoding of `old` is still in `new`.
pub open spec fn map_extends(new: EncodeMap, old: EncodeMap) -> bool {
    &&& forall|v: int| (#[trigger] old.int_enc(v)) is Some ==> new.int_enc(v) == old.int_enc(v)
    &&& forall|v: int| (#[trigger] old.bool_lit(v)) is Some ==> new.bool_lit(v) == old.bool_lit(v)
}

/// `w` is the variable of some entry of `ts`.
pub open spec fn has_var(ts: Seq<(usize, IntVar, i32)>, w: IntVar) -> bool {
    exists|i: int| 0 <= i < ts.len() && ts[i].1 == w
}

/// The entries of `ts` name distinct, encoded variables with non-zero
/// coefficients.
pub open spec fn entries_ok(map: EncodeMap, ts: Seq<(usize, IntVar, i32)>) -> bool {
    &&& forall|i: int, j: int| 0 <= i < j < ts.len() ==> ts[i].1 != ts[j].1
    &&& forall|i: int| 0 <= i < ts.len() ==> (#[trigger] ts[i]).2 != 0 && map.int_enc(ts[i].1.0 as int) is Some
}

/// The sum of the entries of `ts` plus `constant`.
fn sum_of_entries(ts: &Vec<(usize, IntVar, i32)>, constant: i32, Ghost(map): Ghost<EncodeMap>) -> (r: LinearSum)
    requires
        entries_ok(map, ts@),
    ensures
        r.wf(),
        r.constant == constant,
        all_encoded(map, r),
        forall|i: int| 0 <= i < r.term@.len() ==> has_var(ts@, (#[trigger] r.term@[i]).0),
{
    let mut r = LinearSum::constant(constant);
    let mut k: usize = 0;
    while k < ts.len()
        invariant
            entries_ok(map, ts@),
            k <= ts@.len(),
            r.wf(),
            r.constant == constant,
            forall|i: int| 0 <= i < r.term@.len() ==> exists|j: int| 0 <= j < k && ts@[j].1 == (#[trigger] r.term@[i]).0,
        decreases ts@.len() - k,
    {
        let (_, var, coef) = ts[k];
        proof {
            assert forall|i: int| 0 <= i < r.term@.len() && (#[trigger] r.term@[i]).0 == var implies i32::MIN <= r.term@[i].1 + coef
                <= i32::MAX by {
                let j = choose|j: int| 0 <= j < k && ts@[j].1 == r.term@[i].0;
                assert(ts@[j].1 != ts@[k as int].1);
            }
        }
        let ghost prev = r.term@;
        r.add_coef(var, coef);
        proof {
            assert forall|i: int| 0 <= i < r.term@.len() implies exists|j: int| 0 <= j < k + 1 && ts@[j].1 == (#[trigger] r.term@[i]).0 by {
                if r.term@[i].0 == var {
                    assert(ts@[k as int].1 == var);
                } else {
                    let j2 = choose|j2: int| 0 <= j2 < prev.len() && prev[j2].0 == r.term@[i].0;
                    assert(prev[j2] == prev[j2]);
                    let j = choose|j: int| 0 <= j < k && ts@[j].1 == (#[trigger] prev[j2]).0;
                }
            }
        }
        k += 1;
    }
    proof {
        assert forall|i: int| 0 <= i < r.term@.len() implies (#[trigger] map.int_enc(r.term@[i].0.0 as int)) is Some by {
            let j = choose|j: int| 0 <= j < ts@.len() && ts@[j].1 == r.term@[i].0;
        }
        assert forall|i: int| 0 <= i < r.term@.len() implies has_var(ts@, (#[trigger] r.term@[i]).0) by {
            let j = choose|j: int| 0 <= j < ts@.len() && ts@[j].1 == r.term@[i].0;
        }
    }
    r
}

/// Position of the smallest entry, comparing domain size, then variable,
/// then coefficient.
fn min_entry(ts: &Vec<(usize, IntVar, i32)>) -> (r: usize)
    requires
        ts@.len() > 0,
    ensures
        r < ts@.len(),
        forall|k: int| 0 <= k < ts@.len() ==> !entry_before(#[trigger] ts@[k], ts@[r as int]),
        forall|k: int| 0 <= k < r ==> entry_before(ts@[r as int], #[trigger] ts@[k]),
{
    let mut best: usize = 0;
    let mut k: usize = 1;
    while k < ts.len()
        invariant
            best < ts@.len(),
            1 <= k <= ts@.len(),
            best < k,
            forall|j: int| 0 <= j < k ==> !entry_before(#[trigger] ts@[j], ts@[best as int]),
            forall|j: int| 0 <= j < best ==> entry_before(ts@[best as int], #[trigger] ts@[j]),
        decreases ts@.len() - k,
    {
        let (s1, v1, c1) = ts[k];
        let (s0, v0, c0) = ts[best];
        if s1 < s0 || (s1 == s0 && (v1.0 < v0.0 || (v1.0 == v0.0 && c1 < c0))) {
            best = k;
        }
        k += 1;
    }
    best
}

/// Entry `a` comes before entry `b`: by domain size, then variable, then
/// coefficient.
pub open spec fn entry_before(a: (usize, IntVar, i32), b: (usize, IntVar, i32)) -> bool {
    a.0 < b.0 || (a.0 == b.0 && (a.1.0 < b.1.0 || (a.1.0 == b.1.0 && a.2 < b.2)))
}

/// Number of values of the encoding of `var`.
fn encoded_size(map: &EncodeMap, var: IntVar) -> (r: usize)
    requires
        exists|n: nat| map.wf(n),
        map.int_enc(var.0 as int) is Some,
    ensures
        r >= 1,
        r == map.int_enc(var.0 as int)->0.domain().len(),
{
    let ghost n = choose|n: nat| map.wf(n);
    let slot = map.int_encoding(var);
    assert(map.int_enc(var.0 as int)->0.wf(n));
    match slot {
        Some(Encoding::Order(e)) => e.domain.len(),
        Some(Encoding::Direct(e)) => e.domain.len(),
        None => 1,
    }
}

/// Splits `lit` (an equality, inequality `!= 0` or `>= 0`) into literals
/// whose conjunction is equivalent to it, introducing order-encoded
/// auxiliary variables for groups of terms whose domains are too large
/// together. `None` means that `lit` cannot hold.
pub fn decompose_linear_lit(
    norm_vars: &mut NormCSPVars,
    sat: &mut SAT,
    map: &mut EncodeMap,
    config: &Config,
    lit: &LinearLit,
) -> (r: Option<Vec<LinearLit>>)
    requires
        old(sat).wf(),
        old(map).wf(old(sat).spec_num_vars()),
        old(norm_vars).wf(),
        encoded_below(*old(map), old(norm_vars).ni()),
        lit.sum.wf(),
        all_encoded(*old(map), lit.sum),
        lit.op == CmpOp::Ge || lit.op == CmpOp::Eq || lit.op == CmpOp::Ne,
    ensures
        final(sat).wf(),
        final(map).wf(final(sat).spec_num_vars()),
        final(norm_vars).wf(),
        encoded_below(*final(map), final(norm_vars).ni()),
        map_extends(*final(map), *old(map)),
        final(norm_vars).ni() >= old(norm_vars).ni(),
        final(norm_vars).num_bool_var == old(norm_vars).num_bool_var,
        all_vars_encoded(*old(map), old(norm_vars).ni()) ==> all_vars_encoded(*final(map), final(norm_vars).ni()),
        final(sat).spec_num_vars() >= old(sat).spec_num_vars(),
        final(sat).spec_backend() == old(sat).spec_backend(),
        old(sat).spec_exhausted() ==> final(sat).spec_exhausted(),
        clauses_kept(*old(sat), *final(sat)),
        r matches Some(lits) ==> forall|k: int|
            0 <= k < lits@.len() ==> (#[trigger] lits@[k]).sum.wf() && all_encoded(*final(map), lits@[k].sum) && (
            lits@[k].op == CmpOp::Ge || lits@[k].op == CmpOp::Eq || lits@[k].op == CmpOp::Ne),
{
    let op_for_aux_lits = if lit.op == CmpOp::Ge {
        CmpOp::Ge
    } else {
        CmpOp::Eq
    };
    let mut heap: Vec<(usize, IntVar, i32)> = Vec::new();
    let mut k: usize = 0;
    while k < lit.sum.term.len()
        invariant
            map.wf(sat.spec_num_vars()),
            lit.sum.wf(),
            all_encoded(*map, lit.sum),
            k <= lit.sum.term@.len(),
            heap@.len() == k,
            forall|i: int| 0 <= i < k ==> (#[trigger] heap@[i]).1 == lit.sum.term@[i].0 && heap@[i].2 == lit.sum.term@[i].1,
        decreases lit.sum.term@.len() - k,
    {
        let (var, coef) = lit.sum.term[k];
        assert(map.int_enc(lit.sum.term@[k as int].0.0 as int) is Some);
        let size = encoded_size(map, var);
        heap.push((size, var, coef));
        k += 1;
    }
    proof {
        assert forall|i: int, j: int| 0 <= i < j < heap@.len() implies heap@[i].1 != heap@[j].1 by {
            assert(lit.sum.term@[i].0.0 < lit.sum.term@[j].0.0);
        }
        assert forall|i: int| 0 <= i < heap@.len() implies (#[trigger] heap@[i]).2 != 0 && map.int_enc(heap@[i].1.0 as int) is Some by {
            assert(lit.sum.term@[i].1 != 0);
            assert(map.int_enc(lit.sum.term@[i].0.0 as int) is Some);
        }
    }
    let mut ret: Vec<LinearLit> = Vec::new();
    let mut pending: Vec<(usize, IntVar, i32)> = Vec::new();
    let mut dom_product: usize = 1;
    proof {
        lemma_clauses_kept_refl(*sat);
    }
    while heap.len() > 0
        invariant
            clauses_kept(*old(sat), *sat),
            sat.wf(),
            map.wf(sat.spec_num_vars()),
            norm_vars.wf(),
            encoded_below(*map, norm_vars.ni()),
            map_extends(*map, *old(map)),
            norm_vars.ni() >= old(norm_vars).ni(),
            norm_vars.num_bool_var == old(norm_vars).num_bool_var,
            all_vars_encoded(*old(map), old(norm_vars).ni()) ==> all_vars_encoded(*map, norm_vars.ni()),
            sat.spec_num_vars() >= old(sat).spec_num_vars(),
            sat.spec_backend() == old(sat).spec_backend(),
            old(sat).spec_exhausted() ==> sat.spec_exhausted(),
            entries_ok(*map, heap@ + pending@),
            forall|t: int|
                0 <= t < ret@.len() ==> (#[trigger] ret@[t]).sum.wf() && all_encoded(*map, ret@[t].sum) && (ret@[t].op
                    == CmpOp::Ge || ret@[t].op == CmpOp::Eq),
            op_for_aux_lits == CmpOp::Ge || op_for_aux_lits == CmpOp::Eq,
            lit.op == CmpOp::Ge || lit.op == CmpOp::Eq || lit.op == CmpOp::Ne,
        decreases 3 * heap@.len() + 2 * pending@.len(),
    {
        proof {
            assert forall|i: int| 0 <= i < heap@.len() implies (#[trigger] heap@[i]) == (heap@ + pending@)[i] by {}
            assert forall|i: int| 0 <= i < pending@.len() implies (#[trigger] pending@[i]) == (heap@ + pending@)[heap@.len() + i] by {}
        }
        let top_idx = min_entry(&heap);
        let top = heap[top_idx];
        let dom_size = top.0;
        let exceeds = match dom_product.checked_mul(dom_size) {
            Some(p) => p >= config.domain_product_threshold,
            None => true,
        };
        let mut introduced = false;
        if exceeds && pending.len() >= 2 && heap.len() >= 2 {
            let ghost hp = heap@;
            let ghost pp = pending@;
            proof {
                assert(entries_ok(*map, pp)) by {
                    assert forall|i: int, j: int| 0 <= i < j < pp.len() implies pp[i].1 != pp[j].1 by {
                        assert((hp + pp)[hp.len() + i] == pp[i]);
                        assert((hp + pp)[hp.len() + j] == pp[j]);
                    }
                    assert forall|i: int| 0 <= i < pp.len() implies (#[trigger] pp[i]).2 != 0 && map.int_enc(pp[i].1.0 as int) is Some by {
                        assert((hp + pp)[hp.len() + i] == pp[i]);
                    }
                }
                assert(entries_ok(*map, hp)) by {
                    assert forall|i: int, j: int| 0 <= i < j < hp.len() implies hp[i].1 != hp[j].1 by {
                        assert((hp + pp)[i] == hp[i]);
                        assert((hp + pp)[j] == hp[j]);
                    }
                    assert forall|i: int| 0 <= i < hp.len() implies (#[trigger] hp[i]).2 != 0 && map.int_enc(hp[i].1.0 as int) is Some by {
                        assert((hp + pp)[i] == hp[i]);
                    }
                }
            }
            let aux_sum0 = sum_of_entries(&pending, 0, Ghost(*map));
            let rem_sum = sum_of_entries(&heap, 0, Ghost(*map));
            let (aux_lo0, aux_hi0) = linear_range(map, &aux_sum0);
            let (rem_lo, rem_hi) = linear_range(map, &rem_sum);
            let fits = -0x8000_0000 <= aux_lo0 && aux_lo0 <= 0x7fff_ffff && -0x8000_0000 <= aux_hi0 && aux_hi0
                <= 0x7fff_ffff && -0x1_0000_0000_0000_0000_0000_0000 <= rem_lo && rem_lo
                <= 0x1_0000_0000_0000_0000_0000_0000 && -0x1_0000_0000_0000_0000_0000_0000 <= rem_hi && rem_hi
                <= 0x1_0000_0000_0000_0000_0000_0000;
            if fits {
                let c = lit.sum.constant as i128;
                let mut lo = aux_lo0;
                let mut hi = aux_hi0;
                if lit.op == CmpOp::Eq {
                    let bound = -(c + rem_lo);
                    if bound < hi {
                        hi = bound;
                    }
                }
                if lit.op == CmpOp::Eq || lit.op == CmpOp::Ge {
                    let bound = -(c + rem_hi);
                    if bound > lo {
                        lo = bound;
                    }
                }
                if lo > hi {
                    return None;
                }
                let aux_dom = Domain::range(lo as i32, hi as i32);
                proof {
                    assert(aux_dom.contains(lo as int));
                }
                let ghost mb = *map;
                let ghost nib = norm_vars.ni();
                let aux_var = norm_vars.new_int_var(IntVarRepresentation::Domain(aux_dom));
                let ghost sb = *sat;
                map.convert_int_var_order_encoding(norm_vars, sat, aux_var);
                proof {
                    lemma_clauses_kept_trans(*old(sat), sb, *sat);
                    if all_vars_encoded(*old(map), old(norm_vars).ni()) {
                        assert forall|v: int| 0 <= v < norm_vars.ni() implies (#[trigger] map.int_enc(v)) is Some by {
                            if v < nib {
                                assert(mb.int_enc(v) is Some);
                            }
                        }
                    }
                }
                let mut aux_sum = aux_sum0;
                proof {
                    assert forall|i: int| 0 <= i < aux_sum.term@.len() && (#[trigger] aux_sum.term@[i]).0 == aux_var implies i32::MIN
                        <= aux_sum.term@[i].1 + -1 <= i32::MAX by {
                        assert(has_var(pp, aux_sum.term@[i].0));
                        let j = choose|j: int| 0 <= j < pp.len() && pp[j].1 == aux_sum.term@[i].0;
                        assert(map.int_enc(pp[j].1.0 as int) is Some);
                    }
                }
                let ghost prev_terms = aux_sum.term@;
                aux_sum.add_coef(aux_var, -1);
                proof {
                    assert forall|i: int| 0 <= i < aux_sum.term@.len() implies (#[trigger] map.int_enc(aux_sum.term@[i].0.0 as int)) is Some by {
                        if aux_sum.term@[i].0 != aux_var {
                            let j = choose|j: int| 0 <= j < prev_terms.len() && prev_terms[j].0 == aux_sum.term@[i].0;
                            assert(has_var(pp, prev_terms[j].0));
                            let t = choose|t: int| 0 <= t < pp.len() && pp[t].1 == prev_terms[j].0;
                        }
                    }
                    assert forall|t: int| 0 <= t < ret@.len() implies all_encoded(*map, (#[trigger] ret@[t]).sum) by {
                        assert forall|i: int| 0 <= i < ret@[t].sum.term@.len() implies (#[trigger] map.int_enc(ret@[t].sum.term@[i].0.0 as int)) is Some by {}
                    }
                }
                ret.push(LinearLit::new(aux_sum, op_for_aux_lits));
                pending = Vec::new();
                let size = encoded_size(map, aux_var);
                heap.push((size, aux_var, 1));
                dom_product = 1;
                introduced = true;
                proof {
                    assert(heap@ + pending@ =~= hp.push((size, aux_var, 1i32)));
                    assert forall|i: int, j: int| 0 <= i < j < heap@.len() implies heap@[i].1 != heap@[j].1 by {
                        if j == hp.len() {
                            assert((hp + pp)[i] == hp[i]);
                            assert(map.int_enc(hp[i].1.0 as int) is Some);
                        } else {
                            assert((hp + pp)[i] == hp[i]);
                            assert((hp + pp)[j] == hp[j]);
                        }
                    }
                    assert forall|i: int| 0 <= i < heap@.len() implies (#[trigger] heap@[i]).2 != 0 && map.int_enc(heap@[i].1.0 as int) is Some by {
                        if i < hp.len() {
                            assert((hp + pp)[i] == hp[i]);
                        }
                    }
                    assert(entries_ok(*map, heap@ + pending@));
                    assert forall|t: int| 0 <= t < ret@.len() implies (#[trigger] ret@[t]).sum.wf() && all_encoded(*map, ret@[t].sum) && (ret@[t].op
                        == CmpOp::Ge || ret@[t].op == CmpOp::Eq) by {
                        assert forall|i: int| 0 <= i < ret@[t].sum.term@.len() implies (#[trigger] map.int_enc(ret@[t].sum.term@[i].0.0 as int)) is Some by {}
                    }
                }
            }
        }
        if !introduced {
            dom_product = match dom_product.checked_mul(dom_size) {
                Some(p) => p,
                None => usize::MAX,
            };
            let ghost hp = heap@;
            let ghost pp = pending@;
            let e = heap.remove(top_idx);
            pending.push(e);
            proof {
                assert(heap@ =~= hp.remove(top_idx as int));
                let all0 = hp + pp;
                let all1 = heap@ + pending@;
                assert forall|i: int| 0 <= i < all1.len() implies exists|j: int| 0 <= j < all0.len() && #[trigger] all1[i] == all0[j] by {
                    if i < heap@.len() {
                        if i < top_idx {
                            assert(all1[i] == all0[i]);
                        } else {
                            assert(all1[i] == all0[i + 1]);
                        }
                    } else if i < heap@.len() + pp.len() {
                        assert(all1[i] == all0[i + 1]);
                    } else {
                        assert(all1[i] == all0[top_idx as int]);
                    }
                }
                assert forall|i: int, j: int| 0 <= i < j < all1.len() implies all1[i].1 != all1[j].1 by {
                    let ii = if i < top_idx { i } else if i < all1.len() - 1 { i + 1 } else { top_idx as int };
                    let jj = if j < top_idx { j } else if j < all1.len() - 1 { j + 1 } else { top_idx as int };
                    assert(all1[i] == all0[ii]);
                    assert(all1[j] == all0[jj]);
                    assert(ii != jj);
                    if ii < jj {
                        assert(all0[ii].1 != all0[jj].1);
                    } else {
                        assert(all0[jj].1 != all0[ii].1);
                    }
                }
                assert forall|i: int| 0 <= i < all1.len() implies (#[trigger] all1[i]).2 != 0 && map.int_enc(all1[i].1.0 as int) is Some by {
                    let j = choose|j: int| 0 <= j < all0.len() && all1[i] == all0[j];
                    assert(all0[j].2 != 0);
                }
            }
        }
    }
    let pending_sum = sum_of_entries(&pending, lit.sum.constant, Ghost(*map));
    proof {
        assert(heap@ + pending@ =~= pending@);
    }
    ret.push(LinearLit::new(pending_sum, lit.op));
    proof {
        assert forall|t: int| 0 <= t < ret@.len() implies (#[trigger] ret@[t]).sum.wf() && all_encoded(*map, ret@[t].sum) && (
        ret@[t].op == CmpOp::Ge || ret@[t].op == CmpOp::Eq || ret@[t].op == CmpOp::Ne) by {}
    }
    Some(ret)
}

} // verus!
