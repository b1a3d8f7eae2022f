use vstd::prelude::*;

use super::direct::{
    direct_reads, extends_with, holds_from, lemma_direct_value_bound, lemma_extends_holds, lemma_extends_push, lemma_extends_refl,
    lemma_extends_trans, lemma_holds_split, lemma_picks_equals, lemma_push_holds, lemma_push_prefix, partial_bound,
    LinearInfoForDirectEncoding,
};
use super::order::{lemma_mul_i32_fits, order_reads, LinearInfoForOrderEncoding};
use super::{clauses_in_range, ClauseSet, EncodeMap, Encoding, ExtendedLit};
use crate::norm_csp::LinearSum;
use crate::sat::{clause_holds, clause_in_range, clauses_hold, lemma_lit_negation, lit_holds, lit_wf, Lit, SAT};
use crate::norm_csp::IntVar;
use crate::norm_csp::linear::{lemma_terms_value_concat, lemma_terms_value_single, terms_value};

verus! {

/// A term of a linear sum read through the encoding of its variable.
pub enum LinearInfo<'a> {
    Order(LinearInfoForOrderEncoding<'a>),
    Direct(LinearInfoForDirectEncoding<'a>),
}

impl<'a> LinearInfo<'a> {
    pub open spec fn wf(&self, n: nat) -> bool {
        match self {
            LinearInfo::Order(x) => x.wf(n),
            LinearInfo::Direct(x) => x.wf(n),
        }
    }

    /// The largest value of the term.
    pub open spec fn max_value(&self) -> int {
        match self {
            LinearInfo::Order(x) => x.spec_domain(x.size() - 1),
            LinearInfo::Direct(x) => x.spec_domain(x.size() - 1),
        }
    }
}

/// Sum of the largest values of the terms `info[from..]`.
pub open spec fn mixed_max_sum(info: Seq<LinearInfo>, from: int) -> int
    decreases info.len() - from,
{
    if from >= info.len() {
        0
    } else {
        info[from].max_value() + mixed_max_sum(info, from + 1)
    }
}

pub open spec fn mixed_infos_wf(info: Seq<LinearInfo>, n: nat) -> bool {
    forall|k: int| 0 <= k < info.len() ==> (#[trigger] info[k]).wf(n)
}

/// A value of an order-encoded term is at most `2^62` in magnitude.
pub proof fn lemma_order_value_bound(x: LinearInfoForOrderEncoding, j: int)
    requires
        x.shaped(),
        0 <= j < x.size(),
    ensures
        -0x4000_0000_0000_0000 <= x.spec_domain(j) <= 0x4000_0000_0000_0000,
{
    let c = x.coef as int;
    let d = if c > 0 { x.encoding.domain@[j] as int } else { x.encoding.domain@[x.size() - 1 - j] as int };
    assert(-0x8000_0000 <= d <= 0x7fff_ffff && -0x8000_0000 <= c <= 0x7fff_ffff ==> -0x4000_0000_0000_0000 <= d
        * c <= 0x4000_0000_0000_0000) by (nonlinear_arith);
}

/// The sum of largest values from `from` on is at most `2^62` per term in
/// magnitude.
pub proof fn lemma_mixed_sum_bound(info: Seq<LinearInfo>, from: int, n: nat)
    requires
        mixed_infos_wf(info, n),
        0 <= from <= info.len(),
    ensures
        -(info.len() - from) * 0x4000_0000_0000_0000 <= mixed_max_sum(info, from) <= (info.len() - from)
            * 0x4000_0000_0000_0000,
    decreases info.len() - from,
{
    if from < info.len() {
        lemma_mixed_sum_bound(info, from + 1, n);
        match info[from] {
            LinearInfo::Order(x) => lemma_order_value_bound(x, x.size() - 1),
            LinearInfo::Direct(x) => lemma_direct_value_bound(x, x.size() - 1),
        }
    }
}

impl<'a> LinearInfo<'a> {
    /// The number of values of the term.
    pub open spec fn size(&self) -> int {
        match self {
            LinearInfo::Order(x) => x.size(),
            LinearInfo::Direct(x) => x.size(),
        }
    }

    /// The `j`-th smallest value of the term.
    pub open spec fn value(&self, j: int) -> int {
        match self {
            LinearInfo::Order(x) => x.spec_domain(j),
            LinearInfo::Direct(x) => x.spec_domain(j),
        }
    }

    /// Under `m` the term takes its `j`-th smallest value.
    pub open spec fn picks(&self, m: Seq<bool>, j: int) -> bool {
        match self {
            LinearInfo::Order(x) => x.picks(m, j),
            LinearInfo::Direct(x) => x.picks(m, j),
        }
    }

    /// The values of the term strictly increase.
    pub proof fn lemma_values_increasing(&self, n: nat)
        requires
            self.wf(n),
        ensures
            forall|i: int, j: int| 0 <= i < j < self.size() ==> self.value(i) < self.value(j),
            self.size() >= 1,
    {
        match self {
            LinearInfo::Order(x) => x.lemma_increasing(),
            LinearInfo::Direct(x) => x.lemma_increasing(),
        }
    }
}

/// Under `m` each term `info[k]` takes its `js[k]`-th smallest value.
pub open spec fn mixed_model(info: Seq<LinearInfo>, m: Seq<bool>, js: Seq<int>) -> bool {
    &&& js.len() == info.len()
    &&& forall|k: int| 0 <= k < info.len() ==> (#[trigger] info[k]).picks(m, js[k])
}

/// The sum of the values that `js` picks for the terms `info[from..]`.
pub open spec fn mixed_sum_from(info: Seq<LinearInfo>, js: Seq<int>, from: int) -> int
    decreases info.len() - from,
{
    if from < 0 || from >= info.len() {
        0
    } else {
        info[from].value(js[from]) + mixed_sum_from(info, js, from + 1)
    }
}

/// The sum of the picked values from `from` on is at most the sum of the
/// largest values.
proof fn lemma_mixed_sum_le_max(info: Seq<LinearInfo>, m: Seq<bool>, js: Seq<int>, from: int, n: nat)
    requires
        mixed_infos_wf(info, n),
        mixed_model(info, m, js),
        0 <= from <= info.len(),
    ensures
        mixed_sum_from(info, js, from) <= mixed_max_sum(info, from),
    decreases info.len() - from,
{
    if from < info.len() {
        lemma_mixed_sum_le_max(info, m, js, from + 1, n);
        let x = info[from];
        assert(x.wf(n));
        assert(x.picks(m, js[from]));
        x.lemma_values_increasing(n);
        if js[from] < x.size() - 1 {
            assert(x.value(js[from]) < x.value(x.size() - 1));
        }
    }
}

/// The clauses added from `from` on by the search for `sum >= 0` hold under
/// `m` whenever the clause built so far fails, the constant plus the terms
/// before `idx` is some `q` at most `p`, and the whole sum is not negative.
pub open spec fn ge_complete(
    info: Seq<LinearInfo>,
    idx: int,
    cs: Seq<Seq<Lit>>,
    from: int,
    clause: Seq<Lit>,
    p: int,
    m: Seq<bool>,
    js: Seq<int>,
    q: int,
) -> bool {
    mixed_model(info, m, js) && !clause_holds(m, clause) && q <= p && q + mixed_sum_from(info, js, idx) >= 0 ==> holds_from(
        m,
        cs,
        from,
    )
}

/// When the clause built so far fails under `m`, the added clauses all
/// hold and `p` plus the remaining terms is negative, some clause was left
/// out as implied by a shorter one: clauses are being left out, and the
/// smallest slack `mr` of the fixed direct terms does not make the sum
/// reach zero.
pub open spec fn ge_sound(
    info: Seq<LinearInfo>,
    idx: int,
    cs: Seq<Seq<Lit>>,
    from: int,
    clause: Seq<Lit>,
    p: int,
    mr: Option<i128>,
    erase: bool,
    m: Seq<bool>,
    js: Seq<int>,
) -> bool {
    mixed_model(info, m, js) && !clause_holds(m, clause) && holds_from(m, cs, from) && p + mixed_sum_from(info, js, idx)
        < 0 ==> erase && mr is Some && p + mixed_sum_from(info, js, idx) + mr->0 < 0
}

/// The slack passed on when a direct term takes a value `relax` below its
/// largest one.
pub open spec fn next_relax(mr: Option<i128>, relax: int) -> int {
    let base: int = match mr {
        Some(r) => r as int,
        None => 0x1_0000_0000_0000_0000,
    };
    if base < relax {
        base
    } else {
        relax
    }
}

fn push_in_range(buf: &mut ClauseSet, clause: &[Lit], Ghost(n): Ghost<nat>)
    requires
        clauses_in_range(old(buf)@, n),
        clause_in_range(clause@, n as int),
    ensures
        final(buf)@ == old(buf)@.push(clause@),
        clauses_in_range(final(buf)@, n),
{
    buf.push(clause);
    proof {
        assert forall|j: int| 0 <= j < buf@.len() implies clause_in_range(#[trigger] buf@[j], n as int) by {
            if j < old(buf)@.len() {
                assert(buf@[j] == old(buf)@[j]);
            }
        }
    }
}

/// Clauses of `sum(info) + constant >= 0`, built by fixing upper bounds of
/// the terms one by one; `clause` holds the choices made so far.
fn ge_mixed_sub(
    info: &Vec<LinearInfo>,
    clause: &mut Vec<Lit>,
    idx: usize,
    upper_bound: i128,
    min_relax_on_erasure: Option<i128>,
    clauses_buf: &mut ClauseSet,
    erase_subsumed_clauses: bool,
    Ghost(n): Ghost<nat>,
    Ghost(p): Ghost<int>,
)
    requires
        mixed_infos_wf(info@, n),
        idx <= info@.len(),
        clause_in_range(old(clause)@, n as int),
        clauses_in_range(old(clauses_buf)@, n),
        upper_bound == p + mixed_max_sum(info@, idx as int),
        -partial_bound(idx as int) <= p <= partial_bound(idx as int),
        min_relax_on_erasure matches Some(m) ==> 0 <= m <= 0x1_0000_0000_0000_0000,
    ensures
        final(clause)@ == old(clause)@,
        clauses_in_range(final(clauses_buf)@, n),
        extends_with(old(clauses_buf)@, final(clauses_buf)@, old(clause)@),
        forall|m: Seq<bool>, js: Seq<int>, q: int|
            #[trigger] ge_complete(info@, idx as int, final(clauses_buf)@, old(clauses_buf)@.len() as int, old(clause)@, p, m, js, q),
        forall|m: Seq<bool>, js: Seq<int>|
            #[trigger] ge_sound(
                info@,
                idx as int,
                final(clauses_buf)@,
                old(clauses_buf)@.len() as int,
                old(clause)@,
                p,
                min_relax_on_erasure,
                erase_subsumed_clauses,
                m,
                js,
            ),
    decreases info@.len() - idx,
{
    let ghost from = clauses_buf@.len() as int;
    let ghost c0 = clause@;
    let len = info.len();
    proof {
        lemma_mixed_sum_bound(info@, idx as int, n);
        assert(info@.len() <= usize::MAX);
        lemma_extends_refl(clauses_buf@, c0);
        assert(c0.is_prefix_of(c0)) by {
            assert(c0 =~= c0.subrange(0, c0.len() as int));
        }
    }
    if upper_bound < 0 {
        let cannot_prune = !erase_subsumed_clauses || match min_relax_on_erasure {
            Some(m) => upper_bound + m >= 0,
            None => true,
        };
        if cannot_prune {
            push_in_range(clauses_buf, clause.as_slice(), Ghost(n));
            proof {
                lemma_extends_push(old(clauses_buf)@, c0, c0);
            }
        }
        proof {
            assert forall|m: Seq<bool>, js: Seq<int>, q: int|
                #[trigger] ge_complete(info@, idx as int, clauses_buf@, from, c0, p, m, js, q) by {
                if mixed_model(info@, m, js) {
                    lemma_mixed_sum_le_max(info@, m, js, idx as int, n);
                }
            }
            assert forall|m: Seq<bool>, js: Seq<int>|
                #[trigger] ge_sound(info@, idx as int, clauses_buf@, from, c0, p, min_relax_on_erasure, erase_subsumed_clauses, m, js) by {
                if mixed_model(info@, m, js) && !clause_holds(m, c0) && holds_from(m, clauses_buf@, from) {
                    lemma_mixed_sum_le_max(info@, m, js, idx as int, n);
                    if cannot_prune {
                        assert(clauses_buf@[from] == c0);
                    }
                }
            }
        }
        return;
    }
    if idx == len {
        proof {
            assert forall|m: Seq<bool>, js: Seq<int>, q: int|
                #[trigger] ge_complete(info@, idx as int, clauses_buf@, from, c0, p, m, js, q) by {}
            assert forall|m: Seq<bool>, js: Seq<int>|
                #[trigger] ge_sound(info@, idx as int, clauses_buf@, from, c0, p, min_relax_on_erasure, erase_subsumed_clauses, m, js) by {}
        }
        return;
    }
    proof {
        lemma_mixed_sum_bound(info@, idx + 1, n);
        assert(info@[idx as int].wf(n));
        info@[idx as int].lemma_values_increasing(n);
    }
    match &info[idx] {
        LinearInfo::Order(o) => {
            proof {
                lemma_order_value_bound(*o, o.size() - 1);
                o.lemma_increasing();
            }
            if idx + 1 == len {
                let val = -(upper_bound - o.domain_max() as i128);
                assert(val == -p);
                match o.at_least_val(val) {
                    ExtendedLit::True => {
                        proof {
                            assert forall|m: Seq<bool>, js: Seq<int>, q: int|
                                #[trigger] ge_complete(info@, idx as int, clauses_buf@, from, c0, p, m, js, q) by {}
                            assert forall|m: Seq<bool>, js: Seq<int>|
                                #[trigger] ge_sound(info@, idx as int, clauses_buf@, from, c0, p, min_relax_on_erasure, erase_subsumed_clauses, m, js) by {
                                if mixed_model(info@, m, js) {
                                    let jm = js[idx as int];
                                    assert(info@[idx as int].picks(m, jm));
                                    assert(mixed_sum_from(info@, js, idx + 1) == 0);
                                    if jm > 0 {
                                        assert(o.spec_domain(0) < o.spec_domain(jm));
                                    }
                                }
                            }
                        }
                    },
                    ExtendedLit::False => {
                        assert(false);
                    },
                    ExtendedLit::Lit(l) => {
                        let ghost j = choose|j: int|
                            0 < j < o.size() && o.spec_domain(j - 1) < val <= o.spec_domain(j) && l == o.spec_at_least(j);
                        proof {
                            if o.coef > 0 {
                                assert(o.encoding.lits@[j - 1].spec_var().0 < n);
                            } else {
                                assert(o.encoding.lits@[o.size() - 1 - j].spec_var().0 < n);
                                assert(lit_wf(o.encoding.lits@[o.size() - 1 - j]));
                            }
                        }
                        clause.push(l);
                        let ghost c1 = clause@;
                        proof {
                            assert forall|k: int| 0 <= k < clause@.len() implies lit_wf(#[trigger] clause@[k]) && clause@[k].spec_var().0 < n by {
                                if k < clause@.len() - 1 {
                                    assert(clause@[k] == old(clause)@[k]);
                                }
                            }
                        }
                        push_in_range(clauses_buf, clause.as_slice(), Ghost(n));
                        proof {
                            lemma_push_prefix(c0, l);
                            lemma_extends_push(old(clauses_buf)@, c0, c1);
                            assert forall|m: Seq<bool>, js: Seq<int>, q: int|
                                #[trigger] ge_complete(info@, idx as int, clauses_buf@, from, c0, p, m, js, q) by {
                                if mixed_model(info@, m, js) && !clause_holds(m, c0) && q <= p && q + mixed_sum_from(info@, js, idx as int) >= 0 {
                                    let jm = js[idx as int];
                                    assert(info@[idx as int].picks(m, jm));
                                    assert(mixed_sum_from(info@, js, idx + 1) == 0);
                                    assert(mixed_sum_from(info@, js, idx as int) == o.spec_domain(jm));
                                    if jm < j {
                                        assert(o.spec_domain(jm) <= o.spec_domain(j - 1)) by {
                                            if jm < j - 1 {
                                                assert(o.spec_domain(jm) < o.spec_domain(j - 1));
                                            }
                                        }
                                    }
                                    assert(lit_holds(m, o.spec_at_least(j)));
                                    lemma_push_holds(m, c0, l);
                                    assert(clauses_buf@[from] == c1);
                                }
                            }
                            assert forall|m: Seq<bool>, js: Seq<int>|
                                #[trigger] ge_sound(info@, idx as int, clauses_buf@, from, c0, p, min_relax_on_erasure, erase_subsumed_clauses, m, js) by {
                                if mixed_model(info@, m, js) && !clause_holds(m, c0) && holds_from(m, clauses_buf@, from) {
                                    let jm = js[idx as int];
                                    assert(info@[idx as int].picks(m, jm));
                                    assert(mixed_sum_from(info@, js, idx + 1) == 0);
                                    assert(mixed_sum_from(info@, js, idx as int) == o.spec_domain(jm));
                                    assert(clauses_buf@[from] == c1);
                                    lemma_push_holds(m, c0, l);
                                    assert(lit_holds(m, o.spec_at_least(j)));
                                    if j < jm {
                                        assert(o.spec_domain(j) < o.spec_domain(jm));
                                    }
                                }
                            }
                        }
                        clause.pop();
                        proof {
                            assert(clause@ =~= old(clause)@);
                        }
                    },
                }
                return;
            }
            let ub_this = o.domain_max() as i128;
            let size = o.domain_size();
            let mut i: usize = 0;
            while i < size - 1
                invariant
                    mixed_infos_wf(info@, n),
                    info@[idx as int] == LinearInfo::Order(*o),
                    o.wf(n),
                    size == o.size(),
                    forall|a: int, b: int| 0 <= a < b < o.size() ==> o.spec_domain(a) < o.spec_domain(b),
                    idx + 1 < info@.len(),
                    info@.len() <= usize::MAX,
                    clause@ == old(clause)@,
                    c0 == old(clause)@,
                    from == old(clauses_buf)@.len(),
                    clause_in_range(clause@, n as int),
                    clauses_in_range(clauses_buf@, n),
                    extends_with(old(clauses_buf)@, clauses_buf@, c0),
                    forall|m: Seq<bool>, js: Seq<int>, q: int|
                        #[trigger] ge_complete(info@, idx as int, clauses_buf@, from, c0, p, m, js, q),
                    forall|m: Seq<bool>, js: Seq<int>|
                        #[trigger] mixed_model(info@, m, js) && !clause_holds(m, c0) && #[trigger] holds_from(m, clauses_buf@, from) && js[idx as int] < i
                            ==> p + mixed_sum_from(info@, js, idx as int) >= 0,
                    upper_bound == p + mixed_max_sum(info@, idx as int),
                    ub_this == o.spec_domain(o.size() - 1),
                    -0x4000_0000_0000_0000 <= ub_this <= 0x4000_0000_0000_0000,
                    mixed_max_sum(info@, idx as int) == ub_this + mixed_max_sum(info@, idx + 1),
                    -partial_bound(idx as int) <= p <= partial_bound(idx as int),
                    -(info@.len() - idx - 1) * 0x4000_0000_0000_0000 <= mixed_max_sum(info@, idx + 1) <= (
                    info@.len() - idx - 1) * 0x4000_0000_0000_0000,
                decreases size - i,
            {
                proof {
                    lemma_order_value_bound(*o, i as int);
                }
                let value = o.domain(i) as i128;
                let next_ub = upper_bound - ub_this + value;
                let l = o.at_least(i + 1);
                proof {
                    if o.coef > 0 {
                        assert(o.encoding.lits@[i as int].spec_var().0 < n);
                    } else {
                        assert(o.encoding.lits@[o.size() - 2 - i].spec_var().0 < n);
                    }
                }
                let ghost before = clauses_buf@;
                clause.push(l);
                let ghost c1 = clause@;
                proof {
                    assert forall|k: int| 0 <= k < clause@.len() implies lit_wf(#[trigger] clause@[k]) && clause@[k].spec_var().0 < n by {
                        if k < clause@.len() - 1 {
                            assert(clause@[k] == old(clause)@[k]);
                        }
                    }
                }
                ge_mixed_sub(
                    info,
                    clause,
                    idx + 1,
                    next_ub,
                    None,
                    clauses_buf,
                    erase_subsumed_clauses,
                    Ghost(n),
                    Ghost(p + value),
                );
                proof {
                    let after = clauses_buf@;
                    lemma_push_prefix(c0, l);
                    lemma_extends_trans(old(clauses_buf)@, before, after, c0, c1);
                    assert forall|m: Seq<bool>, js: Seq<int>, q: int|
                        #[trigger] ge_complete(info@, idx as int, after, from, c0, p, m, js, q) by {
                        if mixed_model(info@, m, js) && !clause_holds(m, c0) && q <= p && q + mixed_sum_from(info@, js, idx as int) >= 0 {
                            assert(ge_complete(info@, idx as int, before, from, c0, p, m, js, q));
                            let jm = js[idx as int];
                            assert(info@[idx as int].picks(m, jm));
                            lemma_push_holds(m, c0, l);
                            lemma_holds_split(m, before, after, from);
                            if jm > i {
                                assert(lit_holds(m, o.spec_at_least(i + 1)));
                                lemma_extends_holds(m, before, after, c1);
                            } else {
                                assert(!lit_holds(m, o.spec_at_least(i + 1)));
                                if jm < i {
                                    assert(o.spec_domain(jm) < o.spec_domain(i as int));
                                }
                                let q2 = q + o.spec_domain(jm);
                                assert(ge_complete(info@, idx + 1, after, before.len() as int, c1, p + value, m, js, q2));
                            }
                        }
                    }
                    assert forall|m: Seq<bool>, js: Seq<int>|
                        #[trigger] mixed_model(info@, m, js) && !clause_holds(m, c0) && #[trigger] holds_from(m, after, from) && js[idx as int] < i + 1
                            implies p + mixed_sum_from(info@, js, idx as int) >= 0 by {
                        lemma_holds_split(m, before, after, from);
                        let jm = js[idx as int];
                        assert(info@[idx as int].picks(m, jm));
                        if jm == i {
                            assert(!lit_holds(m, o.spec_at_least(i + 1)));
                            lemma_push_holds(m, c0, l);
                            assert(ge_sound(info@, idx + 1, after, before.len() as int, c1, p + value, None, erase_subsumed_clauses, m, js));
                        } else {
                            assert(holds_from(m, before, from));
                        }
                    }
                }
                clause.pop();
                proof {
                    assert(clause@ =~= old(clause)@);
                }
                i += 1;
            }
            let ghost before = clauses_buf@;
            ge_mixed_sub(
                info,
                clause,
                idx + 1,
                upper_bound,
                min_relax_on_erasure,
                clauses_buf,
                erase_subsumed_clauses,
                Ghost(n),
                Ghost(p + ub_this),
            );
            proof {
                let after = clauses_buf@;
                lemma_extends_trans(old(clauses_buf)@, before, after, c0, c0);
                assert forall|m: Seq<bool>, js: Seq<int>, q: int|
                    #[trigger] ge_complete(info@, idx as int, after, from, c0, p, m, js, q) by {
                    if mixed_model(info@, m, js) && !clause_holds(m, c0) && q <= p && q + mixed_sum_from(info@, js, idx as int) >= 0 {
                        assert(ge_complete(info@, idx as int, before, from, c0, p, m, js, q));
                        let jm = js[idx as int];
                        assert(info@[idx as int].picks(m, jm));
                        if jm < size - 1 {
                            assert(o.spec_domain(jm) < o.spec_domain(size - 1));
                        }
                        assert(ge_complete(info@, idx + 1, after, before.len() as int, c0, p + ub_this, m, js, q + o.spec_domain(jm)));
                        lemma_holds_split(m, before, after, from);
                    }
                }
                assert forall|m: Seq<bool>, js: Seq<int>|
                    #[trigger] ge_sound(info@, idx as int, after, from, c0, p, min_relax_on_erasure, erase_subsumed_clauses, m, js) by {
                    if mixed_model(info@, m, js) && !clause_holds(m, c0) && holds_from(m, after, from) {
                        lemma_holds_split(m, before, after, from);
                        let jm = js[idx as int];
                        assert(info@[idx as int].picks(m, jm));
                        if jm < size - 1 {
                            assert(holds_from(m, before, from));
                        } else {
                            assert(ge_sound(info@, idx + 1, after, before.len() as int, c0, p + ub_this, min_relax_on_erasure, erase_subsumed_clauses, m, js));
                        }
                    }
                }
            }
        },
        LinearInfo::Direct(d) => {
            proof {
                lemma_direct_value_bound(*d, d.size() - 1);
                d.lemma_increasing();
            }
            let ub_this = d.domain_max() as i128;
            let size = d.domain_size();
            let mut i: usize = 0;
            while i < size - 1
                invariant
                    mixed_infos_wf(info@, n),
                    info@[idx as int] == LinearInfo::Direct(*d),
                    d.wf(n),
                    size == d.size(),
                    forall|a: int, b: int| 0 <= a < b < d.size() ==> d.spec_domain(a) < d.spec_domain(b),
                    idx < info@.len(),
                    info@.len() <= usize::MAX,
                    clause@ == old(clause)@,
                    c0 == old(clause)@,
                    from == old(clauses_buf)@.len(),
                    clause_in_range(clause@, n as int),
                    clauses_in_range(clauses_buf@, n),
                    extends_with(old(clauses_buf)@, clauses_buf@, c0),
                    forall|m: Seq<bool>, js: Seq<int>, q: int|
                        #[trigger] ge_complete(info@, idx as int, clauses_buf@, from, c0, p, m, js, q),
                    forall|m: Seq<bool>, js: Seq<int>|
                        #[trigger] mixed_model(info@, m, js) && !clause_holds(m, c0) && #[trigger] holds_from(m, clauses_buf@, from) && js[idx as int] < i
                            && p + mixed_sum_from(info@, js, idx as int) < 0 ==> erase_subsumed_clauses && p + mixed_sum_from(
                            info@,
                            js,
                            idx as int,
                        ) + next_relax(min_relax_on_erasure, ub_this - d.spec_domain(js[idx as int])) < 0,
                    upper_bound == p + mixed_max_sum(info@, idx as int),
                    ub_this == d.spec_domain(d.size() - 1),
                    -0x4000_0000_0000_0000 <= ub_this <= 0x4000_0000_0000_0000,
                    mixed_max_sum(info@, idx as int) == ub_this + mixed_max_sum(info@, idx + 1),
                    -partial_bound(idx as int) <= p <= partial_bound(idx as int),
                    -(info@.len() - idx - 1) * 0x4000_0000_0000_0000 <= mixed_max_sum(info@, idx + 1) <= (
                    info@.len() - idx - 1) * 0x4000_0000_0000_0000,
                    min_relax_on_erasure matches Some(m) ==> 0 <= m <= 0x1_0000_0000_0000_0000,
                decreases size - i,
            {
                proof {
                    lemma_direct_value_bound(*d, i as int);
                }
                let value = d.domain(i) as i128;
                let next_ub = upper_bound - ub_this + value;
                let relax = ub_this - value;
                let base = match min_relax_on_erasure {
                    Some(m) => m,
                    None => 0x1_0000_0000_0000_0000,
                };
                let next_min_relax = if base < relax {
                    base
                } else {
                    relax
                };
                assert(next_min_relax == next_relax(min_relax_on_erasure, ub_this - d.spec_domain(i as int)));
                assert(0 <= relax) by {
                    if (i as int) < d.size() - 1 {
                        assert(d.spec_domain(i as int) < d.spec_domain(d.size() - 1));
                    }
                }
                let l = d.equals(i);
                proof {
                    if d.coef > 0 {
                        assert(d.encoding.lits@[i as int].spec_var().0 < n);
                    } else {
                        assert(d.encoding.lits@[d.size() - 1 - i].spec_var().0 < n);
                    }
                }
                let ghost before = clauses_buf@;
                clause.push(l.negate());
                let ghost c1 = clause@;
                proof {
                    assert forall|k: int| 0 <= k < clause@.len() implies lit_wf(#[trigger] clause@[k]) && clause@[k].spec_var().0 < n by {
                        if k < clause@.len() - 1 {
                            assert(clause@[k] == old(clause)@[k]);
                        }
                    }
                }
                ge_mixed_sub(
                    info,
                    clause,
                    idx + 1,
                    next_ub,
                    Some(next_min_relax),
                    clauses_buf,
                    erase_subsumed_clauses,
                    Ghost(n),
                    Ghost(p + value),
                );
                proof {
                    let after = clauses_buf@;
                    lemma_push_prefix(c0, l.spec_not());
                    lemma_extends_trans(old(clauses_buf)@, before, after, c0, c1);
                    assert forall|m: Seq<bool>, js: Seq<int>, q: int|
                        #[trigger] ge_complete(info@, idx as int, after, from, c0, p, m, js, q) by {
                        if mixed_model(info@, m, js) && !clause_holds(m, c0) && q <= p && q + mixed_sum_from(info@, js, idx as int) >= 0 {
                            assert(ge_complete(info@, idx as int, before, from, c0, p, m, js, q));
                            let jm = js[idx as int];
                            assert(info@[idx as int].picks(m, jm));
                            lemma_picks_equals(*d, m, jm, i as int);
                            lemma_push_holds(m, c0, l.spec_not());
                            lemma_holds_split(m, before, after, from);
                            if jm != i {
                                lemma_extends_holds(m, before, after, c1);
                            } else {
                                assert(ge_complete(info@, idx + 1, after, before.len() as int, c1, p + value, m, js, q + value));
                            }
                        }
                    }
                    assert forall|m: Seq<bool>, js: Seq<int>|
                        #[trigger] mixed_model(info@, m, js) && !clause_holds(m, c0) && #[trigger] holds_from(m, after, from) && js[idx as int] < i + 1
                            && p + mixed_sum_from(info@, js, idx as int) < 0 implies erase_subsumed_clauses && p + mixed_sum_from(
                            info@,
                            js,
                            idx as int,
                        ) + next_relax(min_relax_on_erasure, ub_this - d.spec_domain(js[idx as int])) < 0 by {
                        lemma_holds_split(m, before, after, from);
                        let jm = js[idx as int];
                        assert(info@[idx as int].picks(m, jm));
                        if jm == i {
                            lemma_picks_equals(*d, m, jm, i as int);
                            lemma_push_holds(m, c0, l.spec_not());
                            assert(ge_sound(
                                info@,
                                idx + 1,
                                after,
                                before.len() as int,
                                c1,
                                p + value,
                                Some(next_min_relax),
                                erase_subsumed_clauses,
                                m,
                                js,
                            ));
                        } else {
                            assert(holds_from(m, before, from));
                        }
                    }
                }
                clause.pop();
                proof {
                    assert(clause@ =~= old(clause)@);
                }
                i += 1;
            }
            let ghost before = clauses_buf@;
            ge_mixed_sub(
                info,
                clause,
                idx + 1,
                upper_bound,
                min_relax_on_erasure,
                clauses_buf,
                erase_subsumed_clauses,
                Ghost(n),
                Ghost(p + ub_this),
            );
            proof {
                let after = clauses_buf@;
                lemma_extends_trans(old(clauses_buf)@, before, after, c0, c0);
                assert forall|m: Seq<bool>, js: Seq<int>, q: int|
                    #[trigger] ge_complete(info@, idx as int, after, from, c0, p, m, js, q) by {
                    if mixed_model(info@, m, js) && !clause_holds(m, c0) && q <= p && q + mixed_sum_from(info@, js, idx as int) >= 0 {
                        assert(ge_complete(info@, idx as int, before, from, c0, p, m, js, q));
                        let jm = js[idx as int];
                        assert(info@[idx as int].picks(m, jm));
                        if jm < size - 1 {
                            assert(d.spec_domain(jm) < d.spec_domain(size - 1));
                        }
                        assert(ge_complete(info@, idx + 1, after, before.len() as int, c0, p + ub_this, m, js, q + d.spec_domain(jm)));
                        lemma_holds_split(m, before, after, from);
                    }
                }
                assert forall|m: Seq<bool>, js: Seq<int>|
                    #[trigger] ge_sound(info@, idx as int, after, from, c0, p, min_relax_on_erasure, erase_subsumed_clauses, m, js) by {
                    if mixed_model(info@, m, js) && !clause_holds(m, c0) && holds_from(m, after, from) && p + mixed_sum_from(info@, js, idx as int) < 0 {
                        lemma_holds_split(m, before, after, from);
                        let jm = js[idx as int];
                        assert(info@[idx as int].picks(m, jm));
                        let s = p + mixed_sum_from(info@, js, idx as int);
                        assert(mixed_sum_from(info@, js, idx as int) == info@[idx as int].value(jm) + mixed_sum_from(info@, js, idx + 1));
                        assert(info@[idx as int].value(jm) == d.spec_domain(jm));
                        let relax = ub_this - d.spec_domain(jm);
                        assert(relax >= 0) by {
                            if jm < size - 1 {
                                assert(d.spec_domain(jm) < d.spec_domain(size - 1));
                            }
                        }
                        assert(ge_sound(info@, idx + 1, after, before.len() as int, c0, p + ub_this, min_relax_on_erasure, erase_subsumed_clauses, m, js));
                        assert(p + ub_this + mixed_sum_from(info@, js, idx + 1) == s + relax);
                        lemma_direct_value_bound(*d, jm);
                        if jm < size - 1 {
                            assert(holds_from(m, before, from));
                            let nr = next_relax(min_relax_on_erasure, relax);
                            assert(s + nr < 0);
                            if s + relax >= 0 {
                                assert(nr != relax);
                                assert(min_relax_on_erasure is Some);
                            }
                        } else {
                            assert(relax == 0);
                        }
                    }
                }
            }
        },
    }
}

/// Clauses of `sum(info) + constant >= 0` over the variables of `sat`;
/// with `erase_subsumed_clauses`, clauses that a shorter one already
/// implies are left out.
pub fn encode_linear_ge_mixed_from_info(
    info: &Vec<LinearInfo>,
    constant: i32,
    erase_subsumed_clauses: bool,
    sat: &SAT,
) -> (r: ClauseSet)
    requires
        mixed_infos_wf(info@, sat.spec_num_vars()),
    ensures
        clauses_in_range(r@, sat.spec_num_vars()),
        forall|m: Seq<bool>, js: Seq<int>|
            #[trigger] mixed_model(info@, m, js) ==> (clauses_hold(m, r@) <==> constant + mixed_sum_from(info@, js, 0) >= 0),
{
    let ghost n = sat.spec_num_vars();
    let len = info.len();
    proof {
        lemma_mixed_sum_bound(info@, 0, n);
        assert(info@.len() <= usize::MAX);
    }
    let mut upper_bound: i128 = constant as i128;
    let mut k: usize = 0;
    while k < len
        invariant
            mixed_infos_wf(info@, n),
            len == info@.len(),
            k <= len,
            info@.len() <= usize::MAX,
            upper_bound + mixed_max_sum(info@, k as int) == constant + mixed_max_sum(info@, 0),
            -partial_bound(k as int) <= upper_bound <= partial_bound(k as int),
        decreases len - k,
    {
        assert(info@[k as int].wf(n));
        let m = match &info[k] {
            LinearInfo::Order(o) => {
                proof {
                    lemma_order_value_bound(*o, o.size() - 1);
                }
                o.domain_max()
            },
            LinearInfo::Direct(d) => {
                proof {
                    lemma_direct_value_bound(*d, d.size() - 1);
                }
                d.domain_max()
            },
        };
        upper_bound = upper_bound + m as i128;
        k += 1;
    }
    let mut clauses_buf = ClauseSet::new();
    let mut clause: Vec<Lit> = Vec::new();
    ge_mixed_sub(
        info,
        &mut clause,
        0,
        upper_bound,
        None,
        &mut clauses_buf,
        erase_subsumed_clauses,
        Ghost(n),
        Ghost(constant as int),
    );
    proof {
        assert forall|m: Seq<bool>, js: Seq<int>| #[trigger] mixed_model(info@, m, js) implies (clauses_hold(
            m,
            clauses_buf@,
        ) <==> constant + mixed_sum_from(info@, js, 0) >= 0) by {
            assert(!clause_holds(m, Seq::<Lit>::empty()));
            assert(ge_complete(info@, 0, clauses_buf@, 0, Seq::empty(), constant as int, m, js, constant as int));
            assert(ge_sound(info@, 0, clauses_buf@, 0, Seq::empty(), constant as int, None, erase_subsumed_clauses, m, js));
        }
    }
    clauses_buf
}

/// Every variable of `sum` is encoded in `map`.
pub open spec fn all_encoded(map: EncodeMap, sum: LinearSum) -> bool {
    forall|k: int| 0 <= k < sum.term@.len() ==> (#[trigger] map.int_enc(sum.term@[k].0.0 as int)) is Some
}

/// The terms of `sum` read through their encodings, order encoding first.
pub fn mixed_infos<'a>(map: &'a EncodeMap, sat: &SAT, sum: &LinearSum) -> (r: Vec<LinearInfo<'a>>)
    requires
        map.wf(sat.spec_num_vars()),
        sum.wf(),
        all_encoded(*map, *sum),
    ensures
        r@.len() == sum.term@.len(),
        mixed_infos_wf(r@, sat.spec_num_vars()),
        forall|k: int| 0 <= k < r@.len() ==> term_read_as(*map, *sum, k, #[trigger] r@[k]),
{
    let ghost n = sat.spec_num_vars();
    let mut r: Vec<LinearInfo<'a>> = Vec::new();
    let mut k: usize = 0;
    while k < sum.term.len()
        invariant
            map.wf(n),
            sum.wf(),
            all_encoded(*map, *sum),
            k <= sum.term@.len(),
            r@.len() == k,
            mixed_infos_wf(r@, n),
            forall|j: int| 0 <= j < k ==> term_read_as(*map, *sum, j, #[trigger] r@[j]),
        decreases sum.term@.len() - k,
    {
        let (var, coef) = sum.term[k];
        assert(sum.term@[k as int].1 != 0);
        let slot = map.int_encoding(var);
        assert(map.int_enc(sum.term@[k as int].0.0 as int) is Some);
        assert(map.int_enc(var.0 as int)->0.wf(n));
        let ghost prev = r@;
        match slot {
            Some(Encoding::Order(e)) => {
                r.push(LinearInfo::Order(LinearInfoForOrderEncoding::new(coef, e)));
            },
            Some(Encoding::Direct(e)) => {
                r.push(LinearInfo::Direct(LinearInfoForDirectEncoding::new(coef, e)));
            },
            None => {
                assert(false);
            },
        }
        proof {
            assert forall|j: int| 0 <= j < r@.len() implies (#[trigger] r@[j]).wf(n) by {
                if j < k {
                    assert(r@[j] == prev[j]);
                }
            }
            assert forall|j: int| 0 <= j < r@.len() implies term_read_as(*map, *sum, j, #[trigger] r@[j]) by {
                if j < k {
                    assert(r@[j] == prev[j]);
                }
            }
        }
        k += 1;
    }
    r
}

/// Term `k` of `sum` read through the encoding of its variable in `map`.
pub open spec fn term_read_as(map: EncodeMap, sum: LinearSum, k: int, x: LinearInfo) -> bool {
    match x {
        LinearInfo::Order(o) => o.coef == sum.term@[k].1 && map.int_enc(sum.term@[k].0.0 as int) == Some(
            Encoding::Order(*o.encoding),
        ),
        LinearInfo::Direct(o) => o.coef == sum.term@[k].1 && map.int_enc(sum.term@[k].0.0 as int) == Some(
            Encoding::Direct(*o.encoding),
        ),
    }
}

/// Under `m` every variable of `sum` reads its value in `vals` through its
/// encoding in `map`.
pub open spec fn reads_sum(map: EncodeMap, sum: LinearSum, m: Seq<bool>, vals: Seq<int>) -> bool {
    forall|k: int|
        0 <= k < sum.term@.len() ==> match #[trigger] map.int_enc(sum.term@[k].0.0 as int) {
            Some(Encoding::Direct(e)) => direct_reads(e, m, vals[sum.term@[k].0.0 as int]),
            Some(Encoding::Order(e)) => order_reads(e, m, vals[sum.term@[k].0.0 as int]),
            None => false,
        }
}

/// The picked values of the terms from `from` on add up to the value of
/// the terms from `from` on.
proof fn lemma_mixed_sum_terms(sum: LinearSum, info: Seq<LinearInfo>, js: Seq<int>, vals: Seq<int>, from: int)
    requires
        info.len() == sum.term@.len(),
        0 <= from <= info.len(),
        forall|k: int|
            0 <= k < info.len() ==> (#[trigger] info[k]).value(js[k]) == sum.term@[k].1 * vals[sum.term@[k].0.0 as int],
    ensures
        mixed_sum_from(info, js, from) == terms_value(sum.term@.subrange(from, info.len() as int), vals),
    decreases info.len() - from,
{
    let t = sum.term@;
    if from == info.len() {
        assert(t.subrange(from, info.len() as int) =~= Seq::<(IntVar, i32)>::empty());
    } else {
        lemma_mixed_sum_terms(sum, info, js, vals, from + 1);
        let head = seq![t[from]];
        let rest = t.subrange(from + 1, info.len() as int);
        assert(t.subrange(from, info.len() as int) =~= head + rest);
        lemma_terms_value_concat(head, rest, vals);
        lemma_terms_value_single(t[from], vals);
    }
}

/// Reading the variables of `sum` through their encodings picks, for each
/// term, the position of its value, and the picked values plus the
/// constant make the value of the sum.
proof fn lemma_reads_model(map: EncodeMap, sum: LinearSum, info: Seq<LinearInfo>, m: Seq<bool>, vals: Seq<int>, n: nat) -> (js: Seq<int>)
    requires
        info.len() == sum.term@.len(),
        forall|k: int| 0 <= k < info.len() ==> term_read_as(map, sum, k, #[trigger] info[k]),
        mixed_infos_wf(info, n),
        reads_sum(map, sum, m, vals),
    ensures
        mixed_model(info, m, js),
        sum.constant + mixed_sum_from(info, js, 0) == sum.value(vals),
{
    let js = Seq::new(
        info.len(),
        |k: int|
            {
                let val = vals[sum.term@[k].0.0 as int];
                match info[k] {
                    LinearInfo::Order(o) => {
                        let i = choose|i: int| 0 <= i < o.encoding.domain@.len() && o.encoding.domain@[i] == val;
                        if o.coef > 0 {
                            i
                        } else {
                            o.encoding.domain@.len() - 1 - i
                        }
                    },
                    LinearInfo::Direct(x) => {
                        let i = choose|i: int| 0 <= i < x.encoding.domain@.len() && x.encoding.domain@[i] == val;
                        if x.coef > 0 {
                            i
                        } else {
                            x.encoding.domain@.len() - 1 - i
                        }
                    },
                }
            },
    );
    assert forall|k: int| 0 <= k < info.len() implies (#[trigger] info[k]).picks(m, js[k]) && info[k].value(js[k])
        == sum.term@[k].1 * vals[sum.term@[k].0.0 as int] by {
        let val = vals[sum.term@[k].0.0 as int];
        assert(term_read_as(map, sum, k, info[k]));
        assert(info[k].wf(n));
        match info[k] {
            LinearInfo::Order(o) => {
                let e = *o.encoding;
                assert(map.int_enc(sum.term@[k].0.0 as int) == Some(Encoding::Order(e)));
                assert(order_reads(e, m, val));
                let i = choose|i: int| 0 <= i < e.domain@.len() && e.domain@[i] == val;
                let sz = e.domain@.len();
                assert forall|t: int| 0 < t < o.size() implies (lit_holds(m, #[trigger] o.spec_at_least(t)) <==> t <= js[k]) by {
                    if o.coef > 0 {
                        assert(o.spec_at_least(t) == e.lits@[t - 1]);
                        assert(lit_holds(m, e.lits@[t - 1]) <==> e.domain@[t] <= val);
                        if t <= i {
                            if t < i {
                                assert(e.domain@[t] < e.domain@[i]);
                            }
                        } else {
                            assert(e.domain@[i] < e.domain@[t]);
                        }
                    } else {
                        let w = sz - 1 - t;
                        assert(o.spec_at_least(t) == e.lits@[w].spec_not());
                        lemma_lit_negation(e.lits@[w]);
                        assert(lit_holds(m, e.lits@[w]) <==> e.domain@[w + 1] <= val);
                        if w + 1 <= i {
                            if w + 1 < i {
                                assert(e.domain@[w + 1] < e.domain@[i]);
                            }
                        } else {
                            assert(e.domain@[i] < e.domain@[w + 1]);
                        }
                    }
                }
                let c = o.coef as int;
                assert(e.domain@[i] * c == c * val) by (nonlinear_arith)
                    requires
                        e.domain@[i] == val,
                ;
            },
            LinearInfo::Direct(x) => {
                let e = *x.encoding;
                assert(map.int_enc(sum.term@[k].0.0 as int) == Some(Encoding::Direct(e)));
                assert(direct_reads(e, m, val));
                let i = choose|i: int| 0 <= i < e.domain@.len() && e.domain@[i] == val;
                let sz = e.domain@.len();
                assert(lit_holds(m, e.lits@[i]));
                assert forall|t: int| 0 <= t < x.size() && t != js[k] implies !lit_holds(m, #[trigger] x.spec_equals(t)) by {
                    let it = if x.coef > 0 { t } else { sz - 1 - t };
                    assert(x.spec_equals(t) == e.lits@[it]);
                    if it < i {
                        assert(e.domain@[it] < e.domain@[i]);
                    } else if it > i {
                        assert(e.domain@[i] < e.domain@[it]);
                    }
                }
                let c = x.coef as int;
                assert(e.domain@[i] * c == c * val) by (nonlinear_arith)
                    requires
                        e.domain@[i] == val,
                ;
            },
        }
    }
    lemma_mixed_sum_terms(sum, info, js, vals, 0);
    assert(sum.term@.subrange(0, info.len() as int) =~= sum.term@);
    js
}

/// An order-encoded term whose variable reads `val` takes the position of
/// `val` among its values, and its value there is `coef * val`.
pub proof fn lemma_order_reads_picks(o: LinearInfoForOrderEncoding, m: Seq<bool>, val: int) -> (j: int)
    requires
        o.shaped(),
        order_reads(*o.encoding, m, val),
    ensures
        o.picks(m, j),
        o.spec_domain(j) == o.coef * val,
{
    let e = *o.encoding;
    let i = choose|i: int| 0 <= i < e.domain@.len() && e.domain@[i] == val;
    let sz = e.domain@.len();
    let j = if o.coef > 0 { i } else { sz - 1 - i };
    assert forall|t: int| 0 < t < o.size() implies (lit_holds(m, #[trigger] o.spec_at_least(t)) <==> t <= j) by {
        if o.coef > 0 {
            assert(o.spec_at_least(t) == e.lits@[t - 1]);
            assert(lit_holds(m, e.lits@[t - 1]) <==> e.domain@[t] <= val);
            if t <= i {
                if t < i {
                    assert(e.domain@[t] < e.domain@[i]);
                }
            } else {
                assert(e.domain@[i] < e.domain@[t]);
            }
        } else {
            let w = sz - 1 - t;
            assert(o.spec_at_least(t) == e.lits@[w].spec_not());
            lemma_lit_negation(e.lits@[w]);
            assert(lit_holds(m, e.lits@[w]) <==> e.domain@[w + 1] <= val);
            if w + 1 <= i {
                if w + 1 < i {
                    assert(e.domain@[w + 1] < e.domain@[i]);
                }
            } else {
                assert(e.domain@[i] < e.domain@[w + 1]);
            }
        }
    }
    let c = o.coef as int;
    assert(e.domain@[i] * c == c * val) by (nonlinear_arith)
        requires
            e.domain@[i] == val,
    ;
    j
}

/// Clauses whose conjunction encodes `sum >= 0`: under any assignment in
/// which each variable's encoding reads one of its values, they all hold
/// exactly when the sum is not negative.
pub fn encode_linear_ge_mixed(map: &EncodeMap, sat: &SAT, sum: &LinearSum) -> (r: ClauseSet)
    requires
        map.wf(sat.spec_num_vars()),
        sum.wf(),
        all_encoded(*map, *sum),
    ensures
        clauses_in_range(r@, sat.spec_num_vars()),
        forall|m: Seq<bool>, vals: Seq<int>|
            #[trigger] reads_sum(*map, *sum, m, vals) ==> (clauses_hold(m, r@) <==> sum.value(vals) >= 0),
{
    let info = mixed_infos(map, sat, sum);
    let r = encode_linear_ge_mixed_from_info(&info, sum.constant, true, sat);
    proof {
        assert forall|m: Seq<bool>, vals: Seq<int>| #[trigger] reads_sum(*map, *sum, m, vals) implies (clauses_hold(m, r@)
            <==> sum.value(vals) >= 0) by {
            let js = lemma_reads_model(*map, *sum, info@, m, vals, sat.spec_num_vars());
        }
    }
    r
}

} // verus!
