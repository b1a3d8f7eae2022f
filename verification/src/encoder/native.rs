use vstd::prelude::*;

use super::mixed::{
    all_encoded, encode_linear_ge_mixed_from_info, lemma_order_reads_picks, mixed_infos_wf, mixed_model, mixed_sum_from,
    reads_sum, LinearInfo,
};
use super::direct::direct_reads;
use super::order::{order_reads, LinearInfoForOrderEncoding, OrderEncoding};
use super::{clauses_in_range, ClauseSet, EncodeMap, Encoding};
use crate::config::Config;
use crate::domain::strictly_sorted;
use crate::norm_csp::{IntVar, LinearSum};
use crate::norm_csp::linear::{lemma_terms_value_concat, lemma_terms_value_single, terms_value};
use crate::sat::{clause_in_range, clauses_hold, lit_wf, Lit, OrderEncodingLinearMode, SAT};

verus! {

/// The terms of a native linear constraint are well formed: the same number
/// of literal lists, domains and coefficients; each domain non-empty and
/// increasing with one literal per value but the first; no zero
/// coefficient; every literal over the first `n` variables.
pub open spec fn native_terms_ok(lits: Seq<Vec<Lit>>, domain: Seq<Vec<i32>>, coefs: Seq<i32>, n: nat) -> bool {
    &&& lits.len() == domain.len()
    &&& domain.len() == coefs.len()
    &&& forall|i: int|
        0 <= i < domain.len() ==> (#[trigger] domain[i])@.len() >= 1 && strictly_sorted(domain[i]@) && lits[i]@.len()
            + 1 == domain[i]@.len() && clause_in_range(lits[i]@, n as int) && coefs[i] != 0
}

impl SAT {
    /// Adds `sum_i coefs[i] * x_i + constant >= 0`, where `x_i` is the
    /// order-encoded variable with values `domain[i]` and literals
    /// `lits[i]`. The built-in engine adds the constraint as clauses, the
    /// same whatever `mode` names.
    pub fn add_order_encoding_linear(
        &mut self,
        lits: Vec<Vec<Lit>>,
        domain: Vec<Vec<i32>>,
        coefs: Vec<i32>,
        constant: i32,
        mode: OrderEncodingLinearMode,
    )
        requires
            old(self).wf(),
            native_terms_ok(lits@, domain@, coefs@, old(self).spec_num_vars()),
        ensures
            final(self).wf(),
            final(self).spec_num_vars() == old(self).spec_num_vars(),
            final(self).spec_backend() == old(self).spec_backend(),
            final(self).spec_exhausted() == old(self).spec_exhausted(),
            final(self).spec_clauses().len() >= old(self).spec_clauses().len(),
            final(self).spec_clauses().subrange(0, old(self).spec_clauses().len() as int) == old(self).spec_clauses(),
            forall|m: Seq<bool>, vals: Seq<int>|
                #[trigger] native_reads(lits@, domain@, m, vals) ==> (clauses_hold(
                    m,
                    final(self).spec_clauses().subrange(old(self).spec_clauses().len() as int, final(self).spec_clauses().len() as int),
                ) <==> constant + native_sum(coefs@, vals, 0) >= 0),
    {
        let ghost n = self.spec_num_vars();
        let mut encs: Vec<OrderEncoding> = Vec::new();
        let mut rest_l = lits;
        let mut rest_d = domain;
        let ghost l0 = rest_l@;
        let ghost d0 = rest_d@;
        let total = rest_d.len();
        let mut i: usize = 0;
        while i < total
            invariant
                native_terms_ok(l0, d0, coefs@, n),
                total == d0.len(),
                i <= total,
                rest_l@ == l0.subrange(i as int, total as int),
                rest_d@ == d0.subrange(i as int, total as int),
                encs@.len() == i,
                forall|k: int| 0 <= k < i ==> (#[trigger] encs@[k]).wf(n) && encs@[k].domain == d0[k] && encs@[k].lits == l0[k],
            decreases total - i,
        {
            let l = rest_l.remove(0);
            let d = rest_d.remove(0);
            assert(l == l0[i as int] && d == d0[i as int]);
            let e = OrderEncoding { domain: d, lits: l };
            proof {
                assert(d0[i as int]@.len() >= 1);
                assert forall|t: int| 0 <= t < e.lits@.len() implies lit_wf(#[trigger] e.lits@[t]) by {
                    assert(clause_in_range(l0[i as int]@, n as int));
                }
            }
            encs.push(e);
            proof {
                assert forall|k: int| 0 <= k < i + 1 implies (#[trigger] encs@[k]).wf(n) && encs@[k].domain == d0[k] && encs@[k].lits == l0[k] by {
                    if k < i {
                        assert(encs@[k] == encs@.drop_last()[k]);
                    }
                }
            }
            i += 1;
        }
        let mut infos: Vec<LinearInfo> = Vec::new();
        let mut k: usize = 0;
        while k < total
            invariant
                native_terms_ok(l0, d0, coefs@, n),
                total == d0.len(),
                encs@.len() == total,
                forall|t: int| 0 <= t < total ==> (#[trigger] encs@[t]).wf(n) && encs@[t].domain == d0[t] && encs@[t].lits == l0[t],
                k <= total,
                infos@.len() == k,
                mixed_infos_wf(infos@, n),
                forall|t: int| 0 <= t < k ==> (#[trigger] infos@[t]) == LinearInfo::Order(LinearInfoForOrderEncoding { coef: coefs@[t], encoding: &encs@[t] }),
            decreases total - k,
        {
            let c = coefs[k];
            assert(coefs@[k as int] != 0) by {
                assert(d0[k as int]@.len() >= 1);
            }
            let ghost prev = infos@;
            infos.push(LinearInfo::Order(LinearInfoForOrderEncoding::new(c, &encs[k])));
            proof {
                assert forall|t: int| 0 <= t < infos@.len() implies (#[trigger] infos@[t]).wf(n) by {
                    if t < k {
                        assert(infos@[t] == prev[t]);
                    }
                }
                assert forall|t: int| 0 <= t < k + 1 implies (#[trigger] infos@[t]) == LinearInfo::Order(LinearInfoForOrderEncoding { coef: coefs@[t], encoding: &encs@[t] }) by {
                    if t < k {
                        assert(infos@[t] == prev[t]);
                    }
                }
            }
            k += 1;
        }
        let clauses = encode_linear_ge_mixed_from_info(&infos, constant, true, self);
        let ghost c0 = self.spec_clauses();
        add_clause_set(self, &clauses);
        proof {
            assert(self.spec_clauses().subrange(c0.len() as int, self.spec_clauses().len() as int) =~= clauses@);
            assert(self.spec_clauses().subrange(0, c0.len() as int) =~= c0);
            assert forall|m: Seq<bool>, vals: Seq<int>| #[trigger] native_reads(l0, d0, m, vals) implies (clauses_hold(m, clauses@)
                <==> constant + native_sum(coefs@, vals, 0) >= 0) by {
                let js = Seq::new(
                    total as nat,
                    |t: int| {
                        let o = LinearInfoForOrderEncoding { coef: coefs@[t], encoding: &encs@[t] };
                        choose|j: int| o.picks(m, j) && o.spec_domain(j) == o.coef * vals[t]
                    },
                );
                assert forall|t: int| 0 <= t < total implies (#[trigger] infos@[t]).picks(m, js[t]) && infos@[t].value(js[t]) == coefs@[t] * vals[t] by {
                    let o = LinearInfoForOrderEncoding { coef: coefs@[t], encoding: &encs@[t] };
                    assert(encs@[t].wf(n));
                    assert(coefs@[t] != 0) by {
                        assert(d0[t]@.len() >= 1);
                    }
                    assert(*o.encoding == OrderEncoding { domain: d0[t], lits: l0[t] });
                    assert(order_reads(*o.encoding, m, vals[t]));
                    let j = lemma_order_reads_picks(o, m, vals[t]);
                }
                lemma_native_sum(infos@, js, coefs@, vals, 0);
                assert(mixed_model(infos@, m, js));
            }
        }
    }
}

/// Under `m` each order-encoded term `i` (values `domain[i]`, literals
/// `lits[i]`) reads its value `vals[i]`.
pub open spec fn native_reads(lits: Seq<Vec<Lit>>, domain: Seq<Vec<i32>>, m: Seq<bool>, vals: Seq<int>) -> bool {
    &&& vals.len() == domain.len()
    &&& forall|i: int| 0 <= i < domain.len() ==> order_reads(OrderEncoding { domain: #[trigger] domain[i], lits: lits[i] }, m, vals[i])
}

/// `sum_i coefs[i] * vals[i]` over `i >= from`.
pub open spec fn native_sum(coefs: Seq<i32>, vals: Seq<int>, from: int) -> int
    decreases coefs.len() - from,
{
    if from < 0 || from >= coefs.len() {
        0
    } else {
        coefs[from] * vals[from] + native_sum(coefs, vals, from + 1)
    }
}

proof fn lemma_native_sum(info: Seq<LinearInfo>, js: Seq<int>, coefs: Seq<i32>, vals: Seq<int>, from: int)
    requires
        info.len() == coefs.len(),
        0 <= from <= info.len(),
        forall|t: int| 0 <= t < info.len() ==> (#[trigger] info[t]).value(js[t]) == coefs[t] * vals[t],
    ensures
        mixed_sum_from(info, js, from) == native_sum(coefs, vals, from),
    decreases info.len() - from,
{
    if from < info.len() {
        lemma_native_sum(info, js, coefs, vals, from + 1);
    }
}

/// Adds every clause of `clauses`.
pub fn add_clause_set(sat: &mut SAT, clauses: &ClauseSet)
    requires
        old(sat).wf(),
        clauses_in_range(clauses@, old(sat).spec_num_vars()),
    ensures
        final(sat).wf(),
        final(sat).spec_num_vars() == old(sat).spec_num_vars(),
        final(sat).spec_backend() == old(sat).spec_backend(),
        final(sat).spec_exhausted() == old(sat).spec_exhausted(),
        final(sat).spec_clauses() == old(sat).spec_clauses() + clauses@,
{
    let mut j: usize = 0;
    while j < clauses.len()
        invariant
            sat.wf(),
            sat.spec_num_vars() == old(sat).spec_num_vars(),
            sat.spec_backend() == old(sat).spec_backend(),
            sat.spec_exhausted() == old(sat).spec_exhausted(),
            clauses_in_range(clauses@, sat.spec_num_vars()),
            j <= clauses@.len(),
            sat.spec_clauses() == old(sat).spec_clauses() + clauses@.take(j as int),
        decreases clauses@.len() - j,
    {
        let c = clauses.get(j);
        assert(clause_in_range(clauses@[j as int], sat.spec_num_vars() as int));
        sat.add_clause(c);
        assert(sat.spec_clauses() =~= old(sat).spec_clauses() + clauses@.take(j + 1));
        j += 1;
    }
    assert(clauses@.take(j as int) =~= clauses@);
}

/// The number of values of an order-encoded variable, or one.
pub open spec fn order_size(map: EncodeMap, v: IntVar) -> int {
    match map.int_enc(v.0 as int) {
        Some(Encoding::Order(e)) => e.domain@.len() as int,
        _ => 1,
    }
}

/// The product of the numbers of values of the first `k` variables of
/// `sum`, stopping at `usize::MAX`.
pub open spec fn order_domain_product(map: EncodeMap, sum: LinearSum, k: int) -> int
    decreases k,
{
    if k <= 0 {
        1
    } else {
        let p = order_domain_product(map, sum, k - 1) * order_size(map, sum.term@[k - 1].0);
        if p > usize::MAX {
            usize::MAX as int
        } else {
            p
        }
    }
}


/// Whether `sum >= 0` goes to the native linear constraint: every variable
/// order-encoded, at most `native_linear_encoding_terms` terms, and a product
/// of domain sizes of at least `native_linear_encoding_domain_product_threshold`.
pub fn is_ge_order_encoding_native_applicable(map: &EncodeMap, config: &Config, sum: &LinearSum) -> (r: bool)
    requires
        exists|n: nat| map.wf(n),
        all_encoded(*map, *sum),
    ensures
        r ==> forall|k: int|
            0 <= k < sum.term@.len() ==> (#[trigger] map.int_enc(sum.term@[k].0.0 as int)) matches Some(Encoding::Order(_)),
        r ==> sum.term@.len() <= config.native_linear_encoding_terms,
        r == ((forall|k: int|
            0 <= k < sum.term@.len() ==> (#[trigger] map.int_enc(sum.term@[k].0.0 as int)) matches Some(Encoding::Order(_)))
            && sum.term@.len() <= config.native_linear_encoding_terms && order_domain_product(*map, *sum, sum.term@.len() as int)
            >= config.native_linear_encoding_domain_product_threshold),
{
    let len = sum.term.len();
    let mut k: usize = 0;
    while k < len
        invariant
            exists|n: nat| map.wf(n),
            len == sum.term@.len(),
            k <= len,
            forall|j: int| 0 <= j < k ==> (#[trigger] map.int_enc(sum.term@[j].0.0 as int)) matches Some(Encoding::Order(_)),
        decreases len - k,
    {
        let slot = map.int_encoding(sum.term[k].0);
        match slot {
            Some(Encoding::Order(_)) => {},
            _ => {
                assert(!(map.int_enc(sum.term@[k as int].0.0 as int) matches Some(Encoding::Order(_))));
                return false;
            },
        }
        k += 1;
    }
    if len > config.native_linear_encoding_terms {
        return false;
    }
    let mut domain_product: usize = 1;
    let mut k: usize = 0;
    while k < len
        invariant
            exists|n: nat| map.wf(n),
            len == sum.term@.len(),
            k <= len,
            domain_product == order_domain_product(*map, *sum, k as int),
        decreases len - k,
    {
        let slot = map.int_encoding(sum.term[k].0);
        let size = match slot {
            Some(Encoding::Order(e)) => e.domain.len(),
            _ => 1,
        };
        domain_product = match domain_product.checked_mul(size) {
            Some(p) => p,
            None => usize::MAX,
        };
        k += 1;
    }
    let r = domain_product >= config.native_linear_encoding_domain_product_threshold;
    r
}

/// Adds `sum >= 0` over order-encoded variables as a native linear
/// constraint.
pub fn encode_linear_ge_order_encoding_native(map: &EncodeMap, sat: &mut SAT, config: &Config, sum: &LinearSum)
    requires
        old(sat).wf(),
        map.wf(old(sat).spec_num_vars()),
        sum.wf(),
        forall|k: int|
            0 <= k < sum.term@.len() ==> (#[trigger] map.int_enc(sum.term@[k].0.0 as int)) matches Some(Encoding::Order(_)),
    ensures
        final(sat).wf(),
        final(sat).spec_num_vars() == old(sat).spec_num_vars(),
        final(sat).spec_backend() == old(sat).spec_backend(),
        final(sat).spec_exhausted() == old(sat).spec_exhausted(),
        final(sat).spec_clauses().len() >= old(sat).spec_clauses().len(),
        final(sat).spec_clauses().subrange(0, old(sat).spec_clauses().len() as int) == old(sat).spec_clauses(),
        forall|m: Seq<bool>, vals: Seq<int>|
            #[trigger] reads_sum(*map, *sum, m, vals) ==> (clauses_hold(
                m,
                final(sat).spec_clauses().subrange(old(sat).spec_clauses().len() as int, final(sat).spec_clauses().len() as int),
            ) <==> sum.value(vals) >= 0),
{
    let ghost n = sat.spec_num_vars();
    let len = sum.term.len();
    let mut lits: Vec<Vec<Lit>> = Vec::new();
    let mut domain: Vec<Vec<i32>> = Vec::new();
    let mut coefs: Vec<i32> = Vec::new();
    let mut k: usize = 0;
    while k < len
        invariant
            map.wf(n),
            sum.wf(),
            len == sum.term@.len(),
            k <= len,
            forall|j: int|
                0 <= j < sum.term@.len() ==> (#[trigger] map.int_enc(sum.term@[j].0.0 as int)) matches Some(Encoding::Order(_)),
            native_terms_ok(lits@, domain@, coefs@, n),
            coefs@.len() == k,
            forall|j: int| 0 <= j < k ==> #[trigger] coefs@[j] == sum.term@[j].1 && order_term_is(*map, sum.term@[j].0, domain@[j]@, lits@[j]@),
        decreases len - k,
    {
        let (var, coef) = sum.term[k];
        assert(sum.term@[k as int].1 != 0);
        assert(map.int_enc(sum.term@[k as int].0.0 as int) matches Some(Encoding::Order(_)));
        let slot = map.int_encoding(var);
        assert(map.int_enc(var.0 as int)->0.wf(n));
        match slot {
            Some(Encoding::Order(e)) => {
                let mut l: Vec<Lit> = Vec::new();
                let mut t: usize = 0;
                while t < e.lits.len()
                    invariant
                        t <= e.lits@.len(),
                        l@ == e.lits@.take(t as int),
                    decreases e.lits@.len() - t,
                {
                    l.push(e.lits[t]);
                    t += 1;
                    assert(l@ =~= e.lits@.take(t as int));
                }
                assert(l@ =~= e.lits@);
                let mut d: Vec<i32> = Vec::new();
                let mut t: usize = 0;
                while t < e.domain.len()
                    invariant
                        t <= e.domain@.len(),
                        d@ == e.domain@.take(t as int),
                    decreases e.domain@.len() - t,
                {
                    d.push(e.domain[t]);
                    t += 1;
                    assert(d@ =~= e.domain@.take(t as int));
                }
                assert(d@ =~= e.domain@);
                let ghost pl = lits@;
                let ghost pd = domain@;
                let ghost pc = coefs@;
                lits.push(l);
                domain.push(d);
                coefs.push(coef);
                proof {
                    assert forall|i: int| 0 <= i < domain@.len() implies (#[trigger] domain@[i])@.len() >= 1 && strictly_sorted(
                        domain@[i]@,
                    ) && lits@[i]@.len() + 1 == domain@[i]@.len() && clause_in_range(lits@[i]@, n as int)
                        && coefs@[i] != 0 by {
                        if i < k {
                            assert(domain@[i] == pd[i] && lits@[i] == pl[i] && coefs@[i] == pc[i]);
                        }
                    }
                    assert forall|j: int| 0 <= j < k + 1 implies #[trigger] coefs@[j] == sum.term@[j].1 && order_term_is(*map, sum.term@[j].0, domain@[j]@, lits@[j]@) by {
                        if j < k {
                            assert(domain@[j] == pd[j] && lits@[j] == pl[j] && coefs@[j] == pc[j]);
                        }
                    }
                }
            },
            _ => {
                assert(false);
            },
        }
        k += 1;
    }
    let ghost l0 = lits@;
    let ghost d0 = domain@;
    let ghost cf = coefs@;
    sat.add_order_encoding_linear(lits, domain, coefs, sum.constant, config.order_encoding_linear_mode);
    proof {
        assert forall|m: Seq<bool>, vals: Seq<int>| #[trigger] reads_sum(*map, *sum, m, vals) implies (clauses_hold(
            m,
            sat.spec_clauses().subrange(old(sat).spec_clauses().len() as int, sat.spec_clauses().len() as int),
        ) <==> sum.value(vals) >= 0) by {
            let vs = Seq::new(len as nat, |t: int| vals[sum.term@[t].0.0 as int]);
            assert(d0.len() == len && cf.len() == len);
            assert forall|i: int| 0 <= i < d0.len() implies order_reads(OrderEncoding { domain: #[trigger] d0[i], lits: l0[i] }, m, vs[i]) by {
                assert(cf[i] == sum.term@[i].1);
                assert(order_term_is(*map, sum.term@[i].0, d0[i]@, l0[i]@));
                assert(map.int_enc(sum.term@[i].0.0 as int) matches Some(Encoding::Order(_)));
                let e = map.int_enc(sum.term@[i].0.0 as int)->0->Order_0;
                assert(0 <= i < sum.term@.len());
                assert(match map.int_enc(sum.term@[i].0.0 as int) {
                    Some(Encoding::Direct(e1)) => direct_reads(e1, m, vals[sum.term@[i].0.0 as int]),
                    Some(Encoding::Order(e1)) => order_reads(e1, m, vals[sum.term@[i].0.0 as int]),
                    None => false,
                });
                assert(map.int_enc(sum.term@[i].0.0 as int) == Some(Encoding::Order(e)));
                assert(order_reads(e, m, vals[sum.term@[i].0.0 as int]));
                assert(e.domain@ == d0[i]@ && e.lits@ == l0[i]@);
                assert(vs[i] == vals[sum.term@[i].0.0 as int]);
                let oe = OrderEncoding { domain: d0[i], lits: l0[i] };
                assert(oe.domain@ == e.domain@ && oe.lits@ == e.lits@);
                let w = choose|w: int| 0 <= w < e.domain@.len() && e.domain@[w] == vs[i];
                assert(oe.domain@[w] == vs[i]);
            }
            assert(native_reads(l0, d0, m, vs));
            lemma_native_terms(*sum, cf, vs, vals, 0);
            assert(sum.term@.subrange(0, len as int) =~= sum.term@);
        }
    }
}

/// Variable `v` is order-encoded in `map` with values `d` and literals `l`.
pub open spec fn order_term_is(map: EncodeMap, v: IntVar, d: Seq<i32>, l: Seq<Lit>) -> bool {
    match map.int_enc(v.0 as int) {
        Some(Encoding::Order(e)) => e.domain@ == d && e.lits@ == l,
        _ => false,
    }
}

proof fn lemma_native_terms(sum: LinearSum, coefs: Seq<i32>, vs: Seq<int>, vals: Seq<int>, from: int)
    requires
        coefs.len() == sum.term@.len(),
        vs.len() == sum.term@.len(),
        0 <= from <= coefs.len(),
        forall|t: int| 0 <= t < coefs.len() ==> #[trigger] coefs[t] == sum.term@[t].1 && vs[t] == vals[sum.term@[t].0.0 as int],
    ensures
        native_sum(coefs, vs, from) == terms_value(sum.term@.subrange(from, coefs.len() as int), vals),
    decreases coefs.len() - from,
{
    let t = sum.term@;
    if from == coefs.len() {
        assert(t.subrange(from, coefs.len() as int) =~= Seq::<(IntVar, i32)>::empty());
    } else {
        lemma_native_terms(sum, coefs, vs, vals, from + 1);
        let head = seq![t[from]];
        let rest = t.subrange(from + 1, coefs.len() as int);
        assert(t.subrange(from, coefs.len() as int) =~= head + rest);
        lemma_terms_value_concat(head, rest, vals);
        lemma_terms_value_single(t[from], vals);
        assert(coefs[from] == t[from].1);
    }
}

} // verus!
