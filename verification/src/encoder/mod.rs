pub mod constraint;
pub mod decompose;
pub mod direct;
pub mod mixed;
pub mod native;
pub mod order;
pub mod schedule;

use vstd::prelude::*;

use crate::arithmetic::{CmpOp, Range};
use crate::domain::seq_has;
use crate::norm_csp::{terms_sorted, terms_value, BoolLit, BoolVar, IntVar, IntVarRepresentation, LinearLit, LinearSum, NormCSPVars};
use crate::sat::{clause_in_range, lit_holds, lit_wf, Lit, SATModel, SAT};
use crate::util::ConvertMap;
use direct::{all_direct, partial_bound, DirectEncoding};
use mixed::all_encoded;
use order::lemma_mul_i32_fits;
use order::OrderEncoding;

verus! {

/// A literal that may also be constantly true or false.
#[derive(Clone, Copy, Debug, PartialEq, Eq, Structural)]
pub enum ExtendedLit {
    True,
    False,
    Lit(Lit),
}

/// Under `m`, the literal `lits[i]` holds and no other of `lits` does.
pub open spec fn exactly_one(m: Seq<bool>, lits: Seq<Lit>, i: int) -> bool {
    &&& lit_holds(m, lits[i])
    &&& forall|j: int| 0 <= j < lits.len() && j != i ==> !lit_holds(m, lits[j])
}

/// The clauses of `a` are the first clauses of `b`: `b` only added clauses.
pub open spec fn clauses_kept(a: SAT, b: SAT) -> bool {
    a.spec_clauses().is_prefix_of(b.spec_clauses())
}

/// Keeping clauses is reflexive.
pub proof fn lemma_clauses_kept_refl(a: SAT)
    ensures
        clauses_kept(a, a),
{
    assert(a.spec_clauses().subrange(0, a.spec_clauses().len() as int) =~= a.spec_clauses());
}

/// Keeping clauses is transitive.
pub proof fn lemma_clauses_kept_trans(a: SAT, b: SAT, c: SAT)
    requires
        clauses_kept(a, b),
        clauses_kept(b, c),
    ensures
        clauses_kept(a, c),
{
}

/// Clauses that stay the same are kept.
pub proof fn lemma_clauses_kept_same(a: SAT, b: SAT)
    requires
        a.spec_clauses() == b.spec_clauses(),
    ensures
        clauses_kept(a, b),
{
    lemma_clauses_kept_refl(a);
}

/// Clauses appended are kept.
pub proof fn lemma_clauses_kept_append(a: SAT, b: SAT, extra: Seq<Seq<Lit>>)
    requires
        b.spec_clauses() == a.spec_clauses() + extra,
    ensures
        clauses_kept(a, b),
{
}

/// Every clause of `cs` is over the first `n` SAT variables.
pub open spec fn clauses_in_range(cs: Seq<Seq<Lit>>, n: nat) -> bool {
    forall|j: int| 0 <= j < cs.len() ==> clause_in_range(#[trigger] cs[j], n as int)
}

/// A list of clauses.
pub struct ClauseSet {
    pub clauses: Vec<Vec<Lit>>,
}

impl View for ClauseSet {
    type V = Seq<Seq<Lit>>;

    open spec fn view(&self) -> Seq<Seq<Lit>> {
        self.clauses@.map_values(|c: Vec<Lit>| c@)
    }
}

impl ClauseSet {
    pub fn new() -> (r: ClauseSet)
        ensures
            r@ == Seq::<Seq<Lit>>::empty(),
    {
        let r = ClauseSet { clauses: Vec::new() };
        assert(r@ =~= Seq::<Seq<Lit>>::empty());
        r
    }

    pub fn len(&self) -> (r: usize)
        ensures
            r == self@.len(),
    {
        self.clauses.len()
    }

    /// Appends a copy of `clause`.
    pub fn push(&mut self, clause: &[Lit])
        ensures
            final(self)@ == old(self)@.push(clause@),
    {
        let mut c: Vec<Lit> = Vec::new();
        let mut i: usize = 0;
        while i < clause.len()
            invariant
                i <= clause@.len(),
                c@ == clause@.take(i as int),
            decreases clause@.len() - i,
        {
            c.push(clause[i]);
            i += 1;
            assert(c@ =~= clause@.take(i as int));
        }
        assert(c@ =~= clause@);
        self.clauses.push(c);
        assert(self@ =~= old(self)@.push(clause@));
    }

    /// Appends all clauses of `other`.
    pub fn append(&mut self, other: ClauseSet)
        ensures
            final(self)@ == old(self)@ + other@,
    {
        let ghost o = other@;
        let mut rest = other.clauses;
        let n = rest.len();
        let mut i: usize = 0;
        while i < n
            invariant
                n == o.len(),
                rest@.len() == n - i,
                forall|k: int| 0 <= k < rest@.len() ==> (#[trigger] rest@[k])@ == o[i + k],
                i <= n,
                self@ == old(self)@ + o.take(i as int),
            decreases n - i,
        {
            let c = rest.remove(0);
            assert(c@ == o[i as int]);
            let ghost prev = self@;
            self.clauses.push(c);
            proof {
                assert(self@ =~= prev.push(c@));
                assert(prev.push(c@) =~= old(self)@ + o.take(i + 1));
                assert forall|k: int| 0 <= k < rest@.len() implies (#[trigger] rest@[k])@ == o[i + 1 + k] by {}
            }
            i += 1;
        }
        assert(o.take(n as int) =~= o);
    }

    /// The `index`-th clause.
    pub fn get(&self, index: usize) -> (r: &[Lit])
        requires
            index < self@.len(),
        ensures
            r@ == self@[index as int],
    {
        self.clauses[index].as_slice()
    }
}

/// How an integer variable is represented in the SAT instance.
pub enum Encoding {
    Order(OrderEncoding),
    Direct(DirectEncoding),
}

impl Encoding {
    pub open spec fn wf(&self, n: nat) -> bool {
        match self {
            Encoding::Order(e) => e.wf(n),
            Encoding::Direct(e) => e.wf(n),
        }
    }

    pub open spec fn shaped(&self) -> bool {
        match self {
            Encoding::Order(e) => e.shaped(),
            Encoding::Direct(e) => e.shaped(),
        }
    }

    /// The values of the variable.
    pub open spec fn domain(&self) -> Seq<i32> {
        match self {
            Encoding::Order(e) => e.domain@,
            Encoding::Direct(e) => e.domain@,
        }
    }

    pub fn is_direct_encoding(&self) -> (r: bool)
        ensures
            r == (self is Direct),
    {
        match self {
            Encoding::Direct(_) => true,
            _ => false,
        }
    }

    pub fn is_direct_or_order_encoding(&self) -> (r: bool)
        ensures
            r,
    {
        true
    }

    /// The smallest and largest value.
    pub fn range(&self) -> (r: Range)
        requires
            self.shaped(),
        ensures
            r.low == self.domain()[0],
            r.high == self.domain()[self.domain().len() - 1],
    {
        match self {
            Encoding::Order(e) => e.range(),
            Encoding::Direct(e) => e.range(),
        }
    }

    /// The SAT literals that represent the value.
    pub fn repr_literals(&self) -> (r: Vec<Lit>)
        ensures
            r@ == match self {
                Encoding::Order(e) => e.lits@,
                Encoding::Direct(e) => e.lits@,
            },
    {
        let src = match self {
            Encoding::Order(e) => &e.lits,
            Encoding::Direct(e) => &e.lits,
        };
        let mut r: Vec<Lit> = Vec::new();
        let mut i: usize = 0;
        while i < src.len()
            invariant
                i <= src@.len(),
                r@ == src@.take(i as int),
            decreases src@.len() - i,
        {
            r.push(src[i]);
            i += 1;
            assert(r@ =~= src@.take(i as int));
        }
        assert(r@ =~= src@);
        r
    }
}

/// The SAT literals of the Boolean variables and the encodings of the
/// integer variables of a normalized CSP.
pub struct EncodeMap {
    bool_map: ConvertMap<BoolVar, Lit>,
    int_map: ConvertMap<IntVar, Encoding>,
}

impl EncodeMap {
    /// The literal of Boolean variable `v`, if it has one.
    pub closed spec fn bool_lit(&self, v: int) -> Option<Lit> {
        self.bool_map.slot(v)
    }

    /// The encoding of integer variable `v`, if it has one.
    pub closed spec fn int_enc(&self, v: int) -> Option<Encoding> {
        self.int_map.slot(v)
    }

    /// Every literal and encoding is over the first `n` SAT variables.
    pub closed spec fn wf(&self, n: nat) -> bool {
        &&& self.bool_map.wf()
        &&& self.int_map.wf()
        &&& forall|v: int|
            (#[trigger] self.bool_map.slot(v)) is Some ==> lit_wf(self.bool_map.slot(v)->0)
                && self.bool_map.slot(v)->0.spec_var().0 < n
        &&& forall|v: int| (#[trigger] self.int_map.slot(v)) is Some ==> self.int_map.slot(v)->0.wf(n)
    }

    /// Growing the SAT instance keeps the map well formed.
    pub proof fn lemma_wf_grow(&self, n: nat, m: nat)
        requires
            self.wf(n),
            n <= m,
        ensures
            self.wf(m),
    {
        assert forall|v: int| (#[trigger] self.int_map.slot(v)) is Some implies self.int_map.slot(v)->0.wf(m) by {
            let e = self.int_map.slot(v)->0;
            match e {
                Encoding::Order(o) => {
                    assert(clause_in_range(o.lits@, m as int));
                },
                Encoding::Direct(d) => {
                    assert(clause_in_range(d.lits@, m as int));
                },
            }
        }
    }

    pub fn new() -> (r: EncodeMap)
        ensures
            r.wf(0),
            forall|v: int| #[trigger] r.bool_lit(v) == None::<Lit>,
            forall|v: int| #[trigger] r.int_enc(v) is None,
    {
        EncodeMap { bool_map: ConvertMap::new(), int_map: ConvertMap::new() }
    }

    /// The SAT literal of `var`, creating a fresh variable the first time.
    pub fn convert_bool_var(&mut self, sat: &mut SAT, var: BoolVar) -> (r: Lit)
        requires
            old(self).wf(old(sat).spec_num_vars()),
            old(sat).wf(),
        ensures
            final(sat).wf(),
            final(self).wf(final(sat).spec_num_vars()),
            lit_wf(r),
            r.spec_var().0 < final(sat).spec_num_vars(),
            final(self).bool_lit(var.0 as int) == Some(r),
            old(self).bool_lit(var.0 as int) is Some ==> r == old(self).bool_lit(var.0 as int)->0,
            forall|v: int| v != var.0 ==> #[trigger] final(self).bool_lit(v) == old(self).bool_lit(v),
            forall|v: int| old(self).bool_lit(v) is Some ==> #[trigger] final(self).bool_lit(v) == old(self).bool_lit(v),
            forall|v: int| #[trigger] final(self).int_enc(v) == old(self).int_enc(v),
            final(sat).spec_clauses() == old(sat).spec_clauses(),
            final(sat).spec_num_vars() >= old(sat).spec_num_vars(),
            final(sat).spec_backend() == old(sat).spec_backend(),
            old(sat).spec_exhausted() ==> final(sat).spec_exhausted(),
    {
        match self.bool_map.get(&var) {
            Some(x) => *x,
            None => {
                let n0 = sat.num_var();
                let v = sat.fresh_var();
                let ret = v.as_lit(false);
                proof {
                    self.lemma_wf_grow(n0 as nat, sat.spec_num_vars());
                }
                self.bool_map.set(&var, Some(ret));
                ret
            },
        }
    }

    /// The SAT literal of `lit`.
    pub fn convert_bool_lit(&mut self, sat: &mut SAT, lit: BoolLit) -> (r: Lit)
        requires
            old(self).wf(old(sat).spec_num_vars()),
            old(sat).wf(),
        ensures
            final(sat).wf(),
            final(self).wf(final(sat).spec_num_vars()),
            lit_wf(r),
            r.spec_var().0 < final(sat).spec_num_vars(),
            final(self).bool_lit(lit.var.0 as int) is Some,
            r == (if lit.negated {
                final(self).bool_lit(lit.var.0 as int)->0.spec_not()
            } else {
                final(self).bool_lit(lit.var.0 as int)->0
            }),
            forall|v: int| v != lit.var.0 ==> #[trigger] final(self).bool_lit(v) == old(self).bool_lit(v),
            forall|v: int| old(self).bool_lit(v) is Some ==> #[trigger] final(self).bool_lit(v) == old(self).bool_lit(v),
            forall|v: int| #[trigger] final(self).int_enc(v) == old(self).int_enc(v),
            final(sat).spec_clauses() == old(sat).spec_clauses(),
            final(sat).spec_num_vars() >= old(sat).spec_num_vars(),
            final(sat).spec_backend() == old(sat).spec_backend(),
            old(sat).spec_exhausted() ==> final(sat).spec_exhausted(),
    {
        let var_lit = self.convert_bool_var(sat, lit.var);
        if lit.negated {
            var_lit.negate()
        } else {
            var_lit
        }
    }

    /// Records the encoding of `var`.
    pub fn set_int_encoding(&mut self, var: IntVar, enc: Encoding, Ghost(n): Ghost<nat>)
        requires
            old(self).wf(n),
            enc.wf(n),
        ensures
            final(self).wf(n),
            final(self).int_enc(var.0 as int) == Some(enc),
            forall|v: int| v != var.0 ==> #[trigger] final(self).int_enc(v) == old(self).int_enc(v),
            forall|v: int| #[trigger] final(self).bool_lit(v) == old(self).bool_lit(v),
    {
        self.int_map.set(&var, Some(enc));
    }

    /// The encoding of `var`, if it has one.
    pub fn int_encoding(&self, var: IntVar) -> (r: &Option<Encoding>)
        requires
            exists|n: nat| self.wf(n),
        ensures
            *r == self.int_enc(var.0 as int),
    {
        self.int_map.get(&var)
    }

    /// The SAT literal of `var`, if it has one.
    pub fn get_bool_var(&self, var: BoolVar) -> (r: Option<Lit>)
        requires
            exists|n: nat| self.wf(n),
        ensures
            r == self.bool_lit(var.0 as int),
    {
        *self.bool_map.get(&var)
    }

    /// The SAT literal of `lit`, if its variable has one.
    pub fn get_bool_lit(&self, lit: BoolLit) -> (r: Option<Lit>)
        requires
            exists|n: nat| self.wf(n),
        ensures
            match self.bool_lit(lit.var.0 as int) {
                None => r is None,
                Some(l) => r == Some(if lit.negated { l.spec_not() } else { l }),
            },
    {
        let ghost n = choose|n: nat| self.wf(n);
        match self.bool_map.get(&lit.var) {
            None => None,
            Some(l) => {
                assert(lit_wf(*l));
                if lit.negated {
                    Some(l.negate())
                } else {
                    Some(*l)
                }
            },
        }
    }
}

/// Encodes `repr` in order encoding.
pub fn encode_var_order(map: &mut EncodeMap, sat: &mut SAT, repr: &IntVarRepresentation) -> (r: OrderEncoding)
    requires
        old(map).wf(old(sat).spec_num_vars()),
        old(sat).wf(),
        repr.wf(),
    ensures
        final(sat).wf(),
        final(map).wf(final(sat).spec_num_vars()),
        r.wf(final(sat).spec_num_vars()),
        forall|x: int| repr.contains(x) <==> seq_has(r.domain@, x),
        forall|v: int| #[trigger] final(map).int_enc(v) == old(map).int_enc(v),
        forall|v: int| old(map).bool_lit(v) is Some ==> #[trigger] final(map).bool_lit(v) == old(map).bool_lit(v),
        final(sat).spec_num_vars() >= old(sat).spec_num_vars(),
        final(sat).spec_backend() == old(sat).spec_backend(),
        old(sat).spec_exhausted() ==> final(sat).spec_exhausted(),
        clauses_kept(*old(sat), *final(sat)),
{
    match repr {
        IntVarRepresentation::Domain(_) => {
            let domain = repr.enumerate();
            let n0 = sat.num_var();
            let ghost s0 = *sat;
            let r = order::encode_var_order_domain(sat, domain);
            proof {
                map.lemma_wf_grow(n0 as nat, sat.spec_num_vars());
                lemma_clauses_kept_append(s0, *sat, order::order_chain(r.lits@));
            }
            r
        },
        IntVarRepresentation::Binary { cond, v_false, v_true } => {
            let ghost s0 = *sat;
            let c = map.convert_bool_lit(sat, *cond);
            proof {
                lemma_clauses_kept_same(s0, *sat);
            }
            let mut domain: Vec<i32> = Vec::new();
            domain.push(*v_false);
            domain.push(*v_true);
            let mut lits: Vec<Lit> = Vec::new();
            lits.push(c);
            let r = OrderEncoding { domain, lits };
            proof {
                assert forall|x: int| repr.contains(x) <==> seq_has(r.domain@, x) by {
                    if x == *v_false {
                        assert(r.domain@[0] == x);
                    }
                    if x == *v_true {
                        assert(r.domain@[1] == x);
                    }
                }
            }
            r
        },
    }
}

/// Encodes `repr` in direct encoding.
pub fn encode_var_direct(map: &mut EncodeMap, sat: &mut SAT, repr: &IntVarRepresentation) -> (r: DirectEncoding)
    requires
        old(map).wf(old(sat).spec_num_vars()),
        old(sat).wf(),
        repr.wf(),
    ensures
        final(sat).wf(),
        final(map).wf(final(sat).spec_num_vars()),
        r.wf(final(sat).spec_num_vars()),
        forall|x: int| repr.contains(x) <==> seq_has(r.domain@, x),
        forall|v: int| #[trigger] final(map).int_enc(v) == old(map).int_enc(v),
        forall|v: int| old(map).bool_lit(v) is Some ==> #[trigger] final(map).bool_lit(v) == old(map).bool_lit(v),
        final(sat).spec_num_vars() >= old(sat).spec_num_vars(),
        final(sat).spec_backend() == old(sat).spec_backend(),
        old(sat).spec_exhausted() ==> final(sat).spec_exhausted(),
        clauses_kept(*old(sat), *final(sat)),
{
    match repr {
        IntVarRepresentation::Domain(_) => {
            let domain = repr.enumerate();
            let n0 = sat.num_var();
            let r = direct::encode_var_direct_domain(sat, domain);
            proof {
                map.lemma_wf_grow(n0 as nat, sat.spec_num_vars());
            }
            r
        },
        IntVarRepresentation::Binary { cond, v_false, v_true } => {
            let ghost s0 = *sat;
            let c = map.convert_bool_lit(sat, *cond);
            proof {
                lemma_clauses_kept_same(s0, *sat);
            }
            let mut domain: Vec<i32> = Vec::new();
            domain.push(*v_false);
            domain.push(*v_true);
            let mut lits: Vec<Lit> = Vec::new();
            lits.push(c.negate());
            lits.push(c);
            let r = DirectEncoding { domain, lits };
            proof {
                assert forall|x: int| repr.contains(x) <==> seq_has(r.domain@, x) by {
                    if x == *v_false {
                        assert(r.domain@[0] == x);
                    }
                    if x == *v_true {
                        assert(r.domain@[1] == x);
                    }
                }
                assert forall|k: int| 0 <= k < r.lits@.len() implies lit_wf(#[trigger] r.lits@[k]) && r.lits@[k].spec_var().0 < sat.spec_num_vars() by {}
            }
            r
        },
    }
}

impl EncodeMap {
    /// Encodes integer variable `var` of `norm_vars` in order encoding.
    pub fn convert_int_var_order_encoding(&mut self, norm_vars: &NormCSPVars, sat: &mut SAT, var: IntVar)
        requires
            old(self).wf(old(sat).spec_num_vars()),
            old(sat).wf(),
            norm_vars.wf(),
            var.0 < norm_vars.ni(),
            old(self).int_enc(var.0 as int) is None,
        ensures
            final(sat).wf(),
            final(self).wf(final(sat).spec_num_vars()),
            final(self).int_enc(var.0 as int) matches Some(Encoding::Order(e)) && (forall|x: int|
                norm_vars.int_var@[var.0 as int].contains(x) <==> seq_has(e.domain@, x)),
            forall|v: int| v != var.0 ==> #[trigger] final(self).int_enc(v) == old(self).int_enc(v),
            forall|v: int| old(self).bool_lit(v) is Some ==> #[trigger] final(self).bool_lit(v) == old(self).bool_lit(v),
            final(sat).spec_num_vars() >= old(sat).spec_num_vars(),
            final(sat).spec_backend() == old(sat).spec_backend(),
            old(sat).spec_exhausted() ==> final(sat).spec_exhausted(),
            clauses_kept(*old(sat), *final(sat)),
    {
        let repr = norm_vars.int_var(var);
        assert(repr.wf());
        let enc = encode_var_order(self, sat, repr);
        self.set_int_encoding(var, Encoding::Order(enc), Ghost(sat.spec_num_vars()));
    }

    /// Encodes integer variable `var` of `norm_vars` in direct encoding.
    pub fn convert_int_var_direct_encoding(&mut self, norm_vars: &NormCSPVars, sat: &mut SAT, var: IntVar)
        requires
            old(self).wf(old(sat).spec_num_vars()),
            old(sat).wf(),
            norm_vars.wf(),
            var.0 < norm_vars.ni(),
            old(self).int_enc(var.0 as int) is None,
        ensures
            final(sat).wf(),
            final(self).wf(final(sat).spec_num_vars()),
            final(self).int_enc(var.0 as int) matches Some(Encoding::Direct(e)) && (forall|x: int|
                norm_vars.int_var@[var.0 as int].contains(x) <==> seq_has(e.domain@, x)),
            forall|v: int| v != var.0 ==> #[trigger] final(self).int_enc(v) == old(self).int_enc(v),
            forall|v: int| old(self).bool_lit(v) is Some ==> #[trigger] final(self).bool_lit(v) == old(self).bool_lit(v),
            final(sat).spec_num_vars() >= old(sat).spec_num_vars(),
            final(sat).spec_backend() == old(sat).spec_backend(),
            old(sat).spec_exhausted() ==> final(sat).spec_exhausted(),
            clauses_kept(*old(sat), *final(sat)),
    {
        let repr = norm_vars.int_var(var);
        assert(repr.wf());
        let enc = encode_var_direct(self, sat, repr);
        self.set_int_encoding(var, Encoding::Direct(enc), Ghost(sat.spec_num_vars()));
    }

    /// The value of `var` in `model`: for an order encoding the value after
    /// the literals that hold (which come first), for a direct encoding the
    /// value whose literal holds.
    #[verifier::loop_isolation(false)]
    pub fn get_int_value(&self, model: &SATModel, var: IntVar) -> (r: Option<i32>)
        requires
            self.wf(model.values@.len()),
            self.int_enc(var.0 as int) matches Some(Encoding::Order(e)) ==> forall|i: int, j: int|
                0 <= i < j < e.lits@.len() && lit_holds(model.values@, e.lits@[j]) ==> lit_holds(
                    model.values@,
                    e.lits@[i],
                ),
            self.int_enc(var.0 as int) matches Some(Encoding::Direct(e)) ==> exists|i: int|
                0 <= i < e.lits@.len() && lit_holds(model.values@, e.lits@[i]) && forall|j: int|
                    0 <= j < e.lits@.len() && j != i ==> !lit_holds(model.values@, e.lits@[j]),
        ensures
            self.int_enc(var.0 as int) is None ==> r is None,
            self.int_enc(var.0 as int) matches Some(Encoding::Order(e)) ==> exists|k: int|
                0 <= k <= e.lits@.len() && (forall|i: int| 0 <= i < k ==> lit_holds(model.values@, e.lits@[i]))
                    && (forall|i: int| k <= i < e.lits@.len() ==> !lit_holds(model.values@, e.lits@[i]))
                    && r == Some(e.domain@[k]),
            self.int_enc(var.0 as int) matches Some(Encoding::Direct(e)) ==> exists|i: int|
                0 <= i < e.lits@.len() && lit_holds(model.values@, e.lits@[i]) && r == Some(e.domain@[i]),
    {
        let slot = self.int_map.get(&var);
        assert(*slot == self.int_enc(var.0 as int));
        match slot {
            None => None,
            Some(Encoding::Order(e)) => {
                let ghost m = model.values@;
                let mut left: usize = 0;
                let mut right: usize = e.lits.len();
                while left < right
                    invariant
                        e.wf(m.len()),
                        left <= right <= e.lits@.len(),
                        forall|i: int| 0 <= i < left ==> lit_holds(m, e.lits@[i]),
                        forall|i: int| right <= i < e.lits@.len() ==> !lit_holds(m, e.lits@[i]),
                        forall|i: int, j: int|
                            0 <= i < j < e.lits@.len() && lit_holds(m, e.lits@[j]) ==> lit_holds(m, e.lits@[i]),
                        m == model.values@,
                    decreases right - left,
                {
                    let mid = left + (right - left) / 2 + 1;
                    assert(lit_wf(e.lits@[mid - 1]) && e.lits@[mid - 1].spec_var().0 < m.len());
                    if model.assignment_lit(e.lits[mid - 1]) {
                        left = mid;
                    } else {
                        right = mid - 1;
                    }
                }
                Some(e.domain[left])
            },
            Some(Encoding::Direct(e)) => {
                let ghost m = model.values@;
                let mut i: usize = 0;
                while i < e.lits.len()
                    invariant
                        e.wf(m.len()),
                        i <= e.lits@.len(),
                        forall|k: int| 0 <= k < i ==> !lit_holds(m, e.lits@[k]),
                        exists|t: int| 0 <= t < e.lits@.len() && lit_holds(m, e.lits@[t]),
                        m == model.values@,
                    decreases e.lits@.len() - i,
                {
                    assert(lit_wf(e.lits@[i as int]) && e.lits@[i as int].spec_var().0 < m.len());
                    if model.assignment_lit(e.lits[i]) {
                        return Some(e.domain[i]);
                    }
                    i += 1;
                }
                proof {
                    let t = choose|t: int| 0 <= t < e.lits@.len() && lit_holds(m, e.lits@[t]);
                    assert(!lit_holds(m, e.lits@[t]));
                }
                None
            },
        }
    }
}

/// The smallest value of `coef * x` for `x` among the values of `e`.
pub open spec fn term_low(e: Encoding, coef: int) -> int {
    let d = e.domain();
    if coef > 0 {
        coef * d[0]
    } else {
        coef * d[d.len() - 1]
    }
}

/// The largest value of `coef * x` for `x` among the values of `e`.
pub open spec fn term_high(e: Encoding, coef: int) -> int {
    let d = e.domain();
    if coef > 0 {
        coef * d[d.len() - 1]
    } else {
        coef * d[0]
    }
}

/// Smallest possible value of the terms `ts` under the encodings of `map`.
pub open spec fn terms_low(map: EncodeMap, ts: Seq<(IntVar, i32)>) -> int
    decreases ts.len(),
{
    if ts.len() == 0 {
        0
    } else {
        terms_low(map, ts.drop_last()) + term_low(map.int_enc(ts.last().0.0 as int)->0, ts.last().1 as int)
    }
}

/// Largest possible value of the terms `ts` under the encodings of `map`.
pub open spec fn terms_high(map: EncodeMap, ts: Seq<(IntVar, i32)>) -> int
    decreases ts.len(),
{
    if ts.len() == 0 {
        0
    } else {
        terms_high(map, ts.drop_last()) + term_high(map.int_enc(ts.last().0.0 as int)->0, ts.last().1 as int)
    }
}

/// Whether the bounds `[low, high]` of a sum already decide that `sum op 0`
/// cannot hold.
pub open spec fn range_refutes(op: CmpOp, low: int, high: int) -> bool {
    match op {
        CmpOp::Eq => low > 0 || high < 0,
        CmpOp::Ne => low == 0 && high == 0,
        CmpOp::Le => low > 0,
        CmpOp::Lt => low >= 0,
        CmpOp::Ge => high < 0,
        CmpOp::Gt => high <= 0,
    }
}

/// `x` is one of the values of `e`.
pub open spec fn in_domain(e: Encoding, x: int) -> bool {
    exists|j: int| 0 <= j < e.domain().len() && e.domain()[j] == x
}

/// Each variable of the terms `ts` takes one of the values of its encoding.
pub open spec fn values_in_domains(map: EncodeMap, ts: Seq<(IntVar, i32)>, vals: Seq<int>) -> bool {
    forall|k: int| 0 <= k < ts.len() ==> in_domain(map.int_enc(ts[k].0.0 as int)->0, #[trigger] vals[ts[k].0.0 as int])
}

proof fn lemma_term_between(e: Encoding, c: int, x: int)
    requires
        e.shaped(),
        in_domain(e, x),
    ensures
        term_low(e, c) <= c * x <= term_high(e, c),
{
    let d = e.domain();
    let j = choose|j: int| 0 <= j < d.len() && d[j] == x;
    let lo = d[0] as int;
    let hi = d[d.len() - 1] as int;
    assert(lo <= x <= hi) by {
        if 0 < j {
            assert(d[0] < d[j]);
        }
        if j < d.len() - 1 {
            assert(d[j] < d[d.len() - 1]);
        }
    }
    if c > 0 {
        assert(c * lo <= c * x <= c * hi) by (nonlinear_arith)
            requires
                c > 0,
                lo <= x <= hi,
        ;
    } else {
        assert(c * hi <= c * x <= c * lo) by (nonlinear_arith)
            requires
                c <= 0,
                lo <= x <= hi,
        ;
    }
}

/// Over values taken from their encodings, the terms `ts` sum to a value
/// between `terms_low` and `terms_high`.
pub proof fn lemma_terms_between(map: EncodeMap, n: nat, ts: Seq<(IntVar, i32)>, vals: Seq<int>)
    requires
        map.wf(n),
        forall|k: int| 0 <= k < ts.len() ==> (#[trigger] map.int_enc(ts[k].0.0 as int)) is Some,
        values_in_domains(map, ts, vals),
    ensures
        terms_low(map, ts) <= terms_value(ts, vals) <= terms_high(map, ts),
    decreases ts.len(),
{
    if ts.len() > 0 {
        let init = ts.drop_last();
        assert forall|k: int| 0 <= k < init.len() implies (#[trigger] map.int_enc(init[k].0.0 as int)) is Some by {
            assert(init[k] == ts[k]);
            assert(map.int_enc(ts[k].0.0 as int) is Some);
        }
        assert forall|k: int| 0 <= k < init.len() implies in_domain(map.int_enc(init[k].0.0 as int)->0, #[trigger] vals[init[k].0.0 as int]) by {
            assert(init[k] == ts[k]);
            assert(in_domain(map.int_enc(ts[k].0.0 as int)->0, vals[ts[k].0.0 as int]));
        }
        lemma_terms_between(map, n, init, vals);
        let t = ts.last();
        assert(t == ts[ts.len() - 1]);
        assert(map.int_enc(ts[ts.len() - 1].0.0 as int) is Some);
        let e = map.int_enc(t.0.0 as int)->0;
        assert(e.wf(n));
        assert(in_domain(map.int_enc(ts[ts.len() - 1].0.0 as int)->0, vals[ts[ts.len() - 1].0.0 as int]));
        lemma_term_between(e, t.1 as int, vals[t.0.0 as int]);
    }
}

/// The value of `e` that makes `c * x` smallest (`high` false) or largest.
pub open spec fn extreme_value(e: Encoding, c: int, high: bool) -> int {
    let d = e.domain();
    if (c > 0) == high {
        d[d.len() - 1] as int
    } else {
        d[0] as int
    }
}

/// `s` padded with zeros to length `n`.
pub open spec fn pad_zeros(s: Seq<int>, n: int) -> Seq<int> {
    s + Seq::new((n - s.len()) as nat, |i: int| 0int)
}

/// Values of the variables of the sorted terms `ts` that make their sum
/// smallest (`high` false) or largest, each from its encoding.
pub open spec fn extreme_vals(map: EncodeMap, ts: Seq<(IntVar, i32)>, high: bool) -> Seq<int>
    decreases ts.len(),
{
    if ts.len() == 0 {
        Seq::empty()
    } else {
        let t = ts.last();
        pad_zeros(extreme_vals(map, ts.drop_last(), high), t.0.0 as int).push(
            extreme_value(map.int_enc(t.0.0 as int)->0, t.1 as int, high),
        )
    }
}

proof fn lemma_terms_value_agree(ts: Seq<(IntVar, i32)>, a: Seq<int>, b: Seq<int>)
    requires
        forall|k: int| 0 <= k < ts.len() ==> a[ts[k].0.0 as int] == #[trigger] b[ts[k].0.0 as int],
    ensures
        terms_value(ts, a) == terms_value(ts, b),
    decreases ts.len(),
{
    if ts.len() > 0 {
        let init = ts.drop_last();
        assert forall|k: int| 0 <= k < init.len() implies a[init[k].0.0 as int] == #[trigger] b[init[k].0.0 as int] by {
            assert(init[k] == ts[k]);
            assert(a[ts[k].0.0 as int] == b[ts[k].0.0 as int]);
        }
        lemma_terms_value_agree(init, a, b);
        assert(ts.last() == ts[ts.len() - 1]);
        assert(a[ts[ts.len() - 1].0.0 as int] == b[ts[ts.len() - 1].0.0 as int]);
    }
}

/// For sorted terms, `extreme_vals` takes each variable from its encoding
/// and makes the sum `terms_low` (`high` false) or `terms_high`.
proof fn lemma_extreme_vals(map: EncodeMap, n: nat, ts: Seq<(IntVar, i32)>, high: bool)
    requires
        map.wf(n),
        forall|k: int| 0 <= k < ts.len() ==> (#[trigger] map.int_enc(ts[k].0.0 as int)) is Some,
        terms_sorted(ts),
    ensures
        values_in_domains(map, ts, extreme_vals(map, ts, high)),
        terms_value(ts, extreme_vals(map, ts, high)) == if high { terms_high(map, ts) } else { terms_low(map, ts) },
        ts.len() == 0 ==> extreme_vals(map, ts, high).len() == 0,
        ts.len() > 0 ==> extreme_vals(map, ts, high).len() == ts.last().0.0 + 1,
    decreases ts.len(),
{
    if ts.len() > 0 {
        let init = ts.drop_last();
        assert forall|k: int| 0 <= k < init.len() implies (#[trigger] map.int_enc(init[k].0.0 as int)) is Some by {
            assert(init[k] == ts[k]);
            assert(map.int_enc(ts[k].0.0 as int) is Some);
        }
        assert(terms_sorted(init)) by {
            assert forall|i: int, j: int| 0 <= i < j < init.len() implies init[i].0.0 < init[j].0.0 by {
                assert(init[i] == ts[i] && init[j] == ts[j]);
            }
            assert forall|i: int| 0 <= i < init.len() implies (#[trigger] init[i]).1 != 0 by {
                assert(init[i] == ts[i]);
            }
        }
        lemma_extreme_vals(map, n, init, high);
        let prev = extreme_vals(map, init, high);
        let t = ts.last();
        assert(t == ts[ts.len() - 1]);
        let v = t.0.0 as int;
        assert(map.int_enc(ts[ts.len() - 1].0.0 as int) is Some);
        let e = map.int_enc(v)->0;
        assert(e.wf(n));
        let x = extreme_value(e, t.1 as int, high);
        let vals = extreme_vals(map, ts, high);
        assert(prev.len() <= v) by {
            if init.len() > 0 {
                assert(init.last() == ts[init.len() - 1]);
            }
        }
        assert(vals == pad_zeros(prev, v).push(x));
        assert(vals.len() == v + 1);
        assert(vals[v] == x);
        assert forall|k: int| 0 <= k < init.len() implies prev[init[k].0.0 as int] == #[trigger] vals[init[k].0.0 as int] by {
            assert(init[k] == ts[k]);
            if init.len() > 0 {
                assert(init.last() == init[init.len() - 1]);
                assert(init[k].0.0 <= init.last().0.0);
            }
        }
        lemma_terms_value_agree(init, prev, vals);
        let d = e.domain();
        assert(in_domain(e, x)) by {
            if (t.1 > 0) == high {
                assert(d[d.len() - 1] == x);
            } else {
                assert(d[0] == x);
            }
        }
        assert forall|k: int| 0 <= k < ts.len() implies in_domain(map.int_enc(ts[k].0.0 as int)->0, #[trigger] vals[ts[k].0.0 as int]) by {
            if k < ts.len() - 1 {
                assert(init[k] == ts[k]);
                assert(in_domain(map.int_enc(init[k].0.0 as int)->0, prev[init[k].0.0 as int]));
            }
        }
    }
}

/// The bounds `terms_low` and `terms_high` of sorted terms are reached:
/// some values of the variables, each from its encoding, give each of them.
pub proof fn lemma_terms_bounds_reached(map: EncodeMap, n: nat, ts: Seq<(IntVar, i32)>)
    requires
        map.wf(n),
        forall|k: int| 0 <= k < ts.len() ==> (#[trigger] map.int_enc(ts[k].0.0 as int)) is Some,
        terms_sorted(ts),
    ensures
        exists|vals: Seq<int>| #[trigger] values_in_domains(map, ts, vals) && terms_value(ts, vals) == terms_low(map, ts),
        exists|vals: Seq<int>| #[trigger] values_in_domains(map, ts, vals) && terms_value(ts, vals) == terms_high(map, ts),
{
    lemma_extreme_vals(map, n, ts, false);
    lemma_extreme_vals(map, n, ts, true);
}

/// A linear literal whose bounds refute it holds for no values of its
/// variables taken from their encodings.
pub proof fn lemma_refuted_linear_lit(map: EncodeMap, n: nat, lit: LinearLit, vals: Seq<int>)
    requires
        map.wf(n),
        all_encoded(map, lit.sum),
        values_in_domains(map, lit.sum.term@, vals),
        range_refutes(
            lit.op,
            lit.sum.constant + terms_low(map, lit.sum.term@),
            lit.sum.constant + terms_high(map, lit.sum.term@),
        ),
    ensures
        !lit.holds(vals),
{
    lemma_terms_between(map, n, lit.sum.term@, vals);
}

/// A linear literal over sorted terms that its bounds do not refute holds
/// for some values of its variables, each from its encoding; for an
/// equality, the sum can be made at most 0 and at least 0.
pub proof fn lemma_unrefuted_linear_lit(map: EncodeMap, n: nat, lit: LinearLit)
    requires
        map.wf(n),
        all_encoded(map, lit.sum),
        lit.sum.wf(),
        !range_refutes(
            lit.op,
            lit.sum.constant + terms_low(map, lit.sum.term@),
            lit.sum.constant + terms_high(map, lit.sum.term@),
        ),
    ensures
        lit.op != CmpOp::Eq ==> exists|vals: Seq<int>| #[trigger] values_in_domains(map, lit.sum.term@, vals) && lit.holds(vals),
        lit.op == CmpOp::Eq ==> exists|vals: Seq<int>| #[trigger] values_in_domains(map, lit.sum.term@, vals) && lit.sum.value(vals) <= 0,
        lit.op == CmpOp::Eq ==> exists|vals: Seq<int>| #[trigger] values_in_domains(map, lit.sum.term@, vals) && lit.sum.value(vals) >= 0,
{
    let ts = lit.sum.term@;
    lemma_extreme_vals(map, n, ts, false);
    lemma_extreme_vals(map, n, ts, true);
    let lo = extreme_vals(map, ts, false);
    let hi = extreme_vals(map, ts, true);
    lemma_terms_between(map, n, ts, lo);
    assert(values_in_domains(map, ts, lo) && lit.sum.value(lo) == lit.sum.constant + terms_low(map, ts));
    assert(values_in_domains(map, ts, hi) && lit.sum.value(hi) == lit.sum.constant + terms_high(map, ts));
    if lit.op == CmpOp::Ne && lit.sum.value(lo) == 0 {
        assert(lit.holds(hi));
    }
}

/// Bounds of one term, `2^62` at most in magnitude.
fn term_bounds(e: &Encoding, coef: i32) -> (r: (i128, i128))
    requires
        e.shaped(),
    ensures
        r.0 == term_low(*e, coef as int),
        r.1 == term_high(*e, coef as int),
        -0x4000_0000_0000_0000 <= r.0 <= 0x4000_0000_0000_0000,
        -0x4000_0000_0000_0000 <= r.1 <= 0x4000_0000_0000_0000,
{
    let rg = e.range();
    let lo = rg.low;
    let hi = rg.high;
    proof {
        lemma_mul_i32_fits(coef, lo);
        lemma_mul_i32_fits(coef, hi);
        let c = coef as int;
        assert(-0x8000_0000 <= lo <= 0x7fff_ffff && -0x8000_0000 <= c <= 0x7fff_ffff ==> -0x4000_0000_0000_0000
            <= c * lo <= 0x4000_0000_0000_0000) by (nonlinear_arith);
        assert(-0x8000_0000 <= hi <= 0x7fff_ffff && -0x8000_0000 <= c <= 0x7fff_ffff ==> -0x4000_0000_0000_0000
            <= c * hi <= 0x4000_0000_0000_0000) by (nonlinear_arith);
    }
    let a = (coef as i64) * (lo as i64);
    let b = (coef as i64) * (hi as i64);
    if coef > 0 {
        (a as i128, b as i128)
    } else {
        (b as i128, a as i128)
    }
}

/// Smallest and largest value of `sum` over the values of its variables.
pub fn linear_range(map: &EncodeMap, sum: &LinearSum) -> (r: (i128, i128))
    requires
        exists|n: nat| map.wf(n),
        all_encoded(*map, *sum),
    ensures
        r.0 == sum.constant + terms_low(*map, sum.term@),
        r.1 == sum.constant + terms_high(*map, sum.term@),
{
    let len = sum.term.len();
    let ghost n = choose|n: nat| map.wf(n);
    let mut low: i128 = sum.constant as i128;
    let mut high: i128 = sum.constant as i128;
    let mut k: usize = 0;
    while k < len
        invariant
            map.wf(n),
            all_encoded(*map, *sum),
            len == sum.term@.len(),
            len <= usize::MAX,
            k <= len,
            low == sum.constant + terms_low(*map, sum.term@.take(k as int)),
            high == sum.constant + terms_high(*map, sum.term@.take(k as int)),
            -partial_bound(k as int) <= low <= partial_bound(k as int),
            -partial_bound(k as int) <= high <= partial_bound(k as int),
        decreases len - k,
    {
        let (var, coef) = sum.term[k];
        let slot = self_int_encoding(map, var);
        assert(map.int_enc(sum.term@[k as int].0.0 as int) is Some);
        match slot {
            Some(e) => {
                assert(e.wf(n));
                let (a, b) = term_bounds(e, coef);
                proof {
                    assert(sum.term@.take(k + 1).drop_last() =~= sum.term@.take(k as int));
                    assert(sum.term@.take(k + 1).last() == sum.term@[k as int]);
                }
                low = low + a;
                high = high + b;
            },
            None => {
                assert(false);
            },
        }
        k += 1;
    }
    assert(sum.term@.take(len as int) =~= sum.term@);
    (low, high)
}

fn self_int_encoding(map: &EncodeMap, var: IntVar) -> (r: &Option<Encoding>)
    requires
        exists|n: nat| map.wf(n),
    ensures
        *r == map.int_enc(var.0 as int),
{
    map.int_encoding(var)
}

/// Whether the bounds of the values of its variables already make `lit`
/// impossible.
pub fn is_unsatisfiable_linear(map: &EncodeMap, lit: &LinearLit) -> (r: bool)
    requires
        exists|n: nat| map.wf(n),
        all_encoded(*map, lit.sum),
    ensures
        r == range_refutes(
            lit.op,
            lit.sum.constant + terms_low(*map, lit.sum.term@),
            lit.sum.constant + terms_high(*map, lit.sum.term@),
        ),
        r ==> forall|vals: Seq<int>| #[trigger] values_in_domains(*map, lit.sum.term@, vals) ==> !lit.holds(vals),
        !r && lit.sum.wf() && lit.op != CmpOp::Eq ==> exists|vals: Seq<int>| #[trigger] values_in_domains(*map, lit.sum.term@, vals) && lit.holds(vals),
{
    proof {
        let n = choose|n: nat| map.wf(n);
        if lit.sum.wf() && !range_refutes(
            lit.op,
            lit.sum.constant + terms_low(*map, lit.sum.term@),
            lit.sum.constant + terms_high(*map, lit.sum.term@),
        ) {
            lemma_unrefuted_linear_lit(*map, n, *lit);
        }
        if range_refutes(
            lit.op,
            lit.sum.constant + terms_low(*map, lit.sum.term@),
            lit.sum.constant + terms_high(*map, lit.sum.term@),
        ) {
            assert forall|vals: Seq<int>| #[trigger] values_in_domains(*map, lit.sum.term@, vals) implies !lit.holds(vals) by {
                lemma_refuted_linear_lit(*map, n, *lit, vals);
            }
        }
    }
    let (low, high) = linear_range(map, &lit.sum);
    match lit.op {
        CmpOp::Eq => low > 0 || high < 0,
        CmpOp::Ne => low == 0 && high == 0,
        CmpOp::Le => low > 0,
        CmpOp::Lt => low >= 0,
        CmpOp::Ge => high < 0,
        CmpOp::Gt => high <= 0,
    }
}

/// Which encoder handles a linear literal.
#[derive(Clone, Copy, Debug, PartialEq, Eq, Structural)]
pub enum EncoderKind {
    MixedGe,
    DirectSimple,
    DirectEqNe,
}

/// Chooses the encoder of `lit`: a single direct-encoded variable is
/// handled alone, an (in)equality over direct-encoded variables by the
/// direct encoder, and anything else by the mixed encoder of `>=`.
pub fn suggest_encoder(map: &EncodeMap, lit: &LinearLit) -> (r: EncoderKind)
    requires
        exists|n: nat| map.wf(n),
        all_encoded(*map, lit.sum),
    ensures
        r == (if lit.sum.term@.len() == 1 && map.int_enc(lit.sum.term@[0].0.0 as int) matches Some(Encoding::Direct(_)) {
            EncoderKind::DirectSimple
        } else if (lit.op == CmpOp::Eq || lit.op == CmpOp::Ne) && all_direct(*map, lit.sum) {
            EncoderKind::DirectEqNe
        } else {
            EncoderKind::MixedGe
        }),
{
    let len = lit.sum.term.len();
    if len == 1 {
        let slot = self_int_encoding(map, lit.sum.term[0].0);
        match slot {
            Some(Encoding::Direct(_)) => {
                return EncoderKind::DirectSimple;
            },
            _ => {},
        }
    }
    if lit.op == CmpOp::Eq || lit.op == CmpOp::Ne {
        let mut all = true;
        let mut k: usize = 0;
        while k < len
            invariant
                exists|n: nat| map.wf(n),
                len == lit.sum.term@.len(),
                k <= len,
                all == forall|j: int| 0 <= j < k ==> (#[trigger] map.int_enc(lit.sum.term@[j].0.0 as int)) matches Some(
                    Encoding::Direct(_),
                ),
            decreases len - k,
        {
            let slot = self_int_encoding(map, lit.sum.term[k].0);
            let is_direct = match slot {
                Some(Encoding::Direct(_)) => true,
                _ => false,
            };
            if !is_direct {
                all = false;
            }
            k += 1;
        }
        if all {
            return EncoderKind::DirectEqNe;
        }
    }
    EncoderKind::MixedGe
}

} // verus!
