//! Normalization: rewriting the constraints of a CSP into clauses of
//! Boolean and linear literals over the variables of a normalized CSP.

pub mod expr;
pub mod norm;
pub mod extra;
pub mod stmt;

use vstd::prelude::*;

use crate::config::Config;
use crate::csp::{BoolVar, CSPVars, IntVar};
use crate::domain::Domain;
use crate::encoder::constraint::sum_negatable;
use crate::norm_csp::BoolLit as NBoolLit;
use crate::norm_csp::BoolVar as NBoolVar;
use crate::norm_csp::IntVar as NIntVar;
use crate::norm_csp::{Constraint, ExtraConstraint, LinearLit, LinearSum, NormCSP};
use crate::arithmetic::CmpOp;
use crate::util::ConvertMap;

verus! {

/// A linear literal over the first `ni` integer variables that the encoder
/// accepts.
pub open spec fn linear_lit_ok(l: LinearLit, ni: nat) -> bool {
    &&& l.sum.wf()
    &&& sum_negatable(l.sum)
    &&& forall|t: int| 0 <= t < l.sum.term@.len() ==> (#[trigger] l.sum.term@[t]).0.0 < ni
}

/// A clause over the first `nb` Boolean and `ni` integer variables.
pub open spec fn constraint_ok(c: Constraint, nb: nat, ni: nat) -> bool {
    &&& forall|k: int| 0 <= k < c.bool_lit@.len() ==> (#[trigger] c.bool_lit@[k]).var.0 < nb
    &&& forall|k: int| 0 <= k < c.linear_lit@.len() ==> linear_lit_ok(#[trigger] c.linear_lit@[k], ni)
}

pub open spec fn constraints_ok(cs: Seq<Constraint>, nb: nat, ni: nat) -> bool {
    forall|i: int| 0 <= i < cs.len() ==> constraint_ok(#[trigger] cs[i], nb, ni)
}

/// An extra constraint over the first `nb` Boolean and `ni` integer variables.
pub open spec fn extra_ok(e: ExtraConstraint, nb: nat, ni: nat) -> bool {
    match e {
        ExtraConstraint::ActiveVerticesConnected(lits, _) => forall|k: int|
            0 <= k < lits@.len() ==> (#[trigger] lits@[k]).var.0 < nb,
        ExtraConstraint::Mul(x, y, z) => x.0 < ni && y.0 < ni && z.0 < ni,
        ExtraConstraint::ExtensionSupports(vars, _) => forall|k: int| 0 <= k < vars@.len() ==> (#[trigger] vars@[k]).0 < ni,
        ExtraConstraint::GraphDivision(sizes, _, lits, _) => (forall|k: int|
            0 <= k < sizes@.len() ==> (#[trigger] sizes@[k] matches Some(v) ==> v.0 < ni)) && forall|k: int|
            0 <= k < lits@.len() ==> (#[trigger] lits@[k]).var.0 < nb,
    }
}

/// A normalized CSP whose clauses and extra constraints refer to its own
/// variables only.
pub open spec fn norm_ok(norm: NormCSP) -> bool {
    &&& norm.vars.wf()
    &&& constraints_ok(norm.constraints@, norm.vars.num_bool_var as nat, norm.vars.ni())
    &&& forall|i: int|
        0 <= i < norm.extra_constraints@.len() ==> extra_ok(
            #[trigger] norm.extra_constraints@[i],
            norm.vars.num_bool_var as nat,
            norm.vars.ni(),
        )
    &&& forall|i: int| 0 <= i < norm.prenormalize_vars@.len() ==> (#[trigger] norm.prenormalize_vars@[i]).0 < norm.vars.num_bool_var
}

/// `b` has at least the variables of `a`, and the constraints of `a` come first.
pub open spec fn norm_grows(a: NormCSP, b: NormCSP) -> bool {
    &&& a.vars.num_bool_var <= b.vars.num_bool_var
    &&& a.vars.ni() <= b.vars.ni()
    &&& forall|i: int| 0 <= i < a.vars.ni() ==> #[trigger] b.vars.int_var@[i] == a.vars.int_var@[i]
    &&& a.constraints@.len() <= b.constraints@.len()
    &&& forall|i: int| 0 <= i < a.constraints@.len() ==> #[trigger] b.constraints@[i] == a.constraints@[i]
    &&& a.extra_constraints@.len() <= b.extra_constraints@.len()
    &&& a.prenormalize_vars@.len() <= b.prenormalize_vars@.len()
    &&& a.num_encoded_vars == b.num_encoded_vars
}

/// `b` keeps what `a` settled: each Boolean variable that was converted or
/// removed, and each integer variable that was converted, stays as it was.
pub open spec fn map_keeps(a: NormalizeMap, b: NormalizeMap) -> bool {
    &&& forall|i: int| !(#[trigger] a.bool_at(i) is NotConverted) ==> b.bool_at(i) == a.bool_at(i)
    &&& forall|i: int| (#[trigger] a.int_at(i)) is Some ==> b.int_at(i) == a.int_at(i)
}

/// What became of a Boolean variable of the CSP.
#[derive(Clone, Copy, Debug, PartialEq, Eq, Structural)]
pub enum ConvertedBoolVar {
    /// It is represented by a literal of the normalized CSP.
    Lit(NBoolLit),
    /// It was fixed by constant folding and left out.
    Removed,
    NotConverted,
}

impl ConvertedBoolVar {
    pub fn is_removed(&self) -> (r: bool)
        ensures
            r == (*self is Removed),
    {
        match self {
            ConvertedBoolVar::Removed => true,
            _ => false,
        }
    }

    pub fn is_lit(&self) -> (r: bool)
        ensures
            r == (*self is Lit),
    {
        match self {
            ConvertedBoolVar::Lit(_) => true,
            _ => false,
        }
    }

    pub fn is_not_converted(&self) -> (r: bool)
        ensures
            r == (*self is NotConverted),
    {
        match self {
            ConvertedBoolVar::NotConverted => true,
            _ => false,
        }
    }
}

/// Where the variables of a CSP went in the normalized CSP.
pub struct NormalizeMap {
    bool_map: ConvertMap<BoolVar, ConvertedBoolVar>,
    int_map: ConvertMap<IntVar, NIntVar>,
}

impl NormalizeMap {
    /// What became of Boolean variable `i`.
    pub closed spec fn bool_at(&self, i: int) -> ConvertedBoolVar {
        match self.bool_map.slot(i) {
            Some(c) => c,
            None => ConvertedBoolVar::NotConverted,
        }
    }

    /// The normalized variable of integer variable `i`.
    pub closed spec fn int_at(&self, i: int) -> Option<NIntVar> {
        self.int_map.slot(i)
    }

    /// The map refers to the first `nb` Boolean and `ni` integer variables
    /// of the normalized CSP only.
    pub closed spec fn ok(&self, nb: nat, ni: nat) -> bool {
        &&& self.bool_map.wf()
        &&& self.int_map.wf()
        &&& forall|i: int| #[trigger] self.bool_at(i) matches ConvertedBoolVar::Lit(l) ==> l.var.0 < nb
        &&& forall|i: int| #[trigger] self.int_at(i) matches Some(v) ==> v.0 < ni
    }

    /// A map that converted nothing yet.
    pub fn new() -> (r: NormalizeMap)
        ensures
            r.ok(0, 0),
            forall|i: int| #[trigger] r.bool_at(i) == ConvertedBoolVar::NotConverted,
            forall|i: int| #[trigger] r.int_at(i) == None::<NIntVar>,
    {
        let r = NormalizeMap { bool_map: ConvertMap::new(), int_map: ConvertMap::new() };
        assert forall|i: int| #[trigger] r.bool_at(i) == ConvertedBoolVar::NotConverted by {
            assert(r.bool_map.slot(i) is None);
        }
        r
    }

    /// Staying within more variables keeps the map valid.
    pub proof fn lemma_ok_mono(&self, nb: nat, ni: nat, nb2: nat, ni2: nat)
        requires
            self.ok(nb, ni),
            nb <= nb2,
            ni <= ni2,
        ensures
            self.ok(nb2, ni2),
    {
    }

    /// The literal of Boolean variable `var`, if it was converted.
    pub fn get_bool_var(&self, var: BoolVar) -> (r: Option<NBoolLit>)
        requires
            exists|nb: nat, ni: nat| self.ok(nb, ni),
            !(self.bool_at(var.0 as int) is Removed),
        ensures
            r == (match self.bool_at(var.0 as int) {
                ConvertedBoolVar::Lit(l) => Some(l),
                _ => None,
            }),
    {
        match self.get_bool_var_raw(var) {
            ConvertedBoolVar::Lit(x) => Some(x),
            _ => None,
        }
    }

    /// What became of Boolean variable `var`.
    pub fn get_bool_var_raw(&self, var: BoolVar) -> (r: ConvertedBoolVar)
        requires
            exists|nb: nat, ni: nat| self.ok(nb, ni),
        ensures
            r == self.bool_at(var.0 as int),
    {
        match self.bool_map.get(&var) {
            Some(c) => *c,
            None => ConvertedBoolVar::NotConverted,
        }
    }

    /// The normalized variable of integer variable `var`, if it was converted.
    pub fn get_int_var(&self, var: IntVar) -> (r: Option<NIntVar>)
        requires
            exists|nb: nat, ni: nat| self.ok(nb, ni),
        ensures
            r == self.int_at(var.0 as int),
    {
        *self.int_map.get(&var)
    }

    /// Records that Boolean variable `var` is represented by `lit`.
    pub(crate) fn set_bool(&mut self, var: BoolVar, c: ConvertedBoolVar, Ghost(nb): Ghost<nat>, Ghost(ni): Ghost<nat>)
        requires
            old(self).ok(nb, ni),
            c matches ConvertedBoolVar::Lit(l) ==> l.var.0 < nb,
        ensures
            final(self).ok(nb, ni),
            final(self).bool_at(var.0 as int) == c,
            forall|i: int| i != var.0 ==> #[trigger] final(self).bool_at(i) == old(self).bool_at(i),
            forall|i: int| #[trigger] final(self).int_at(i) == old(self).int_at(i),
    {
        self.bool_map.set(&var, Some(c));
        proof {
            assert forall|i: int| i != var.0 implies #[trigger] self.bool_at(i) == old(self).bool_at(i) by {
                assert(self.bool_map.slot(i) == old(self).bool_map.slot(i));
            }
            assert(self.bool_map.slot(var.0 as int) == Some(c));
            assert(self.int_map == old(self).int_map);
            assert forall|i: int| (#[trigger] self.int_at(i)) is Some implies self.int_at(i)->Some_0.0 < ni by {
                assert(old(self).int_at(i) == self.int_at(i));
            }
            assert forall|i: int| (#[trigger] self.bool_at(i)) is Lit implies self.bool_at(i)->Lit_0.var.0 < nb by {
                if i != var.0 {
                    assert(self.bool_map.slot(i) == old(self).bool_map.slot(i));
                }
            }
        }
    }

    /// The literal of Boolean variable `var`, creating it where `var` is new;
    /// `None` where `var` was removed or no variable is left.
    pub fn convert_bool_var(&mut self, csp_vars: &CSPVars, norm: &mut NormCSP, var: BoolVar) -> (r: Option<NBoolLit>)
        requires
            old(self).ok(old(norm).vars.num_bool_var as nat, old(norm).vars.ni()),
            norm_ok(*old(norm)),
        ensures
            final(self).ok(final(norm).vars.num_bool_var as nat, final(norm).vars.ni()),
            norm_ok(*final(norm)),
            norm_grows(*old(norm), *final(norm)),
            map_keeps(*old(self), *final(self)),
            forall|i: int| i != var.0 ==> #[trigger] final(self).bool_at(i) == old(self).bool_at(i),
            forall|i: int| #[trigger] final(self).int_at(i) == old(self).int_at(i),
            r matches Some(l) ==> l.var.0 < final(norm).vars.num_bool_var,
            old(self).bool_at(var.0 as int) matches ConvertedBoolVar::Lit(x) ==> r == Some(x) && *final(norm) == *old(norm),
            old(self).bool_at(var.0 as int) is Removed ==> r is None && *final(norm) == *old(norm),
            old(self).bool_at(var.0 as int) is NotConverted ==> (r is None <==> old(norm).vars.num_bool_var == usize::MAX),
            old(self).bool_at(var.0 as int) is NotConverted && r is Some ==> r->0.var == NBoolVar(old(norm).vars.num_bool_var) && !r->0.negated && final(self).bool_at(var.0 as int) == ConvertedBoolVar::Lit(r->0) && final(norm).vars.num_bool_var
                == old(norm).vars.num_bool_var + 1,
    {
        match self.get_bool_var_raw(var) {
            ConvertedBoolVar::Lit(x) => Some(x),
            ConvertedBoolVar::Removed => None,
            ConvertedBoolVar::NotConverted => {
                if norm.vars.num_bool_var == usize::MAX {
                    return None;
                }
                let ghost n0 = *norm;
                let v = norm.new_bool_var();
                let ret = NBoolLit::new(v, false);
                proof {
                    self.lemma_ok_mono(n0.vars.num_bool_var as nat, n0.vars.ni(), norm.vars.num_bool_var as nat, norm.vars.ni());
                }
                self.set_bool(var, ConvertedBoolVar::Lit(ret), Ghost(norm.vars.num_bool_var as nat), Ghost(norm.vars.ni()));
                Some(ret)
            },
        }
    }

    /// The normalized variable of integer variable `var`, creating it where
    /// `var` is new; `None` where `var` is not a variable of `csp_vars` or
    /// its domain is empty.
    pub fn convert_int_var(&mut self, csp_vars: &CSPVars, norm: &mut NormCSP, var: IntVar) -> (r: Option<NIntVar>)
        requires
            old(self).ok(old(norm).vars.num_bool_var as nat, old(norm).vars.ni()),
            norm_ok(*old(norm)),
            csp_vars.wf(),
        ensures
            final(self).ok(final(norm).vars.num_bool_var as nat, final(norm).vars.ni()),
            norm_ok(*final(norm)),
            norm_grows(*old(norm), *final(norm)),
            map_keeps(*old(self), *final(self)),
            r matches Some(v) ==> v.0 < final(norm).vars.ni(),
            forall|i: int| #[trigger] final(self).bool_at(i) == old(self).bool_at(i),
            old(self).int_at(var.0 as int) is Some ==> r == old(self).int_at(var.0 as int) && *final(norm) == *old(norm),
            old(self).int_at(var.0 as int) is None ==> (r is None <==> (var.0 >= csp_vars.int_var@.len()
                || csp_vars.int_var@[var.0 as int].domain.spec_is_empty())),
            r matches Some(v) ==> (old(self).int_at(var.0 as int) is None ==> v.0 == old(norm).vars.ni() && final(self).int_at(
                var.0 as int,
            ) == r && final(norm).vars.int_var@.len() == old(norm).vars.int_var@.len() + 1 && forall|x: int|
                #[trigger] final(norm).vars.int_var@[v.0 as int].contains(x) <==> csp_vars.int_var@[var.0 as int].domain.contains(x)),
    {
        match self.get_int_var(var) {
            Some(x) => Some(x),
            None => {
                if var.0 >= csp_vars.int_var.len() {
                    return None;
                }
                let data = csp_vars.int_var(var);
                assert(csp_vars.int_var@[var.0 as int].domain.wf());
                if data.domain.is_empty() {
                    return None;
                }
                let ghost n0 = *norm;
                let ret = norm.new_int_var(data.domain.duplicate());
                proof {
                    self.lemma_ok_mono(n0.vars.num_bool_var as nat, n0.vars.ni(), norm.vars.num_bool_var as nat, norm.vars.ni());
                }
                self.int_map.set(&var, Some(ret));
                proof {
                    assert forall|i: int| #[trigger] self.bool_at(i) == old(self).bool_at(i) by {}
                    assert(self.int_map.slot(var.0 as int) == Some(ret));
                    assert forall|i: int| (#[trigger] self.int_at(i)) is Some implies self.int_at(i)->Some_0.0 < norm.vars.ni() by {
                        if i != var.0 {
                            assert(old(self).int_at(i) == self.int_at(i));
                            assert(self.int_map.slot(i) == old(self).int_map.slot(i));
                        }
                    }
                }
                Some(ret)
            },
        }
    }
}

/// A fresh Boolean variable of `norm`; `None` where none is left.
pub fn fresh_bool_var(norm: &mut NormCSP, map: &NormalizeMap) -> (r: Option<NBoolVar>)
    requires
        map.ok(old(norm).vars.num_bool_var as nat, old(norm).vars.ni()),
        norm_ok(*old(norm)),
    ensures
        map.ok(final(norm).vars.num_bool_var as nat, final(norm).vars.ni()),
        norm_ok(*final(norm)),
        norm_grows(*old(norm), *final(norm)),
        r matches Some(v) ==> v.0 < final(norm).vars.num_bool_var && v.0 == old(norm).vars.num_bool_var,
        r is Some ==> final(norm).vars.num_bool_var == old(norm).vars.num_bool_var + 1 && final(norm).vars.int_var
            == old(norm).vars.int_var && final(norm).constraints == old(norm).constraints
            && final(norm).extra_constraints == old(norm).extra_constraints,
        r is None <==> old(norm).vars.num_bool_var == usize::MAX,
        r is None ==> *final(norm) == *old(norm),
{
    if norm.vars.num_bool_var == usize::MAX {
        return None;
    }
    let ghost n0 = *norm;
    let v = norm.new_bool_var();
    proof {
        map.lemma_ok_mono(n0.vars.num_bool_var as nat, n0.vars.ni(), norm.vars.num_bool_var as nat, norm.vars.ni());
    }
    Some(v)
}

/// A fresh integer variable of `norm` with values `domain`.
pub fn fresh_int_var(norm: &mut NormCSP, map: &NormalizeMap, domain: Domain) -> (r: NIntVar)
    requires
        map.ok(old(norm).vars.num_bool_var as nat, old(norm).vars.ni()),
        norm_ok(*old(norm)),
        domain.wf(),
        !domain.spec_is_empty(),
    ensures
        map.ok(final(norm).vars.num_bool_var as nat, final(norm).vars.ni()),
        norm_ok(*final(norm)),
        norm_grows(*old(norm), *final(norm)),
        r.0 < final(norm).vars.ni(),
        r.0 == old(norm).vars.ni(),
{
    let ghost n0 = *norm;
    let v = norm.new_int_var(domain);
    proof {
        map.lemma_ok_mono(n0.vars.num_bool_var as nat, n0.vars.ni(), norm.vars.num_bool_var as nat, norm.vars.ni());
    }
    v
}

/// Whether the encoder accepts `sum` in a literal.
pub fn is_negatable(sum: &LinearSum) -> (r: bool)
    ensures
        r == sum_negatable(*sum),
{
    if sum.constant < -0x7fff_fffe || sum.constant > 0x7fff_fffe {
        return false;
    }
    let mut i: usize = 0;
    while i < sum.term.len()
        invariant
            i <= sum.term@.len(),
            forall|k: int| 0 <= k < i ==> -0x7fff_ffff <= (#[trigger] sum.term@[k]).1,
        decreases sum.term@.len() - i,
    {
        if sum.term[i].1 < -0x7fff_ffff {
            return false;
        }
        i += 1;
    }
    true
}

/// Whether every variable of `sum` is below `ni`.
pub fn sum_vars_below(sum: &LinearSum, ni: usize) -> (r: bool)
    ensures
        r == forall|t: int| 0 <= t < sum.term@.len() ==> (#[trigger] sum.term@[t]).0.0 < ni,
{
    let mut i: usize = 0;
    while i < sum.term.len()
        invariant
            i <= sum.term@.len(),
            forall|k: int| 0 <= k < i ==> (#[trigger] sum.term@[k]).0.0 < ni,
        decreases sum.term@.len() - i,
    {
        if sum.term[i].0.0 >= ni {
            return false;
        }
        i += 1;
    }
    true
}

/// The literal `sum op 0`, where the encoder accepts it.
pub fn make_linear_lit(sum: LinearSum, op: CmpOp, norm: &NormCSP) -> (r: Option<LinearLit>)
    requires
        sum.wf(),
    ensures
        r matches Some(l) ==> linear_lit_ok(l, norm.vars.ni()) && l.sum == sum && l.op == op,
        r is None <==> !(sum_negatable(sum) && forall|t: int| 0 <= t < sum.term@.len() ==> (#[trigger] sum.term@[t]).0.0 < norm.vars.ni()),
{
    if !is_negatable(&sum) || !sum_vars_below(&sum, norm.vars.int_var.len()) {
        return None;
    }
    Some(LinearLit::new(sum, op))
}

/// The clause consisting of one linear literal.
pub fn linear_constraint(lit: LinearLit) -> (r: Constraint)
    ensures
        r.bool_lit@.len() == 0,
        r.linear_lit@ == seq![lit],
{
    let mut c = Constraint::new();
    c.add_linear(lit);
    c
}

/// The clause consisting of one Boolean literal.
pub fn bool_constraint(lit: NBoolLit) -> (r: Constraint)
    ensures
        r.bool_lit@ == seq![lit],
        r.linear_lit@.len() == 0,
{
    let mut c = Constraint::new();
    c.add_bool(lit);
    c
}

/// Adds `c` to `norm`.
pub fn add_constraint_ok(norm: &mut NormCSP, map: &NormalizeMap, c: Constraint)
    requires
        map.ok(old(norm).vars.num_bool_var as nat, old(norm).vars.ni()),
        norm_ok(*old(norm)),
        constraint_ok(c, old(norm).vars.num_bool_var as nat, old(norm).vars.ni()),
    ensures
        map.ok(final(norm).vars.num_bool_var as nat, final(norm).vars.ni()),
        norm_ok(*final(norm)),
        norm_grows(*old(norm), *final(norm)),
        final(norm).vars == old(norm).vars,
        final(norm).constraints@ == old(norm).constraints@.push(c),
        final(norm).extra_constraints == old(norm).extra_constraints,
        final(norm).prenormalize_vars == old(norm).prenormalize_vars,
        final(norm).num_encoded_vars == old(norm).num_encoded_vars,
{
    let ghost n0 = *norm;
    norm.add_constraint(c);
    proof {
        assert forall|i: int| 0 <= i < norm.constraints@.len() implies constraint_ok(#[trigger] norm.constraints@[i], norm.vars.num_bool_var as nat, norm.vars.ni()) by {
            if i < n0.constraints@.len() {
                assert(norm.constraints@[i] == n0.constraints@[i]);
            }
        }
    }
}

/// Adds every clause of `cs` to `norm`.
pub fn add_constraints_ok(norm: &mut NormCSP, map: &NormalizeMap, cs: Vec<Constraint>)
    requires
        map.ok(old(norm).vars.num_bool_var as nat, old(norm).vars.ni()),
        norm_ok(*old(norm)),
        constraints_ok(cs@, old(norm).vars.num_bool_var as nat, old(norm).vars.ni()),
    ensures
        map.ok(final(norm).vars.num_bool_var as nat, final(norm).vars.ni()),
        norm_ok(*final(norm)),
        norm_grows(*old(norm), *final(norm)),
        final(norm).vars == old(norm).vars,
        final(norm).constraints@ == old(norm).constraints@ + cs@,
        final(norm).extra_constraints == old(norm).extra_constraints,
        final(norm).prenormalize_vars == old(norm).prenormalize_vars,
        final(norm).num_encoded_vars == old(norm).num_encoded_vars,
{
    let ghost c0 = cs@;
    let n = cs.len();
    let mut rest = cs;
    assert(old(norm).constraints@ + c0.take(0) =~= old(norm).constraints@);
    let mut i: usize = 0;
    while i < n
        invariant
            map.ok(norm.vars.num_bool_var as nat, norm.vars.ni()),
            norm_ok(*norm),
            norm_grows(*old(norm), *norm),
            norm.vars == old(norm).vars,
            constraints_ok(c0, old(norm).vars.num_bool_var as nat, old(norm).vars.ni()),
            n == c0.len(),
            i <= n,
            rest@ == c0.subrange(i as int, n as int),
            norm.constraints@ == old(norm).constraints@ + c0.take(i as int),
            norm.extra_constraints == old(norm).extra_constraints,
            norm.prenormalize_vars == old(norm).prenormalize_vars,
            norm.num_encoded_vars == old(norm).num_encoded_vars,
        decreases n - i,
    {
        let c = rest.remove(0);
        assert(c == c0[i as int]);
        let ghost n1 = *norm;
        add_constraint_ok(norm, map, c);
        assert(c0.take(i + 1) =~= c0.take(i as int).push(c));
        assert(norm.constraints@ =~= old(norm).constraints@ + c0.take(i + 1));
        i += 1;
    }
    assert(c0.take(n as int) =~= c0);
}

/// Adds `e` to `norm`.
pub fn add_extra_ok(norm: &mut NormCSP, map: &NormalizeMap, e: ExtraConstraint)
    requires
        map.ok(old(norm).vars.num_bool_var as nat, old(norm).vars.ni()),
        norm_ok(*old(norm)),
        extra_ok(e, old(norm).vars.num_bool_var as nat, old(norm).vars.ni()),
    ensures
        map.ok(final(norm).vars.num_bool_var as nat, final(norm).vars.ni()),
        norm_ok(*final(norm)),
        norm_grows(*old(norm), *final(norm)),
        final(norm).vars == old(norm).vars,
        final(norm).extra_constraints@ == old(norm).extra_constraints@.push(e),
        final(norm).constraints == old(norm).constraints,
        final(norm).prenormalize_vars == old(norm).prenormalize_vars,
        final(norm).num_encoded_vars == old(norm).num_encoded_vars,
{
    let ghost n0 = *norm;
    norm.add_extra_constraint(e);
    proof {
        assert forall|i: int| 0 <= i < norm.extra_constraints@.len() implies extra_ok(#[trigger] norm.extra_constraints@[i], norm.vars.num_bool_var as nat, norm.vars.ni()) by {
            if i < n0.extra_constraints@.len() {
                assert(norm.extra_constraints@[i] == n0.extra_constraints@[i]);
            }
        }
    }
}

/// Constraints that hold of fewer variables hold of more.
pub proof fn lemma_constraints_mono(cs: Seq<Constraint>, nb: nat, ni: nat, nb2: nat, ni2: nat)
    requires
        constraints_ok(cs, nb, ni),
        nb <= nb2,
        ni <= ni2,
    ensures
        constraints_ok(cs, nb2, ni2),
{
    assert forall|i: int| 0 <= i < cs.len() implies constraint_ok(#[trigger] cs[i], nb2, ni2) by {
        assert(constraint_ok(cs[i], nb, ni));
        assert forall|k: int| 0 <= k < cs[i].linear_lit@.len() implies linear_lit_ok(#[trigger] cs[i].linear_lit@[k], ni2) by {
            assert(linear_lit_ok(cs[i].linear_lit@[k], ni));
        }
    }
}

} // verus!
