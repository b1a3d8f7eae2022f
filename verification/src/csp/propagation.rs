use vstd::prelude::*;

use super::repr::{bool_ok, all_bool_ok, eval_all, eval_any, eval_bool, BoolExpr, BoolVar, Env};
use super::{mask_allows, BoolVarData, CSPVars};
use crate::util::{status_join, UpdateStatus};

verus! {

/// The variable of an expression that is a negated Boolean variable.
pub open spec fn negated_var(e: BoolExpr) -> Option<BoolVar> {
    match e {
        BoolExpr::Not(x) => match *x {
            BoolExpr::Var(v) => Some(v),
            _ => None,
        },
        _ => None,
    }
}


/// The possibility masks of the Boolean variables.
pub open spec fn masks_of(vars: Seq<BoolVarData>) -> Seq<u8> {
    vars.map_values(|d: BoolVarData| d.possibility_mask)
}

/// `new` allows no value that `old` did not allow.
pub open spec fn masks_refine(new: Seq<u8>, old: Seq<u8>) -> bool {
    &&& new.len() == old.len()
    &&& forall|i: int, b: bool|
        0 <= i < new.len() && #[trigger] mask_allows(new[i], b) ==> mask_allows(old[i], b)
}

/// Number of values a mask allows.
pub open spec fn mask_count(m: u8) -> nat {
    (if mask_allows(m, false) { 1nat } else { 0nat }) + (if mask_allows(m, true) { 1nat } else { 0nat })
}

/// Total number of values still allowed over all variables.
pub open spec fn masks_weight(ms: Seq<u8>) -> nat
    decreases ms.len(),
{
    if ms.len() == 0 {
        0
    } else {
        masks_weight(ms.drop_last()) + mask_count(ms.last())
    }
}

/// Refining masks never increases the weight; refining and changing one
/// strictly decreases it.
pub proof fn lemma_refine_weight(new: Seq<u8>, old: Seq<u8>)
    requires
        masks_refine(new, old),
        forall|i: int| 0 <= i < new.len() ==> #[trigger] new[i] < 4,
        forall|i: int| 0 <= i < old.len() ==> #[trigger] old[i] < 4,
    ensures
        masks_weight(new) <= masks_weight(old),
        new != old ==> masks_weight(new) < masks_weight(old),
    decreases new.len(),
{
    if new.len() > 0 {
        let n2 = new.drop_last();
        let o2 = old.drop_last();
        assert(masks_refine(n2, o2)) by {
            assert forall|i: int, b: bool| 0 <= i < n2.len() && #[trigger] mask_allows(n2[i], b) implies mask_allows(o2[i], b) by {
                assert(n2[i] == new[i] && o2[i] == old[i]);
            }
        }
        lemma_refine_weight(n2, o2);
        let k = new.len() - 1;
        assert(mask_allows(new[k], false) ==> mask_allows(old[k], false));
        assert(mask_allows(new[k], true) ==> mask_allows(old[k], true));
        if new != old {
            if new[k] == old[k] {
                assert(n2 != o2) by {
                    if n2 == o2 {
                        assert(new =~= old) by {
                            assert forall|i: int| 0 <= i < new.len() implies new[i] == old[i] by {
                                if i < k {
                                    assert(new[i] == n2[i]);
                                }
                            }
                        }
                    }
                }
            }
        }
    } else {
        assert(new =~= old);
    }
}

/// Masks of well-formed variables are below 4.
pub proof fn lemma_masks_small(vars: CSPVars)
    requires
        vars.wf(),
    ensures
        masks_of(vars.bool_var@).len() == vars.bool_var@.len(),
        forall|i: int| 0 <= i < masks_of(vars.bool_var@).len() ==> #[trigger] masks_of(vars.bool_var@)[i] < 4,
{
    assert forall|i: int| 0 <= i < masks_of(vars.bool_var@).len() implies #[trigger] masks_of(vars.bool_var@)[i] < 4 by {
        assert(vars.bool_var@[i].wf());
    }
}

impl CSPVars {
    /// Taking in that `e` has the value `expected` changes no variable's
    /// possible values and meets no contradiction: each Boolean variable that
    /// the value directly determines (through `And` taken as true, `Or` and
    /// `Imp` taken as false, and `Not`) already excludes the other value, and
    /// each constant so reached has the value required of it.
    pub open spec fn prop_stable(&self, e: BoolExpr, expected: bool) -> bool
        decreases e,
    {
        match e {
            BoolExpr::Const(c) => c == expected,
            BoolExpr::Var(v) => !mask_allows(self.bool_var@[v.0 as int].possibility_mask, !expected),
            BoolExpr::And(es) => expected ==> self.all_prop_stable(es@, true),
            BoolExpr::Or(es) => !expected ==> self.all_prop_stable(es@, false),
            BoolExpr::Not(x) => self.prop_stable(*x, !expected),
            BoolExpr::Imp(x, y) => !expected ==> self.prop_stable(*x, true) && self.prop_stable(*y, false),
            _ => true,
        }
    }

    pub open spec fn all_prop_stable(&self, es: Seq<Box<BoolExpr>>, expected: bool) -> bool
        decreases es,
    {
        forall|i: int| 0 <= i < es.len() ==> self.prop_stable(*#[trigger] es[i], expected)
    }

    /// Propagates the fact that `e` must evaluate to `expected` into the
    /// possibility masks of the Boolean variables it directly determines.
    pub fn constant_prop_bool(&mut self, e: &BoolExpr, expected: bool) -> (r: UpdateStatus)
        requires
            old(self).wf(),
            bool_ok(*e, old(self).nb(), old(self).ni()),
        ensures
            final(self).wf(),
            final(self).int_var == old(self).int_var,
            masks_refine(masks_of(final(self).bool_var@), masks_of(old(self).bool_var@)),
            forall|env: Env| old(self).consistent(env) && eval_bool(*e, env) == expected ==> final(self).consistent(env),
            forall|env: Env| final(self).consistent(env) ==> old(self).consistent(env),
            r == UpdateStatus::Unsatisfiable ==> forall|env: Env|
                old(self).consistent(env) ==> eval_bool(*e, env) != expected,
            r == UpdateStatus::NotUpdated ==> *final(self) == *old(self),
            (r == UpdateStatus::NotUpdated) == old(self).prop_stable(*e, expected),
            r == UpdateStatus::Updated ==> masks_of(final(self).bool_var@) != masks_of(old(self).bool_var@),
            r != UpdateStatus::Unsatisfiable && old(self).all_feasible() ==> final(self).all_feasible(),
            e matches BoolExpr::Const(c) ==> r == (if c == expected {
                UpdateStatus::NotUpdated
            } else {
                UpdateStatus::Unsatisfiable
            }),
            e matches BoolExpr::Var(v) ==> forall|b: bool|
                #[trigger] mask_allows(final(self).bool_var@[v.0 as int].possibility_mask, b) <==> (mask_allows(
                    old(self).bool_var@[v.0 as int].possibility_mask,
                    b,
                ) && b == expected),
            e matches BoolExpr::Var(v) ==> forall|i: int|
                0 <= i < old(self).bool_var@.len() && i != v.0 ==> #[trigger] final(self).bool_var@[i] == old(self).bool_var@[i],
            negated_var(*e) matches Some(v) ==> forall|b: bool|
                #[trigger] mask_allows(final(self).bool_var@[v.0 as int].possibility_mask, b) <==> (mask_allows(
                    old(self).bool_var@[v.0 as int].possibility_mask,
                    b,
                ) && b == !expected),
        decreases e,
    {
        match e {
            BoolExpr::Const(c) => {
                if *c == expected {
                    UpdateStatus::NotUpdated
                } else {
                    UpdateStatus::Unsatisfiable
                }
            },
            BoolExpr::Var(v) => {
                let idx = v.0;
                let ghost old_vars = self.bool_var@;
                assert(self.bool_var@[idx as int].wf());
                let mut data = BoolVarData { possibility_mask: self.bool_var[idx].possibility_mask };
                let r = data.set_infeasible(!expected);
                if r != UpdateStatus::NotUpdated {
                    self.bool_var.set(idx, data);
                }
                proof {
                    let nm = masks_of(self.bool_var@);
                    let om = masks_of(old_vars);
                    assert forall|i: int, b: bool| 0 <= i < nm.len() && #[trigger] mask_allows(nm[i], b) implies mask_allows(om[i], b) by {
                        if i == idx {
                            if b == expected {
                            } else {
                            }
                        } else {
                            assert(self.bool_var@[i] == old_vars[i]);
                        }
                    }
                    assert forall|i: int| 0 <= i < self.bool_var@.len() implies (#[trigger] self.bool_var@[i]).wf() by {
                        if i != idx {
                            assert(self.bool_var@[i] == old_vars[i]);
                        }
                    }
                    assert forall|env: Env| old(self).consistent(env) && eval_bool(*e, env) == expected implies self.consistent(env) by {
                        assert forall|i: int| 0 <= i < self.bool_var@.len() implies mask_allows((#[trigger] self.bool_var@[i]).possibility_mask, env.bools[i]) by {
                            if i != idx {
                                assert(self.bool_var@[i] == old_vars[i]);
                            }
                        }
                    }
                    assert forall|env: Env| self.consistent(env) implies old(self).consistent(env) by {
                        assert forall|i: int| 0 <= i < old_vars.len() implies mask_allows((#[trigger] old_vars[i]).possibility_mask, env.bools[i]) by {
                            if i != idx {
                                assert(self.bool_var@[i] == old_vars[i]);
                            } else {
                                assert(mask_allows(self.bool_var@[i].possibility_mask, env.bools[i]));
                            }
                        }
                    }
                    if r == UpdateStatus::Updated {
                        assert(nm[idx as int] != om[idx as int]);
                    }
                    if r != UpdateStatus::Unsatisfiable && old(self).all_feasible() {
                        assert forall|i: int| 0 <= i < self.bool_var@.len() implies (#[trigger] self.bool_var@[i]).possibility_mask != 0 by {
                            if i != idx {
                                assert(self.bool_var@[i] == old_vars[i]);
                            } else {
                                assert(old_vars[i].possibility_mask != 0);
                            }
                        }
                    }
                }
                r
            },
            BoolExpr::And(es) => {
                if expected {
                    self.prop_all(es, true, Ghost(*e))
                } else {
                    UpdateStatus::NotUpdated
                }
            },
            BoolExpr::Or(es) => {
                if !expected {
                    self.prop_all(es, false, Ghost(*e))
                } else {
                    UpdateStatus::NotUpdated
                }
            },
            BoolExpr::Not(x) => {
                let r = self.constant_prop_bool(x, !expected);
                proof {
                    assert forall|env: Env| old(self).consistent(env) && eval_bool(*e, env) == expected implies self.consistent(env) by {
                        assert(eval_bool(**x, env) == !expected);
                    }
                    if r == UpdateStatus::Unsatisfiable {
                        assert forall|env: Env| old(self).consistent(env) implies eval_bool(*e, env) != expected by {
                            assert(eval_bool(**x, env) != !expected);
                        }
                    }
                }
                r
            },
            BoolExpr::Imp(x, y) => {
                if !expected {
                    let ghost v0 = *self;
                    let r1 = self.constant_prop_bool(x, true);
                    let ghost v1 = *self;
                    let r2 = self.constant_prop_bool(y, false);
                    proof {
                        lemma_masks_small(*self);
                        lemma_masks_small(v1);
                        lemma_masks_small(v0);
                        lemma_refine_trans(masks_of(self.bool_var@), masks_of(v1.bool_var@), masks_of(v0.bool_var@));
                        if r1 == UpdateStatus::Updated || r2 == UpdateStatus::Updated {
                            lemma_refine_strict(masks_of(self.bool_var@), masks_of(v1.bool_var@), masks_of(v0.bool_var@), r1 == UpdateStatus::Updated);
                        }
                        assert forall|env: Env| v0.consistent(env) && eval_bool(*e, env) == expected implies self.consistent(env) by {
                            assert(eval_bool(**x, env) == true);
                            assert(eval_bool(**y, env) == false);
                            assert(v1.consistent(env));
                        }
                        if r1 == UpdateStatus::Unsatisfiable {
                            assert forall|env: Env| v0.consistent(env) implies eval_bool(*e, env) != expected by {
                                if eval_bool(*e, env) == expected {
                                    assert(eval_bool(**x, env) == true);
                                }
                            }
                        }
                        if r2 == UpdateStatus::Unsatisfiable {
                            assert forall|env: Env| v0.consistent(env) implies eval_bool(*e, env) != expected by {
                                if eval_bool(*e, env) == expected {
                                    assert(eval_bool(**x, env) == true);
                                    assert(eval_bool(**y, env) == false);
                                    assert(v1.consistent(env));
                                }
                            }
                        }
                    }
                    r1.or(r2)
                } else {
                    UpdateStatus::NotUpdated
                }
            },
            _ => UpdateStatus::NotUpdated,
        }
    }

    /// Propagates `expected` into each expression of `es`.
    fn prop_all(&mut self, es: &Vec<Box<BoolExpr>>, expected: bool, Ghost(e0): Ghost<BoolExpr>) -> (r: UpdateStatus)
        requires
            old(self).wf(),
            e0 == (if expected { BoolExpr::And(*es) } else { BoolExpr::Or(*es) }),
            all_bool_ok(es@, old(self).nb(), old(self).ni()),
        ensures
            final(self).wf(),
            final(self).int_var == old(self).int_var,
            masks_refine(masks_of(final(self).bool_var@), masks_of(old(self).bool_var@)),
            forall|env: Env| old(self).consistent(env) && eval_bool(e0, env) == expected ==> final(self).consistent(env),
            forall|env: Env| final(self).consistent(env) ==> old(self).consistent(env),
            r == UpdateStatus::Unsatisfiable ==> forall|env: Env|
                old(self).consistent(env) ==> eval_bool(e0, env) != expected,
            r == UpdateStatus::NotUpdated ==> *final(self) == *old(self),
            (r == UpdateStatus::NotUpdated) == old(self).all_prop_stable(es@, expected),
            r == UpdateStatus::Updated ==> masks_of(final(self).bool_var@) != masks_of(old(self).bool_var@),
            r != UpdateStatus::Unsatisfiable && old(self).all_feasible() ==> final(self).all_feasible(),
            (exists|k: int| 0 <= k < es@.len() && *(#[trigger] es@[k]) == BoolExpr::Const(!expected)) ==> r == UpdateStatus::Unsatisfiable,
        decreases e0, 0int,
    {
        let ghost v0 = *self;
        let mut ret = UpdateStatus::NotUpdated;
        let mut i: usize = 0;
        while i < es.len()
            invariant
                v0.wf(),
                self.wf(),
                self.bool_var@.len() == v0.bool_var@.len(),
                self.int_var == v0.int_var,
                e0 == (if expected { BoolExpr::And(*es) } else { BoolExpr::Or(*es) }),
                all_bool_ok(es@, v0.nb(), v0.ni()),
                i <= es.len(),
                masks_refine(masks_of(self.bool_var@), masks_of(v0.bool_var@)),
                forall|env: Env| v0.consistent(env) && eval_bool(e0, env) == expected ==> self.consistent(env),
                forall|env: Env| self.consistent(env) ==> v0.consistent(env),
                ret == UpdateStatus::Unsatisfiable ==> forall|env: Env|
                    v0.consistent(env) ==> eval_bool(e0, env) != expected,
                ret == UpdateStatus::NotUpdated ==> *self == v0,
                (ret == UpdateStatus::NotUpdated) == (forall|k: int| 0 <= k < i ==> v0.prop_stable(*#[trigger] es@[k], expected)),
                ret == UpdateStatus::Updated ==> masks_of(self.bool_var@) != masks_of(v0.bool_var@),
                ret != UpdateStatus::Unsatisfiable && v0.all_feasible() ==> self.all_feasible(),
                (exists|k: int| 0 <= k < i && *(#[trigger] es@[k]) == BoolExpr::Const(!expected)) ==> ret == UpdateStatus::Unsatisfiable,
            decreases es.len() - i,
        {
            proof {
                if expected {
                    assert(e0->And_0 == *es);
                    assert(decreases_to!(e0 => e0->And_0));
                    assert(decreases_to!(e0->And_0 => e0->And_0@));
                    assert(decreases_to!(e0->And_0@ => e0->And_0@[i as int]));
                } else {
                    assert(e0->Or_0 == *es);
                    assert(decreases_to!(e0 => e0->Or_0));
                    assert(decreases_to!(e0->Or_0 => e0->Or_0@));
                    assert(decreases_to!(e0->Or_0@ => e0->Or_0@[i as int]));
                }
                assert(bool_ok(*es@[i as int], self.nb(), self.ni()));
            }
            let ghost v1 = *self;
            let r1 = self.constant_prop_bool(&es[i], expected);
            proof {
                lemma_masks_small(*self);
                lemma_masks_small(v1);
                lemma_masks_small(v0);
                lemma_refine_trans(masks_of(self.bool_var@), masks_of(v1.bool_var@), masks_of(v0.bool_var@));
                assert forall|env: Env| v0.consistent(env) && eval_bool(e0, env) == expected implies self.consistent(env) by {
                    assert(v1.consistent(env));
                    if expected {
                        assert(eval_all(es@, env));
                        assert(eval_bool(*es@[i as int], env));
                    } else {
                        assert(!eval_any(es@, env));
                        assert(!eval_bool(*es@[i as int], env));
                    }
                }
                if ret == UpdateStatus::Updated || r1 == UpdateStatus::Updated {
                    lemma_refine_strict(masks_of(self.bool_var@), masks_of(v1.bool_var@), masks_of(v0.bool_var@), ret == UpdateStatus::Updated);
                }
                if r1 == UpdateStatus::Unsatisfiable {
                    assert forall|env: Env| v0.consistent(env) implies eval_bool(e0, env) != expected by {
                        if eval_bool(e0, env) == expected {
                            assert(v1.consistent(env));
                            if expected {
                                assert(eval_all(es@, env));
                                assert(eval_bool(*es@[i as int], env));
                            } else {
                                assert(!eval_any(es@, env));
                                assert(!eval_bool(*es@[i as int], env));
                            }
                        }
                    }
                }
            }
            let ghost ret0 = ret;
            ret = ret.or(r1);
            proof {
                if ret0 == UpdateStatus::NotUpdated {
                    assert(v1 == v0);
                    assert((r1 == UpdateStatus::NotUpdated) == v0.prop_stable(*es@[i as int], expected));
                } else {
                    assert(!(forall|k: int| 0 <= k < i ==> v0.prop_stable(*#[trigger] es@[k], expected)));
                }
                assert((ret == UpdateStatus::NotUpdated) == (forall|k: int| 0 <= k < i + 1 ==> v0.prop_stable(*#[trigger] es@[k], expected)));
                if exists|k: int| 0 <= k < i + 1 && *(#[trigger] es@[k]) == BoolExpr::Const(!expected) {
                    let k = choose|k: int| 0 <= k < i + 1 && *(#[trigger] es@[k]) == BoolExpr::Const(!expected);
                    if k == i {
                        assert(r1 == UpdateStatus::Unsatisfiable);
                    } else {
                        assert(ret0 == UpdateStatus::Unsatisfiable);
                    }
                }
            }
            i += 1;
        }
        ret
    }
}

pub proof fn lemma_refine_trans(a: Seq<u8>, b: Seq<u8>, c: Seq<u8>)
    requires
        masks_refine(a, b),
        masks_refine(b, c),
    ensures
        masks_refine(a, c),
{
    assert forall|i: int, x: bool| 0 <= i < a.len() && #[trigger] mask_allows(a[i], x) implies mask_allows(c[i], x) by {
        assert(mask_allows(b[i], x));
    }
}

/// A strict change that is followed by a refinement stays a change.
pub proof fn lemma_refine_strict(a: Seq<u8>, b: Seq<u8>, c: Seq<u8>, first: bool)
    requires
        masks_refine(a, b),
        masks_refine(b, c),
        forall|i: int| 0 <= i < a.len() ==> #[trigger] a[i] < 4,
        forall|i: int| 0 <= i < b.len() ==> #[trigger] b[i] < 4,
        forall|i: int| 0 <= i < c.len() ==> #[trigger] c[i] < 4,
        first ==> b != c,
        !first ==> a != b,
    ensures
        a != c,
{
    lemma_refine_trans(a, b, c);
    lemma_refine_weight(a, b);
    lemma_refine_weight(b, c);
}

} // verus!
