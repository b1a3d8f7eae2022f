//! Constraints that take part in the SAT search themselves, as propagators.

use vstd::prelude::*;
use crate::sat::Lit;

pub mod graph_division;
pub mod order_encoding_linear;

verus! {

/// What a propagator may ask of the solver that runs it: the current value of
/// a literal, to be told when a literal becomes true, and to assert a literal.
pub trait SolverManipulator {
    /// The current value of `lit`, if it is assigned.
    fn value(&self, lit: Lit) -> Option<bool>;

    /// Asks to be notified when `lit` becomes true.
    fn add_watch(&mut self, lit: Lit);

    /// Asserts `lit`; `false` when it conflicts with the current assignment.
    fn enqueue(&mut self, lit: Lit) -> bool;

    /// Whether `lit` was assigned at the current decision level.
    fn is_current_level(&self, lit: Lit) -> bool;
}

/// A constraint that takes part in the search by watching literals, checking
/// the assignment when one of them becomes true, asserting literals it can
/// deduce, and explaining each of its deductions and conflicts by a set of
/// literals that are true.
///
/// `inv` is the propagator's own well-formedness; `watches(p)` holds of the
/// literals it is told about; `can_explain(p, extra)` holds of the questions it
/// can answer, those about its own last deductions.
pub trait CustomPropagator<T: SolverManipulator> {
    spec fn inv(&self) -> bool;

    spec fn watches(&self, p: Lit) -> bool;

    spec fn can_explain(&self, p: Option<Lit>, extra: Option<Lit>) -> bool;

    /// Registers the watched literals and takes in those already true;
    /// `false` on a conflict.
    fn initialize(&mut self, solver: &mut T) -> (r: bool)
        requires
            old(self).inv(),
        ensures
            final(self).inv(),
    ;

    /// Takes in that `p` became true, asserting what follows; `false` on a
    /// conflict.
    fn propagate(&mut self, solver: &mut T, p: Lit, num_pending_propagations: i32) -> (r: bool)
        requires
            old(self).inv(),
            old(self).watches(p),
        ensures
            final(self).inv(),
    ;

    /// The literals that explain the last conflict (`p` and `extra` both
    /// `None`), a deduced literal `p`, or a deduction refused by `extra`.
    fn calc_reason(&mut self, solver: &mut T, p: Option<Lit>, extra: Option<Lit>) -> (r: Vec<Lit>)
        requires
            old(self).inv(),
            old(self).can_explain(p, extra),
        ensures
            final(self).inv(),
    ;

    /// Takes back the assignment of the last literal taken in.
    fn undo(&mut self, solver: &mut T, p: Lit)
        requires
            old(self).inv(),
        ensures
            final(self).inv(),
    ;
}

} // verus!
