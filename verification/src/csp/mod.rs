pub mod folding;
pub mod problem;
pub mod propagation;
pub mod repr;
pub mod stmt;
pub mod test_utils;

use vstd::prelude::*;

use crate::arithmetic::CmpOp;
use crate::domain::Domain;
use crate::util::{status_join, UpdateStatus};

pub use problem::{exprs_hold, stmt_expr_holds, stmts_equiv, Assignment, IntVarStatus, CSP};
pub use repr::{
    all_bool_ok, bool_ok, eval_all, eval_any, eval_bool, eval_int, eval_linear, int_ok, terms_ok,
    BoolExpr, BoolVar, Env, IntExpr, IntVar,
};

verus! {

/// The state of a Boolean variable after propagation.
#[derive(Clone, Copy, Debug, PartialEq, Eq, Structural)]
pub enum BoolVarStatus {
    Infeasible,
    Fixed(bool),
    Unfixed,
}

/// Which values a Boolean variable may still take: bit 0 for `false`,
/// bit 1 for `true`.
pub struct BoolVarData {
    pub possibility_mask: u8,
}

/// Whether `mask` still allows the value `b`.
pub open spec fn mask_allows(mask: u8, b: bool) -> bool {
    if b {
        mask == 2 || mask == 3
    } else {
        mask == 1 || mask == 3
    }
}

impl BoolVarData {
    pub open spec fn wf(&self) -> bool {
        self.possibility_mask < 4
    }

    pub fn new() -> (r: BoolVarData)
        ensures
            r.wf(),
            r.possibility_mask == 3,
    {
        BoolVarData { possibility_mask: 3 }
    }

    pub fn get_status(&self) -> (r: BoolVarStatus)
        requires
            self.wf(),
        ensures
            r == (if self.possibility_mask == 0 {
                BoolVarStatus::Infeasible
            } else if self.possibility_mask == 1 {
                BoolVarStatus::Fixed(false)
            } else if self.possibility_mask == 2 {
                BoolVarStatus::Fixed(true)
            } else {
                BoolVarStatus::Unfixed
            }),
    {
        match self.possibility_mask {
            0 => BoolVarStatus::Infeasible,
            1 => BoolVarStatus::Fixed(false),
            2 => BoolVarStatus::Fixed(true),
            _ => BoolVarStatus::Unfixed,
        }
    }

    pub fn is_feasible(&self, b: bool) -> (r: bool)
        requires
            self.wf(),
        ensures
            r == mask_allows(self.possibility_mask, b),
    {
        let m = self.possibility_mask;
        let bit: u8 = if b { 2 } else { 1 };
        proof {
            assert(m < 4 ==> ((m & 2u8) != 0 <==> (m == 2 || m == 3))) by (bit_vector);
            assert(m < 4 ==> ((m & 1u8) != 0 <==> (m == 1 || m == 3))) by (bit_vector);
        }
        (m & bit) != 0
    }

    pub fn is_unsatisfiable(&self) -> (r: bool)
        ensures
            r == (self.possibility_mask == 0),
    {
        self.possibility_mask == 0
    }

    /// Removes `b` from the possible values.
    pub fn set_infeasible(&mut self, b: bool) -> (r: UpdateStatus)
        requires
            old(self).wf(),
        ensures
            final(self).wf(),
            mask_allows(final(self).possibility_mask, !b) == mask_allows(old(self).possibility_mask, !b),
            !mask_allows(final(self).possibility_mask, b),
            r == (if !mask_allows(old(self).possibility_mask, b) {
                UpdateStatus::NotUpdated
            } else if final(self).possibility_mask == 0 {
                UpdateStatus::Unsatisfiable
            } else {
                UpdateStatus::Updated
            }),
            !mask_allows(old(self).possibility_mask, b) ==> final(self).possibility_mask
                == old(self).possibility_mask,
    {
        let res = self.is_feasible(b);
        let m = self.possibility_mask;
        let keep: u8 = if b { 1 } else { 2 };
        proof {
            assert(m < 4 ==> (m & 1u8) < 4 && (m & 2u8) < 4) by (bit_vector);
            assert(m < 4 ==> ((m & 1u8) == (if m == 1 || m == 3 { 1u8 } else { 0u8 }))) by (bit_vector);
            assert(m < 4 ==> ((m & 2u8) == (if m == 2 || m == 3 { 2u8 } else { 0u8 }))) by (bit_vector);
        }
        self.possibility_mask = m & keep;
        if res {
            if self.is_unsatisfiable() {
                UpdateStatus::Unsatisfiable
            } else {
                UpdateStatus::Updated
            }
        } else {
            UpdateStatus::NotUpdated
        }
    }
}

/// The domain of an integer variable.
pub struct IntVarData {
    pub domain: Domain,
}

impl IntVarData {
    pub fn new(domain: Domain) -> (r: IntVarData)
        ensures
            r.domain == domain,
    {
        IntVarData { domain }
    }
}

/// Options of a graph-division constraint.
#[derive(Clone, Copy, Debug, PartialEq, Eq, Structural)]
pub struct GraphDivisionOptions {
    pub require_extra_constraints: bool,
}

impl GraphDivisionOptions {
    pub fn default() -> (r: GraphDivisionOptions)
        ensures
            !r.require_extra_constraints,
    {
        GraphDivisionOptions { require_extra_constraints: false }
    }

    pub fn require_extra_constraints(&self) -> (r: bool)
        ensures
            r == self.require_extra_constraints,
    {
        self.require_extra_constraints
    }
}

/// A constraint of a CSP.
#[derive(Debug, PartialEq, Eq)]
pub enum Stmt {
    Expr(BoolExpr),
    AllDifferent(Vec<IntExpr>),
    ActiveVerticesConnected(Vec<BoolExpr>, Vec<(usize, usize)>),
    Circuit(Vec<IntExpr>),
    ExtensionSupports(Vec<IntExpr>, Vec<Vec<Option<i32>>>),
    GraphDivision(Vec<Option<IntExpr>>, Vec<(usize, usize)>, Vec<BoolExpr>, GraphDivisionOptions),
}

/// The variables of a CSP together with what is known of their values.
pub struct CSPVars {
    pub bool_var: Vec<BoolVarData>,
    pub int_var: Vec<IntVarData>,
}

} // verus!
