use vstd::prelude::*;

verus! {

/// Comparison operators of linear literals and CSP comparisons.
#[derive(Clone, Copy, Debug, PartialEq, Eq, Structural)]
pub enum CmpOp {
    Eq,
    Ne,
    Le,
    Lt,
    Ge,
    Gt,
}

pub open spec fn op_holds(op: CmpOp, lhs: int, rhs: int) -> bool {
    match op {
        CmpOp::Eq => lhs == rhs,
        CmpOp::Ne => lhs != rhs,
        CmpOp::Le => lhs <= rhs,
        CmpOp::Lt => lhs < rhs,
        CmpOp::Ge => lhs >= rhs,
        CmpOp::Gt => lhs > rhs,
    }
}

impl CmpOp {
    pub fn compare(self, lhs: i32, rhs: i32) -> (r: bool)
        ensures
            r == op_holds(self, lhs as int, rhs as int),
    {
        match self {
            CmpOp::Eq => lhs == rhs,
            CmpOp::Ne => lhs != rhs,
            CmpOp::Le => lhs <= rhs,
            CmpOp::Lt => lhs < rhs,
            CmpOp::Ge => lhs >= rhs,
            CmpOp::Gt => lhs > rhs,
        }
    }
}

impl CmpOp {
    /// The operator that holds exactly where this one does not.
    pub fn negate(self) -> (r: CmpOp)
        ensures
            forall|a: int, b: int| #[trigger] op_holds(r, a, b) == !op_holds(self, a, b),
    {
        match self {
            CmpOp::Eq => CmpOp::Ne,
            CmpOp::Ne => CmpOp::Eq,
            CmpOp::Le => CmpOp::Gt,
            CmpOp::Lt => CmpOp::Ge,
            CmpOp::Ge => CmpOp::Lt,
            CmpOp::Gt => CmpOp::Le,
        }
    }

    /// Compares two wide integers.
    pub fn compare_wide(self, lhs: i64, rhs: i64) -> (r: bool)
        ensures
            r == op_holds(self, lhs as int, rhs as int),
    {
        match self {
            CmpOp::Eq => lhs == rhs,
            CmpOp::Ne => lhs != rhs,
            CmpOp::Le => lhs <= rhs,
            CmpOp::Lt => lhs < rhs,
            CmpOp::Ge => lhs >= rhs,
            CmpOp::Gt => lhs > rhs,
        }
    }
}

/// A closed interval of integers; it is empty when `low > high`.
#[derive(Clone, Copy, Debug, PartialEq, Eq, Structural)]
pub struct Range {
    pub low: i32,
    pub high: i32,
}

impl Range {
    pub open spec fn contains(self, x: int) -> bool {
        self.low <= x <= self.high
    }

    pub fn new(low: i32, high: i32) -> (r: Range)
        ensures
            r.low == low,
            r.high == high,
    {
        Range { low, high }
    }

    /// The empty range, `1..=0`.
    pub fn empty() -> (r: Range)
        ensures
            r.low == 1 && r.high == 0,
            r.low > r.high,
            forall|x: int| !r.contains(x),
    {
        Range { low: 1, high: 0 }
    }

    pub fn constant(c: i32) -> (r: Range)
        ensures
            r.low == c,
            r.high == c,
    {
        Range { low: c, high: c }
    }

    pub fn is_empty(&self) -> (r: bool)
        ensures
            r == (self.low > self.high),
    {
        self.low > self.high
    }
}

} // verus!
