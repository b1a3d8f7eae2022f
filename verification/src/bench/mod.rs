//! Data of the benchmark tasks: puzzles with the facts that their solver is
//! expected to derive.

pub mod yajilin;

use vstd::prelude::*;

use crate::graph::{copy_grid, grid_view};
use crate::graph::BoolGridEdgesIrrefutableFacts as GridEdgesFacts;
use crate::graph::BoolInnerGridEdgesIrrefutableFacts as InnerGridEdgesFacts;
pub use self::yajilin::{YajilinDirection, YajilinIrrefutableFacts, YajilinTask};

verus! {

/// Expected facts on the edges of a grid, as stored in a benchmark file.
pub struct BoolGridEdgesIrrefutableFacts {
    pub horizontal: Vec<Vec<Option<bool>>>,
    pub vertical: Vec<Vec<Option<bool>>>,
}

impl BoolGridEdgesIrrefutableFacts {
    /// The same facts as the solver library represents them.
    pub fn to_cspuz_rs(&self) -> (r: GridEdgesFacts)
        ensures
            grid_view(&r.horizontal) == grid_view(&self.horizontal),
            grid_view(&r.vertical) == grid_view(&self.vertical),
    {
        GridEdgesFacts { horizontal: copy_grid(&self.horizontal), vertical: copy_grid(&self.vertical) }
    }

    /// The facts that the solver library derived, in the benchmark's form.
    pub fn from_cspuz_rs(facts: &GridEdgesFacts) -> (r: Self)
        ensures
            grid_view(&r.horizontal) == grid_view(&facts.horizontal),
            grid_view(&r.vertical) == grid_view(&facts.vertical),
    {
        BoolGridEdgesIrrefutableFacts {
            horizontal: copy_grid(&facts.horizontal),
            vertical: copy_grid(&facts.vertical),
        }
    }
}

/// Expected facts on the borders between the cells of a grid.
pub struct BoolInnerGridEdgesIrrefutableFacts {
    pub horizontal: Vec<Vec<Option<bool>>>,
    pub vertical: Vec<Vec<Option<bool>>>,
}

impl BoolInnerGridEdgesIrrefutableFacts {
    /// The same facts as the solver library represents them.
    pub fn to_cspuz_rs(&self) -> (r: InnerGridEdgesFacts)
        ensures
            grid_view(&r.horizontal) == grid_view(&self.horizontal),
            grid_view(&r.vertical) == grid_view(&self.vertical),
    {
        InnerGridEdgesFacts { horizontal: copy_grid(&self.horizontal), vertical: copy_grid(&self.vertical) }
    }

    /// The facts that the solver library derived, in the benchmark's form.
    pub fn from_cspuz_rs(facts: &InnerGridEdgesFacts) -> (r: Self)
        ensures
            grid_view(&r.horizontal) == grid_view(&facts.horizontal),
            grid_view(&r.vertical) == grid_view(&facts.vertical),
    {
        BoolInnerGridEdgesIrrefutableFacts {
            horizontal: copy_grid(&facts.horizontal),
            vertical: copy_grid(&facts.vertical),
        }
    }
}

/// Why a benchmark run failed.
#[derive(Clone, Copy, Debug, PartialEq, Eq, Structural)]
pub enum BenchmarkError {
    /// The solver derived other facts than the task expects.
    AnswerMismatch,
}

/// A Double Choco puzzle: the color of each cell and the optional numbers.
pub struct DoubleChocoTask {
    pub color: Vec<Vec<i32>>,
    pub num: Vec<Vec<Option<i32>>>,
    pub expectation: Option<BoolInnerGridEdgesIrrefutableFacts>,
}

/// A Nurikabe puzzle: the optional number of each cell.
pub struct NurikabeTask {
    pub clues: Vec<Vec<Option<i32>>>,
    pub expectation: Option<Vec<Vec<Option<bool>>>>,
}

/// A Slitherlink puzzle: the optional number of each cell.
pub struct SlitherlinkTask {
    pub problem: Vec<Vec<Option<i32>>>,
    pub expectation: Option<BoolGridEdgesIrrefutableFacts>,
}

/// One benchmark task.
pub enum Task {
    DoubleChoco(DoubleChocoTask),
    Slitherlink(SlitherlinkTask),
    Yajilin(YajilinTask),
}

/// Whether two grids of optional booleans are equal.
pub fn grids_equal(a: &Vec<Vec<Option<bool>>>, b: &Vec<Vec<Option<bool>>>) -> (r: bool)
    ensures
        r <==> grid_view(a) == grid_view(b),
{
    if a.len() != b.len() {
        proof {
            assert(grid_view(a).len() != grid_view(b).len());
        }
        return false;
    }
    let mut i: usize = 0;
    while i < a.len()
        invariant
            a@.len() == b@.len(),
            i <= a@.len(),
            forall|k: int| 0 <= k < i ==> (#[trigger] a@[k])@ == b@[k]@,
        decreases a@.len() - i,
    {
        let ra = &a[i];
        let rb = &b[i];
        if ra.len() != rb.len() {
            proof {
                assert(grid_view(a)[i as int] == ra@);
                assert(grid_view(b)[i as int] == rb@);
            }
            return false;
        }
        let mut j: usize = 0;
        while j < ra.len()
            invariant
                ra@.len() == rb@.len(),
                i < a@.len(),
                a@.len() == b@.len(),
                *ra == a@[i as int],
                *rb == b@[i as int],
                j <= ra@.len(),
                forall|t: int| 0 <= t < j ==> ra@[t] == rb@[t],
            decreases ra@.len() - j,
        {
            let same = match (ra[j], rb[j]) {
                (Some(p), Some(q)) => p == q,
                (None, None) => true,
                _ => false,
            };
            if !same {
                proof {
                    assert(grid_view(a)[i as int] == ra@);
                    assert(grid_view(b)[i as int] == rb@);
                    assert(ra@[j as int] != rb@[j as int]);
                }
                return false;
            }
            j += 1;
        }
        assert(ra@ =~= rb@);
        i += 1;
    }
    assert(grid_view(a) =~= grid_view(b));
    true
}

/// The verdict of a benchmark run: the facts that the solver derived must
/// be those that the task expects (both absent when the puzzle has no
/// solution).
pub fn check_grid_answer(
    answer: &Option<Vec<Vec<Option<bool>>>>,
    expectation: &Option<Vec<Vec<Option<bool>>>>,
) -> (r: Result<(), BenchmarkError>)
    ensures
        r is Ok <==> match (answer, expectation) {
            (Some(a), Some(e)) => grid_view(a) == grid_view(e),
            (None, None) => true,
            _ => false,
        },
{
    match (answer, expectation) {
        (Some(a), Some(e)) => {
            if grids_equal(a, e) {
                Ok(())
            } else {
                Err(BenchmarkError::AnswerMismatch)
            }
        },
        (None, None) => Ok(()),
        _ => Err(BenchmarkError::AnswerMismatch),
    }
}

} // verus!
