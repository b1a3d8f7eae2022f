use vstd::prelude::*;

verus! {

/// Facts that hold in every solution of a puzzle whose answer is a set of
/// edges on a grid of vertices: `horizontal[y][x]` is the edge between
/// vertices `(y, x)` and `(y, x + 1)`, `vertical[y][x]` the one between
/// `(y, x)` and `(y + 1, x)`; `None` where solutions disagree.
pub struct BoolGridEdgesIrrefutableFacts {
    pub horizontal: Vec<Vec<Option<bool>>>,
    pub vertical: Vec<Vec<Option<bool>>>,
}

/// The same for the edges between the cells of a grid (the borders of
/// regions): `horizontal[y][x]` separates cells `(y, x)` and `(y + 1, x)`,
/// `vertical[y][x]` separates `(y, x)` and `(y, x + 1)`.
pub struct BoolInnerGridEdgesIrrefutableFacts {
    pub horizontal: Vec<Vec<Option<bool>>>,
    pub vertical: Vec<Vec<Option<bool>>>,
}

/// The contents of a grid of optional booleans, row by row.
pub open spec fn grid_view(g: &Vec<Vec<Option<bool>>>) -> Seq<Seq<Option<bool>>> {
    Seq::new(g@.len(), |i: int| g@[i]@)
}

/// A copy of a grid of optional booleans.
pub fn copy_grid(g: &Vec<Vec<Option<bool>>>) -> (r: Vec<Vec<Option<bool>>>)
    ensures
        grid_view(&r) == grid_view(g),
{
    let mut r: Vec<Vec<Option<bool>>> = Vec::new();
    let mut i: usize = 0;
    while i < g.len()
        invariant
            i <= g@.len(),
            r@.len() == i,
            forall|k: int| 0 <= k < i ==> (#[trigger] r@[k])@ == g@[k]@,
        decreases g@.len() - i,
    {
        let row = &g[i];
        let mut nr: Vec<Option<bool>> = Vec::new();
        let mut j: usize = 0;
        while j < row.len()
            invariant
                j <= row@.len(),
                nr@ == row@.subrange(0, j as int),
            decreases row@.len() - j,
        {
            nr.push(row[j]);
            j += 1;
            assert(nr@ == row@.subrange(0, j as int));
        }
        assert(nr@ == row@);
        r.push(nr);
        i += 1;
    }
    assert(grid_view(&r) =~= grid_view(g));
    r
}

} // verus!
