use vstd::prelude::*;

use crate::items::Arrow;

verus! {

/// An array of values of shape `S`: `()` for a single value, `(len,)` for a
/// row, `(height, width)` for a grid stored row by row.
#[derive(Debug)]
pub struct NdArray<S, T> {
    pub shape: S,
    pub data: Vec<T>,
}

/// A range of indices: from `start` (`0` where absent, inclusive) to `end`
/// (the length where absent, exclusive).
#[derive(Clone, Copy, Debug, PartialEq, Eq, Structural)]
pub struct IndexRange {
    pub start: Option<usize>,
    pub end: Option<usize>,
}

/// The first and one-past-last index of `r` over `len` indices; empty
/// ranges become `(0, 0)`.
pub open spec fn resolved(len: int, r: IndexRange) -> (int, int) {
    let s: int = match r.start {
        Some(x) => x as int,
        None => 0,
    };
    let e: int = match r.end {
        Some(x) => x as int,
        None => len,
    };
    if s >= e {
        (0, 0)
    } else {
        (s, e)
    }
}

/// `b[i]` is a clone of `a[i]` for every `i`.
pub open spec fn all_cloned<T: Clone>(a: Seq<T>, b: Seq<T>) -> bool {
    a.len() == b.len() && forall|i: int| 0 <= i < a.len() ==> cloned::<T>(a[i], #[trigger] b[i])
}

/// Resolves a range over `len` indices.
pub fn resolve_range(len: usize, range: IndexRange) -> (r: (usize, usize))
    ensures
        r.0 == resolved(len as int, range).0,
        r.1 == resolved(len as int, range).1,
{
    let start = match range.start {
        Some(x) => x,
        None => 0,
    };
    let end = match range.end {
        Some(x) => x,
        None => len,
    };
    if start >= end {
        (0, 0)
    } else {
        (start, end)
    }
}

/// Clones of `v[from .. to]`.
fn clone_range<T: Clone>(v: &Vec<T>, from: usize, to: usize) -> (r: Vec<T>)
    requires
        from <= to <= v@.len(),
    ensures
        all_cloned(v@.subrange(from as int, to as int), r@),
{
    let mut r: Vec<T> = Vec::new();
    let mut i = from;
    while i < to
        invariant
            from <= i <= to <= v@.len(),
            r@.len() == i - from,
            forall|k: int| 0 <= k < r@.len() ==> cloned::<T>(v@[from + k], #[trigger] r@[k]),
        decreases to - i,
    {
        r.push(v[i].clone());
        i += 1;
    }
    r
}

impl<T: Clone> NdArray<(usize,), T> {
    /// The shape matches the number of values.
    pub open spec fn wf(&self) -> bool {
        self.shape.0 == self.data@.len()
    }

    pub fn len(&self) -> (r: usize)
        ensures
            r == self.shape.0,
    {
        self.shape.0
    }

    /// The value at `idx`.
    pub fn at(&self, idx: usize) -> (r: NdArray<(), T>)
        requires
            idx < self.data@.len(),
        ensures
            r.data@.len() == 1,
            cloned::<T>(self.data@[idx as int], r.data@[0]),
    {
        let mut data: Vec<T> = Vec::new();
        data.push(self.data[idx].clone());
        NdArray { shape: (), data }
    }

    /// The values in reverse order.
    pub fn reverse(&self) -> (r: NdArray<(usize,), T>)
        ensures
            r.shape == self.shape,
            r.data@.len() == self.data@.len(),
            forall|i: int|
                0 <= i < r.data@.len() ==> cloned::<T>(self.data@[self.data@.len() - 1 - i], #[trigger] r.data@[i]),
    {
        let n = self.data.len();
        let mut data: Vec<T> = Vec::new();
        let mut i: usize = 0;
        while i < n
            invariant
                n == self.data@.len(),
                i <= n,
                data@.len() == i,
                forall|k: int| 0 <= k < i ==> cloned::<T>(self.data@[n - 1 - k], #[trigger] data@[k]),
            decreases n - i,
        {
            data.push(self.data[n - 1 - i].clone());
            i += 1;
        }
        NdArray { shape: self.shape, data }
    }

    /// The same values as a `height` x `width` grid.
    pub fn reshape_as_2d(&self, shape: (usize, usize)) -> (r: NdArray<(usize, usize), T>)
        requires
            shape.0 * shape.1 == self.data@.len(),
        ensures
            r.shape == shape,
            all_cloned(self.data@, r.data@),
    {
        let n = self.data.len();
        let data = clone_range(&self.data, 0, n);
        assert(self.data@.subrange(0, n as int) =~= self.data@);
        NdArray { shape, data }
    }

    /// The values at the indices of `range`.
    pub fn slice(&self, range: IndexRange) -> (r: NdArray<(usize,), T>)
        requires
            self.wf(),
            resolved(self.shape.0 as int, range).1 <= self.data@.len(),
        ensures
            r.wf(),
            all_cloned(
                self.data@.subrange(resolved(self.shape.0 as int, range).0, resolved(self.shape.0 as int, range).1),
                r.data@,
            ),
    {
        let (start, end) = resolve_range(self.len(), range);
        let data = clone_range(&self.data, start, end);
        NdArray { shape: (end - start,), data }
    }
}

/// The index of cell `(y, x)` in a grid of width `w`.
pub open spec fn cell_index(y: int, x: int, w: int) -> int {
    y * w + x
}

/// The cells next to `(y, x)` in a `h` x `w` grid: above, left, below, right.
pub open spec fn four_neighbors_spec(h: int, w: int, y: int, x: int) -> Seq<(usize, usize)> {
    (if y > 0 { seq![((y - 1) as usize, x as usize)] } else { seq![] })
        + (if x > 0 { seq![(y as usize, (x - 1) as usize)] } else { seq![] })
        + (if y < h - 1 { seq![((y + 1) as usize, x as usize)] } else { seq![] })
        + (if x < w - 1 { seq![(y as usize, (x + 1) as usize)] } else { seq![] })
}

/// `(a, b)` is one step up, down, left or right of `(y, x)`.
pub open spec fn adjacent(a: int, b: int, y: int, x: int) -> bool {
    (a == y && (b == x - 1 || b == x + 1)) || (b == x && (a == y - 1 || a == y + 1))
}

/// The four neighbours of a cell `(y, x)` of an `h` x `w` grid are exactly
/// the cells of the grid one step away from it, each listed once.
pub proof fn lemma_four_neighbors(h: usize, w: usize, y: usize, x: usize)
    requires
        y < h,
        x < w,
    ensures
        forall|a: usize, b: usize|
            #[trigger] four_neighbors_spec(h as int, w as int, y as int, x as int).contains((a, b))
                <==> (a < h && b < w && adjacent(a as int, b as int, y as int, x as int)),
        four_neighbors_spec(h as int, w as int, y as int, x as int).no_duplicates(),
{
    let s = four_neighbors_spec(h as int, w as int, y as int, x as int);
    let up: Seq<(usize, usize)> = if y > 0 { seq![((y - 1) as usize, x)] } else { seq![] };
    let left: Seq<(usize, usize)> = if x > 0 { seq![(y, (x - 1) as usize)] } else { seq![] };
    let down: Seq<(usize, usize)> = if y + 1 < h { seq![((y + 1) as usize, x)] } else { seq![] };
    let right: Seq<(usize, usize)> = if x + 1 < w { seq![(y, (x + 1) as usize)] } else { seq![] };
    assert(s =~= up + left + down + right);
    assert forall|a: usize, b: usize| #[trigger] s.contains((a, b))
        <==> (a < h && b < w && adjacent(a as int, b as int, y as int, x as int)) by {
        if s.contains((a, b)) {
            let k = choose|k: int| 0 <= k < s.len() && s[k] == (a, b);
            assert(a < h && b < w && adjacent(a as int, b as int, y as int, x as int));
        }
        if a < h && b < w && adjacent(a as int, b as int, y as int, x as int) {
            if a + 1 == y {
                assert(s[0] == (a, b));
            } else if b + 1 == x {
                assert(s[up.len() as int] == (a, b));
            } else if a == y + 1 {
                assert(s[(up.len() + left.len()) as int] == (a, b));
            } else {
                assert(s[(up.len() + left.len() + down.len()) as int] == (a, b));
            }
        }
    }
}

proof fn lemma_cell_index(y: int, x: int, h: int, w: int)
    requires
        0 <= y < h,
        0 <= x < w,
    ensures
        0 <= cell_index(y, x, w) < h * w,
{
    assert(0 <= y * w + x < h * w) by (nonlinear_arith)
        requires
            0 <= y < h,
            0 <= x < w,
    ;
}

impl<T> NdArray<(usize, usize), T> {
    /// The shape matches the number of values.
    pub open spec fn wf(&self) -> bool {
        self.shape.0 * self.shape.1 == self.data@.len()
    }

    pub fn shape(&self) -> (r: (usize, usize))
        ensures
            r == self.shape,
    {
        self.shape
    }

    fn at_raw(&self, idx: (usize, usize)) -> (r: &T)
        requires
            self.wf(),
            idx.0 < self.shape.0,
            idx.1 < self.shape.1,
        ensures
            *r == self.data@[cell_index(idx.0 as int, idx.1 as int, self.shape.1 as int)],
    {
        let (y, x) = idx;
        let (h, w) = self.shape;
        let n = self.data.len();
        proof {
            lemma_cell_index(y as int, x as int, h as int, w as int);
            assert(y * w <= y * w + x < n);
        }
        &self.data[y * w + x]
    }

    /// The cells next to `idx`: above, left, below and right, where they
    /// are on the grid.
    pub fn four_neighbor_indices(&self, idx: (usize, usize)) -> (r: Vec<(usize, usize)>)
        requires
            self.shape.0 > 0,
            self.shape.1 > 0,
        ensures
            r@ == four_neighbors_spec(self.shape.0 as int, self.shape.1 as int, idx.0 as int, idx.1 as int),
            idx.0 < self.shape.0 && idx.1 < self.shape.1 ==> {
                &&& forall|a: usize, b: usize| #[trigger] r@.contains((a, b))
                    <==> (a < self.shape.0 && b < self.shape.1 && adjacent(a as int, b as int, idx.0 as int, idx.1 as int))
                &&& r@.no_duplicates()
            },
    {
        proof {
            if idx.0 < self.shape.0 && idx.1 < self.shape.1 {
                lemma_four_neighbors(self.shape.0, self.shape.1, idx.0, idx.1);
            }
        }
        let (h, w) = self.shape();
        let (y, x) = idx;
        let mut ret: Vec<(usize, usize)> = Vec::new();
        if y > 0 {
            ret.push((y - 1, x));
        }
        if x > 0 {
            ret.push((y, x - 1));
        }
        if y < h - 1 {
            ret.push((y + 1, x));
        }
        if x < w - 1 {
            ret.push((y, x + 1));
        }
        assert(ret@ =~= four_neighbors_spec(h as int, w as int, y as int, x as int));
        ret
    }
}

/// The cells of `idx` all lie on a `h` x `w` grid.
pub open spec fn cells_in_grid(idx: Seq<(usize, usize)>, h: int, w: int) -> bool {
    forall|k: int| 0 <= k < idx.len() ==> (#[trigger] idx[k]).0 < h && idx[k].1 < w
}

impl<T: Clone> NdArray<(usize, usize), T> {
    /// The value at `idx`.
    pub fn at(&self, idx: (usize, usize)) -> (r: NdArray<(), T>)
        requires
            self.wf(),
            idx.0 < self.shape.0,
            idx.1 < self.shape.1,
        ensures
            r.data@.len() == 1,
            cloned::<T>(self.data@[cell_index(idx.0 as int, idx.1 as int, self.shape.1 as int)], r.data@[0]),
    {
        let mut data: Vec<T> = Vec::new();
        data.push(self.at_raw(idx).clone());
        NdArray { shape: (), data }
    }

    /// The value at `idx + offset`, or `default` where that cell is off the
    /// grid.
    pub fn at_offset(&self, idx: (usize, usize), offset: (i32, i32), default: NdArray<(), T>) -> (r: NdArray<(), T>)
        requires
            self.wf(),
            idx.0 < 0x4000_0000,
            idx.1 < 0x4000_0000,
            -0x4000_0000 < offset.0 < 0x4000_0000,
            -0x4000_0000 < offset.1 < 0x4000_0000,
        ensures
            ({
                let y = idx.0 + offset.0;
                let x = idx.1 + offset.1;
                if 0 <= y < self.shape.0 && 0 <= x < self.shape.1 {
                    r.data@.len() == 1 && cloned::<T>(self.data@[cell_index(y, x, self.shape.1 as int)], r.data@[0])
                } else {
                    r == default
                }
            }),
    {
        let (y, x) = idx;
        let (dy, dx) = offset;
        let y = y as i32 + dy;
        let x = x as i32 + dx;
        if 0 <= y && (y as usize) < self.shape.0 && 0 <= x && (x as usize) < self.shape.1 {
            self.at((y as usize, x as usize))
        } else {
            default
        }
    }

    /// The values at the cells of `idx`, in that order.
    pub fn select(&self, idx: &Vec<(usize, usize)>) -> (r: NdArray<(usize,), T>)
        requires
            self.wf(),
            cells_in_grid(idx@, self.shape.0 as int, self.shape.1 as int),
        ensures
            r.wf(),
            r.data@.len() == idx@.len(),
            forall|k: int|
                0 <= k < idx@.len() ==> cloned::<T>(
                    self.data@[cell_index(idx@[k].0 as int, idx@[k].1 as int, self.shape.1 as int)],
                    #[trigger] r.data@[k],
                ),
    {
        let mut data: Vec<T> = Vec::new();
        let mut k: usize = 0;
        while k < idx.len()
            invariant
                self.wf(),
                cells_in_grid(idx@, self.shape.0 as int, self.shape.1 as int),
                k <= idx@.len(),
                data@.len() == k,
                forall|j: int|
                    0 <= j < k ==> cloned::<T>(
                        self.data@[cell_index(idx@[j].0 as int, idx@[j].1 as int, self.shape.1 as int)],
                        #[trigger] data@[j],
                    ),
            decreases idx@.len() - k,
        {
            let p = idx[k];
            data.push(self.at_raw(p).clone());
            k += 1;
        }
        NdArray { shape: (data.len(),), data }
    }

    /// The values of row `y` at the columns of `xs`.
    pub fn slice_fixed_y(&self, idx: (usize, IndexRange)) -> (r: NdArray<(usize,), T>)
        requires
            self.wf(),
            resolved(self.shape.1 as int, idx.1).0 < resolved(self.shape.1 as int, idx.1).1 ==> idx.0 < self.shape.0
                && resolved(self.shape.1 as int, idx.1).1 <= self.shape.1,
        ensures
            r.wf(),
            r.data@.len() == resolved(self.shape.1 as int, idx.1).1 - resolved(self.shape.1 as int, idx.1).0,
            forall|k: int|
                0 <= k < r.data@.len() ==> cloned::<T>(
                    self.data@[cell_index(idx.0 as int, resolved(self.shape.1 as int, idx.1).0 + k, self.shape.1 as int)],
                    #[trigger] r.data@[k],
                ),
    {
        let (y, xs) = idx;
        let w = self.shape.1;
        let (x_start, x_end) = resolve_range(w, xs);
        let mut items: Vec<T> = Vec::new();
        let mut x = x_start;
        while x < x_end
            invariant
                self.wf(),
                w == self.shape.1,
                x_start <= x <= x_end,
                x_start < x_end ==> y < self.shape.0 && x_end <= w,
                items@.len() == x - x_start,
                forall|k: int|
                    0 <= k < items@.len() ==> cloned::<T>(
                        self.data@[cell_index(y as int, x_start + k, w as int)],
                        #[trigger] items@[k],
                    ),
            decreases x_end - x,
        {
            items.push(self.at_raw((y, x)).clone());
            x += 1;
        }
        NdArray { shape: (items.len(),), data: items }
    }

    /// The values of column `x` at the rows of `ys`.
    pub fn slice_fixed_x(&self, idx: (IndexRange, usize)) -> (r: NdArray<(usize,), T>)
        requires
            self.wf(),
            resolved(self.shape.0 as int, idx.0).0 < resolved(self.shape.0 as int, idx.0).1 ==> idx.1 < self.shape.1
                && resolved(self.shape.0 as int, idx.0).1 <= self.shape.0,
        ensures
            r.wf(),
            r.data@.len() == resolved(self.shape.0 as int, idx.0).1 - resolved(self.shape.0 as int, idx.0).0,
            forall|k: int|
                0 <= k < r.data@.len() ==> cloned::<T>(
                    self.data@[cell_index(resolved(self.shape.0 as int, idx.0).0 + k, idx.1 as int, self.shape.1 as int)],
                    #[trigger] r.data@[k],
                ),
    {
        let (ys, x) = idx;
        let h = self.shape.0;
        let (y_start, y_end) = resolve_range(h, ys);
        let mut items: Vec<T> = Vec::new();
        let mut y = y_start;
        while y < y_end
            invariant
                self.wf(),
                h == self.shape.0,
                y_start <= y <= y_end,
                y_start < y_end ==> x < self.shape.1 && y_end <= h,
                items@.len() == y - y_start,
                forall|k: int|
                    0 <= k < items@.len() ==> cloned::<T>(
                        self.data@[cell_index(y_start + k, x as int, self.shape.1 as int)],
                        #[trigger] items@[k],
                    ),
            decreases y_end - y,
        {
            items.push(self.at_raw((y, x)).clone());
            y += 1;
        }
        NdArray { shape: (items.len(),), data: items }
    }

    /// The sub-grid at the rows of `ys` and the columns of `xs`.
    pub fn slice(&self, idx: (IndexRange, IndexRange)) -> (r: NdArray<(usize, usize), T>)
        requires
            self.wf(),
            resolved(self.shape.0 as int, idx.0).1 <= self.shape.0,
            resolved(self.shape.1 as int, idx.1).1 <= self.shape.1,
        ensures
            r.wf(),
            r.shape.0 == resolved(self.shape.0 as int, idx.0).1 - resolved(self.shape.0 as int, idx.0).0,
            r.shape.1 == resolved(self.shape.1 as int, idx.1).1 - resolved(self.shape.1 as int, idx.1).0,
            forall|a: int, b: int|
                0 <= a < r.shape.0 && 0 <= b < r.shape.1 ==> cloned::<T>(
                    self.data@[cell_index(
                        resolved(self.shape.0 as int, idx.0).0 + a,
                        resolved(self.shape.1 as int, idx.1).0 + b,
                        self.shape.1 as int,
                    )],
                    #[trigger] r.data@[cell_index(a, b, r.shape.1 as int)],
                ),
    {
        let (ys, xs) = idx;
        let (h, w) = self.shape;
        let (y_start, y_end) = resolve_range(h, ys);
        let (x_start, x_end) = resolve_range(w, xs);
        let sh = y_end - y_start;
        let sw = x_end - x_start;
        let mut items: Vec<T> = Vec::new();
        let mut y = y_start;
        while y < y_end
            invariant
                self.wf(),
                h == self.shape.0,
                w == self.shape.1,
                y_start <= y <= y_end <= h,
                x_start <= x_end <= w,
                sw == x_end - x_start,
                items@.len() == (y - y_start) * sw,
                forall|a: int, b: int|
                    0 <= a < y - y_start && 0 <= b < sw ==> cloned::<T>(
                        self.data@[cell_index(y_start + a, x_start + b, w as int)],
                        #[trigger] items@[cell_index(a, b, sw as int)],
                    ),
            decreases y_end - y,
        {
            let mut x = x_start;
            let ghost base = items@.len();
            while x < x_end
                invariant
                    self.wf(),
                    h == self.shape.0,
                    w == self.shape.1,
                    y_start <= y < y_end <= h,
                    x_start <= x <= x_end <= w,
                    sw == x_end - x_start,
                    base == (y - y_start) * sw,
                    items@.len() == base + (x - x_start),
                    forall|a: int, b: int|
                        0 <= a < y - y_start && 0 <= b < sw ==> cloned::<T>(
                            self.data@[cell_index(y_start + a, x_start + b, w as int)],
                            #[trigger] items@[cell_index(a, b, sw as int)],
                        ),
                    forall|b: int|
                        0 <= b < x - x_start ==> cloned::<T>(
                            self.data@[cell_index(y as int, x_start + b, w as int)],
                            #[trigger] items@[base + b],
                        ),
                decreases x_end - x,
            {
                let ghost prev = items@;
                items.push(self.at_raw((y, x)).clone());
                proof {
                    assert forall|a: int, b: int|
                        0 <= a < y - y_start && 0 <= b < sw implies cloned::<T>(
                            self.data@[cell_index(y_start + a, x_start + b, w as int)],
                            #[trigger] items@[cell_index(a, b, sw as int)],
                        ) by {
                        lemma_cell_index(a, b, (y - y_start) as int, sw as int);
                        assert(items@[cell_index(a, b, sw as int)] == prev[cell_index(a, b, sw as int)]);
                    }
                }
                x += 1;
            }
            proof {
                assert forall|a: int, b: int|
                    0 <= a < y + 1 - y_start && 0 <= b < sw implies cloned::<T>(
                        self.data@[cell_index(y_start + a, x_start + b, w as int)],
                        #[trigger] items@[cell_index(a, b, sw as int)],
                    ) by {
                    if a == y - y_start {
                        assert(cell_index(a, b, sw as int) == base + b) by (nonlinear_arith)
                            requires
                                a == y - y_start,
                                base == (y - y_start) * sw,
                        ;
                    }
                }
                assert(items@.len() == (y + 1 - y_start) * sw) by (nonlinear_arith)
                    requires
                        items@.len() == base + sw,
                        base == (y - y_start) * sw,
                ;
            }
            y += 1;
        }
        NdArray { shape: (sh, sw), data: items }
    }

    /// The values as one row.
    pub fn flatten(&self) -> (r: NdArray<(usize,), T>)
        requires
            self.wf(),
        ensures
            r.wf(),
            all_cloned(self.data@, r.data@),
    {
        let n = self.data.len();
        let data = clone_range(&self.data, 0, n);
        assert(self.data@.subrange(0, n as int) =~= self.data@);
        NdArray { shape: (n,), data }
    }

    /// The same values as a grid of another shape with as many cells.
    pub fn reshape(&self, shape: (usize, usize)) -> (r: NdArray<(usize, usize), T>)
        requires
            shape.0 * shape.1 == self.data@.len(),
        ensures
            r.shape == shape,
            all_cloned(self.data@, r.data@),
    {
        let n = self.data.len();
        let data = clone_range(&self.data, 0, n);
        assert(self.data@.subrange(0, n as int) =~= self.data@);
        NdArray { shape, data }
    }

    /// The values of the cells next to `idx`.
    pub fn four_neighbors(&self, idx: (usize, usize)) -> (r: NdArray<(usize,), T>)
        requires
            self.wf(),
            self.shape.0 > 0,
            self.shape.1 > 0,
            idx.0 < self.shape.0,
            idx.1 < self.shape.1,
        ensures
            r.wf(),
            r.data@.len() == four_neighbors_spec(self.shape.0 as int, self.shape.1 as int, idx.0 as int, idx.1 as int).len(),
    {
        let n = self.four_neighbor_indices(idx);
        self.select(&n)
    }

    /// The `k`-th cell that an arrow at `cell` points to, counted from the
    /// top (upward and downward arrows) or the left (leftward and rightward).
    pub open spec fn pointed_cell(cell: (usize, usize), arrow: Arrow, k: int) -> (int, int) {
        match arrow {
            Arrow::Up => (k, cell.1 as int),
            Arrow::Down => (cell.0 + 1 + k, cell.1 as int),
            Arrow::Left => (cell.0 as int, k),
            Arrow::Right => (cell.0 as int, cell.1 + 1 + k),
            Arrow::Unspecified => (cell.0 as int, cell.1 as int),
        }
    }

    /// The values of the cells that an arrow at `cell` points to, in order
    /// of their row (vertical arrows) or column (horizontal arrows); `None`
    /// for an unspecified arrow.
    pub fn pointing_cells(&self, cell: (usize, usize), arrow: Arrow) -> (r: Option<NdArray<(usize,), T>>)
        requires
            self.wf(),
            cell.0 < self.shape.0,
            cell.1 < self.shape.1,
        ensures
            (arrow == Arrow::Unspecified) <==> r is None,
            r matches Some(a) ==> a.wf() && a.data@.len() == match arrow {
                Arrow::Up => cell.0 as int,
                Arrow::Down => self.shape.0 - cell.0 - 1,
                Arrow::Left => cell.1 as int,
                Arrow::Right => self.shape.1 - cell.1 - 1,
                Arrow::Unspecified => 0,
            },
            r matches Some(a) ==> forall|k: int| 0 <= k < a.data@.len() ==> cloned::<T>(
                self.data@[cell_index(
                    Self::pointed_cell(cell, arrow, k).0,
                    Self::pointed_cell(cell, arrow, k).1,
                    self.shape.1 as int,
                )],
                #[trigger] a.data@[k],
            ),
    {
        let (y, x) = cell;
        match arrow {
            Arrow::Unspecified => None,
            Arrow::Up => Some(self.slice_fixed_x((IndexRange { start: None, end: Some(y) }, x))),
            Arrow::Down => Some(self.slice_fixed_x((IndexRange { start: Some(y + 1), end: None }, x))),
            Arrow::Left => Some(self.slice_fixed_y((y, IndexRange { start: None, end: Some(x) }))),
            Arrow::Right => Some(self.slice_fixed_y((y, IndexRange { start: Some(x + 1), end: None }))),
        }
    }
}

} // verus!
