use vstd::prelude::*;

verus! {

/// Containers that know how many elements they hold.
pub trait HasLength {
    spec fn spec_len(&self) -> nat;

    fn len(&self) -> (r: usize)
        ensures
            r == self.spec_len(),
    ;
}

impl<T> HasLength for Vec<T> {
    open spec fn spec_len(&self) -> nat {
        self@.len()
    }

    fn len(&self) -> (r: usize) {
        Vec::<T>::len(self)
    }
}

/// A container of exactly one element.
pub struct Item<T>(pub T);

impl<T> HasLength for Item<T> {
    open spec fn spec_len(&self) -> nat {
        1
    }

    fn len(&self) -> (r: usize) {
        1
    }
}

impl<T> Item<T> {
    /// The element, which is at index 0.
    pub fn at(&self, index: usize) -> (r: &T)
        requires
            index == 0,
        ensures
            *r == self.0,
    {
        &self.0
    }
}

/// Shapes of arrays: a scalar `()`, a row `(n,)` or a grid `(h, w)`.
/// A shape turns the flat list of its elements, in row-major order, into
/// the value of that shape.
pub trait ArrayShape<T> {
    type Output;

    /// Number of elements an array of this shape holds.
    spec fn size(&self) -> nat;

    /// `out` is `data` arranged in this shape.
    spec fn arranges(&self, data: Seq<T>, out: Self::Output) -> bool;

    fn instantiate(&self, data: Vec<T>) -> (r: Self::Output)
        requires
            data@.len() == self.size(),
        ensures
            self.arranges(data@, r),
    ;
}

impl<T> ArrayShape<T> for () {
    type Output = T;

    open spec fn size(&self) -> nat {
        1
    }

    open spec fn arranges(&self, data: Seq<T>, out: T) -> bool {
        out == data[0]
    }

    fn instantiate(&self, data: Vec<T>) -> (r: T) {
        let mut data = data;
        data.remove(0)
    }
}

impl<T> ArrayShape<T> for (usize,) {
    type Output = Vec<T>;

    open spec fn size(&self) -> nat {
        self.0 as nat
    }

    open spec fn arranges(&self, data: Seq<T>, out: Vec<T>) -> bool {
        out@ == data
    }

    fn instantiate(&self, data: Vec<T>) -> (r: Vec<T>) {
        data
    }
}

impl<T> ArrayShape<T> for (usize, usize) {
    type Output = Vec<Vec<T>>;

    open spec fn size(&self) -> nat {
        (self.0 * self.1) as nat
    }

    open spec fn arranges(&self, data: Seq<T>, out: Vec<Vec<T>>) -> bool {
        &&& out@.len() == self.0
        &&& forall|i: int|
            0 <= i < self.0 ==> (#[trigger] out@[i])@ == data.subrange(i * self.1, (i + 1) * self.1)
    }

    fn instantiate(&self, data: Vec<T>) -> (r: Vec<Vec<T>>) {
        let h = self.0;
        let w = self.1;
        let ghost all = data@;
        let mut rest = data;
        let mut out: Vec<Vec<T>> = Vec::new();
        let mut i: usize = 0;
        while i < h
            invariant
                h == self.0,
                w == self.1,
                all.len() == h * w,
                i <= h,
                out@.len() == i,
                rest@ == all.subrange(i * w, h * w),
                forall|k: int| 0 <= k < i ==> (#[trigger] out@[k])@ == all.subrange(k * w, (k + 1) * w),
            decreases h - i,
        {
            proof {
                assert((i + 1) * w <= h * w) by (nonlinear_arith)
                    requires
                        i < h,
                ;
                assert(i * w + w == (i + 1) * w) by (nonlinear_arith);
            }
            let mut row: Vec<T> = Vec::new();
            let mut j: usize = 0;
            while j < w
                invariant
                    h == self.0,
                    w == self.1,
                    all.len() == h * w,
                    i < h,
                    (i + 1) * w <= h * w,
                    i * w + w == (i + 1) * w,
                    j <= w,
                    row@ == all.subrange(i * w, i * w + j),
                    rest@ == all.subrange(i * w + j, h * w),
                decreases w - j,
            {
                let x = rest.remove(0);
                row.push(x);
                proof {
                    assert(row@ =~= all.subrange(i * w, i * w + j + 1));
                    assert(rest@ =~= all.subrange(i * w + j + 1, h * w));
                }
                j += 1;
            }
            out.push(row);
            proof {
                assert(out@[i as int]@ == all.subrange(i * w, (i + 1) * w));
            }
            i += 1;
        }
        out
    }
}

/// Shapes that combine elementwise with shapes of type `T`; a scalar
/// combines with any shape, two arrays only when their shapes are equal.
pub trait BroadcastShape<T> {
    type Output;

    spec fn broadcastable(&self, other: &T) -> bool;

    spec fn broadcast_spec(&self, other: &T) -> Self::Output;

    fn broadcast_with(&self, other: &T) -> (r: Self::Output)
        requires
            self.broadcastable(other),
        ensures
            r == self.broadcast_spec(other),
    ;
}

impl BroadcastShape<()> for () {
    type Output = ();

    open spec fn broadcastable(&self, other: &()) -> bool {
        true
    }

    open spec fn broadcast_spec(&self, other: &()) -> () {
        ()
    }

    fn broadcast_with(&self, other: &()) -> (r: ()) {
        ()
    }
}

impl BroadcastShape<(usize,)> for (usize,) {
    type Output = (usize,);

    open spec fn broadcastable(&self, other: &(usize,)) -> bool {
        self.0 == other.0
    }

    open spec fn broadcast_spec(&self, other: &(usize,)) -> (usize,) {
        *self
    }

    fn broadcast_with(&self, other: &(usize,)) -> (r: (usize,)) {
        (self.0,)
    }
}

impl BroadcastShape<(usize, usize)> for (usize, usize) {
    type Output = (usize, usize);

    open spec fn broadcastable(&self, other: &(usize, usize)) -> bool {
        self.0 == other.0 && self.1 == other.1
    }

    open spec fn broadcast_spec(&self, other: &(usize, usize)) -> (usize, usize) {
        *self
    }

    fn broadcast_with(&self, other: &(usize, usize)) -> (r: (usize, usize)) {
        (self.0, self.1)
    }
}

impl BroadcastShape<(usize,)> for () {
    type Output = (usize,);

    open spec fn broadcastable(&self, other: &(usize,)) -> bool {
        true
    }

    open spec fn broadcast_spec(&self, other: &(usize,)) -> (usize,) {
        *other
    }

    fn broadcast_with(&self, other: &(usize,)) -> (r: (usize,)) {
        (other.0,)
    }
}

impl BroadcastShape<(usize, usize)> for () {
    type Output = (usize, usize);

    open spec fn broadcastable(&self, other: &(usize, usize)) -> bool {
        true
    }

    open spec fn broadcast_spec(&self, other: &(usize, usize)) -> (usize, usize) {
        *other
    }

    fn broadcast_with(&self, other: &(usize, usize)) -> (r: (usize, usize)) {
        (other.0, other.1)
    }
}

impl BroadcastShape<()> for (usize,) {
    type Output = (usize,);

    open spec fn broadcastable(&self, other: &()) -> bool {
        true
    }

    open spec fn broadcast_spec(&self, other: &()) -> (usize,) {
        *self
    }

    fn broadcast_with(&self, other: &()) -> (r: (usize,)) {
        (self.0,)
    }
}

impl BroadcastShape<()> for (usize, usize) {
    type Output = (usize, usize);

    open spec fn broadcastable(&self, other: &()) -> bool {
        true
    }

    open spec fn broadcast_spec(&self, other: &()) -> (usize, usize) {
        *self
    }

    fn broadcast_with(&self, other: &()) -> (r: (usize, usize)) {
        (self.0, self.1)
    }
}

/// Length of the result of an elementwise operation on arrays of lengths
/// `a` and `b`: a single element is repeated to the other length.
pub fn propagated_len(a: usize, b: usize) -> (r: usize)
    ensures
        r == (if a == 1 { b } else { a }),
{
    if a == 1 {
        b
    } else {
        a
    }
}

} // verus!
