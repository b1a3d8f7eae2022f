use vstd::prelude::*;

verus! {

/// `x` occurs in `s`.
pub open spec fn seq_has(s: Seq<i32>, x: int) -> bool {
    exists|i: int| 0 <= i < s.len() && s[i] == x
}

/// Strictly increasing sequence of values.
pub open spec fn strictly_sorted(s: Seq<i32>) -> bool {
    forall|i: int, j: int| 0 <= i < j < s.len() ==> s[i] < s[j]
}

/// The set of values an integer variable may take.
#[derive(Clone, Debug, PartialEq, Eq)]
pub enum Domain {
    /// All integers from the first bound to the second, inclusive.
    Range(i32, i32),
    /// The listed values, in strictly increasing order.
    Enumerative(Vec<i32>),
}

impl Domain {
    pub open spec fn wf(&self) -> bool {
        match self {
            Domain::Range(_, _) => true,
            Domain::Enumerative(v) => strictly_sorted(v@),
        }
    }

    pub open spec fn contains(self, x: int) -> bool {
        match self {
            Domain::Range(l, h) => l <= x <= h,
            Domain::Enumerative(v) => seq_has(v@, x),
        }
    }

    pub open spec fn is_singleton(&self, c: int) -> bool {
        forall|x: int| self.contains(x) <==> x == c
    }

    pub open spec fn spec_is_empty(&self) -> bool {
        forall|x: int| !self.contains(x)
    }

    /// The domain of all integers in `[low, high]`.
    pub fn range(low: i32, high: i32) -> (r: Domain)
        ensures
            r.wf(),
            r == Domain::Range(low, high),
            forall|x: int| r.contains(x) <==> low <= x <= high,
    {
        Domain::Range(low, high)
    }

    /// The domain of exactly the listed values, given in strictly increasing order.
    pub fn enumerative(values: Vec<i32>) -> (r: Domain)
        requires
            strictly_sorted(values@),
        ensures
            r.wf(),
            r == Domain::Enumerative(values),
            forall|x: int| r.contains(x) <==> (exists|i: int| #![trigger values@[i]] 0 <= i < values@.len() && values@[i] == x),
    {
        let r = Domain::Enumerative(values);
        proof {
            assert forall|x: int| r.contains(x) <==> (exists|i: int| #![trigger values@[i]] 0 <= i < values@.len() && values@[i] == x) by {
                if r.contains(x) {
                    let i = choose|i: int| 0 <= i < values@.len() && values@[i] == x;
                }
                if exists|i: int| #![trigger values@[i]] 0 <= i < values@.len() && values@[i] == x {
                    let i = choose|i: int| 0 <= i < values@.len() && values@[i] == x;
                    assert(values@[i] == x);
                }
            }
        }
        r
    }

    /// The domain of the listed values, in any order and possibly repeated.
    pub fn enumerative_from_list(values: &Vec<i32>) -> (r: Domain)
        ensures
            r.wf(),
            r is Enumerative,
            forall|x: int| r.contains(x) <==> (exists|i: int| #![trigger values@[i]] 0 <= i < values@.len() && values@[i] == x),
    {
        let sorted = sort_dedup(values);
        proof {
            assert forall|x: int| Domain::Enumerative(sorted).contains(x) <==> (exists|i: int| 0 <= i < values@.len() && #[trigger] values@[i] == x) by {
                if Domain::Enumerative(sorted).contains(x) {
                    let k = choose|k: int| 0 <= k < sorted@.len() && sorted@[k] == x;
                    assert(sorted@.contains(sorted@[k]));
                    assert(values@.contains(sorted@[k]));
                }
                if exists|i: int| 0 <= i < values@.len() && #[trigger] values@[i] == x {
                    let i = choose|i: int| 0 <= i < values@.len() && #[trigger] values@[i] == x;
                    assert(values@.contains(values@[i]));
                    assert(sorted@.contains(values@[i]));
                }
            }
        }
        Domain::Enumerative(sorted)
    }

    pub fn is_infeasible(&self) -> (r: bool)
        requires
            self.wf(),
        ensures
            r == self.spec_is_empty(),
    {
        match self {
            Domain::Range(l, h) => {
                if *l <= *h {
                    assert(self.contains(*l as int));
                }
                *l > *h
            },
            Domain::Enumerative(v) => {
                if v.len() > 0 {
                    assert(self.contains(v@[0] as int));
                }
                v.len() == 0
            },
        }
    }

    pub fn is_empty(&self) -> (r: bool)
        requires
            self.wf(),
        ensures
            r == self.spec_is_empty(),
    {
        self.is_infeasible()
    }

    /// The only value of the domain, if it has exactly one.
    pub fn as_constant(&self) -> (r: Option<i32>)
        requires
            self.wf(),
        ensures
            match r {
                Some(c) => self.is_singleton(c as int),
                None => !(exists|c: int| #[trigger] self.is_singleton(c)),
            },
    {
        match self {
            Domain::Range(l, h) => {
                if *l == *h {
                    Some(*l)
                } else {
                    proof {
                        if exists|c: int| #[trigger] self.is_singleton(c) {
                            let c = choose|c: int| #[trigger] self.is_singleton(c);
                            assert(self.contains(c));
                            assert(self.contains(*l as int) ==> *l == c);
                            assert(self.contains(*h as int) ==> *h == c);
                        }
                    }
                    None
                }
            },
            Domain::Enumerative(v) => {
                if v.len() == 1 {
                    proof {
                        assert forall|x: int| self.contains(x) <==> x == v@[0] by {
                            if self.contains(x) {
                                let i = choose|i: int| 0 <= i < v@.len() && v@[i] == x;
                            }
                            if x == v@[0] {
                                assert(v@[0] == x);
                            }
                        }
                    }
                    Some(v[0])
                } else {
                    proof {
                        if exists|c: int| #[trigger] self.is_singleton(c) {
                            let c = choose|c: int| #[trigger] self.is_singleton(c);
                            assert(self.contains(c));
                            if v.len() >= 2 {
                                assert(self.contains(v@[0] as int));
                                assert(self.contains(v@[1] as int));
                            }
                        }
                    }
                    None
                }
            },
        }
    }

    /// The smallest value of a non-empty domain.
    pub fn lower_bound_checked(&self) -> (r: i32)
        requires
            self.wf(),
            !self.spec_is_empty(),
        ensures
            self.contains(r as int),
            forall|x: int| self.contains(x) ==> r <= x,
    {
        match self {
            Domain::Range(l, _) => {
                proof {
                    let x = choose|x: int| self.contains(x);
                }
                *l
            },
            Domain::Enumerative(v) => {
                proof {
                    let x = choose|x: int| self.contains(x);
                    assert(v@.len() > 0);
                    assert forall|x: int| self.contains(x) implies v@[0] <= x by {
                        let i = choose|i: int| 0 <= i < v@.len() && v@[i] == x;
                        if i > 0 {
                            assert(v@[0] < v@[i]);
                        }
                    }
                }
                v[0]
            },
        }
    }

    /// The largest value of a non-empty domain.
    pub fn upper_bound_checked(&self) -> (r: i32)
        requires
            self.wf(),
            !self.spec_is_empty(),
        ensures
            self.contains(r as int),
            forall|x: int| self.contains(x) ==> x <= r,
    {
        match self {
            Domain::Range(_, h) => {
                proof {
                    let x = choose|x: int| self.contains(x);
                }
                *h
            },
            Domain::Enumerative(v) => {
                proof {
                    let x = choose|x: int| self.contains(x);
                    assert(v@.len() > 0);
                    assert forall|x: int| self.contains(x) implies x <= v@[v@.len() - 1] by {
                        let i = choose|i: int| 0 <= i < v@.len() && v@[i] == x;
                        if i < v@.len() - 1 {
                            assert(v@[i] < v@[v@.len() - 1]);
                        }
                    }
                }
                v[v.len() - 1]
            },
        }
    }

    /// Removes the values below `lb`.
    pub fn refine_lower_bound(&mut self, lb: i32)
        requires
            old(self).wf(),
        ensures
            final(self).wf(),
            forall|x: int| final(self).contains(x) <==> old(self).contains(x) && lb <= x,
    {
        match self {
            Domain::Range(l, h) => {
                if *l < lb {
                    *self = Domain::Range(lb, *h);
                }
            },
            Domain::Enumerative(v) => {
                let mut p: usize = 0;
                while p < v.len() && v[p] < lb
                    invariant
                        p <= v.len(),
                        forall|k: int| 0 <= k < p ==> #[trigger] v@[k] < lb,
                    decreases v.len() - p,
                {
                    p += 1;
                }
                let out = copy_range(v, p, v.len());
                proof {
                    assert forall|x: int| #[trigger] Domain::Enumerative(out).contains(x) <==> (old(self).contains(x) && lb <= x) by {
                        if Domain::Enumerative(out).contains(x) {
                            let k = choose|k: int| 0 <= k < out@.len() && out@[k] == x;
                            assert(out@[k] == v@[p + k]);
                            if p + k > p {
                                assert(v@[p as int] < v@[p + k]);
                            }
                        }
                        if old(self).contains(x) && lb <= x {
                            let t = choose|t: int| 0 <= t < v@.len() && v@[t] == x;
                            assert(t >= p);
                            assert(out@[t - p] == v@[t]);
                        }
                    }
                }
                *self = Domain::Enumerative(out);
            },
        }
    }

    /// Removes the values above `ub`.
    pub fn refine_upper_bound(&mut self, ub: i32)
        requires
            old(self).wf(),
        ensures
            final(self).wf(),
            forall|x: int| final(self).contains(x) <==> old(self).contains(x) && x <= ub,
    {
        match self {
            Domain::Range(l, h) => {
                if *h > ub {
                    *self = Domain::Range(*l, ub);
                }
            },
            Domain::Enumerative(v) => {
                let mut q: usize = 0;
                while q < v.len() && v[q] <= ub
                    invariant
                        q <= v.len(),
                        forall|k: int| 0 <= k < q ==> #[trigger] v@[k] <= ub,
                    decreases v.len() - q,
                {
                    q += 1;
                }
                let out = copy_range(v, 0, q);
                proof {
                    assert forall|x: int| #[trigger] Domain::Enumerative(out).contains(x) <==> (old(self).contains(x) && x <= ub) by {
                        if Domain::Enumerative(out).contains(x) {
                            let k = choose|k: int| 0 <= k < out@.len() && out@[k] == x;
                            assert(out@[k] == v@[k]);
                        }
                        if old(self).contains(x) && x <= ub {
                            let t = choose|t: int| 0 <= t < v@.len() && v@[t] == x;
                            if t >= q {
                                assert(v@[q as int] > ub);
                                if t > q {
                                    assert(v@[q as int] < v@[t]);
                                }
                            }
                            assert(out@[t] == v@[t]);
                        }
                    }
                }
                *self = Domain::Enumerative(out);
            },
        }
    }
}

impl Domain {
    /// All values of the domain, in increasing order.
    pub fn enumerate(&self) -> (r: Vec<i32>)
        requires
            self.wf(),
        ensures
            strictly_sorted(r@),
            forall|x: int| self.contains(x) <==> seq_has(r@, x),
    {
        match self {
            Domain::Range(l, h) => {
                let mut r: Vec<i32> = Vec::new();
                if *l > *h {
                    proof {
                        assert forall|x: int| self.contains(x) <==> seq_has(r@, x) by {}
                    }
                    return r;
                }
                let mut cur: i64 = *l as i64;
                while cur <= *h as i64
                    invariant
                        *l <= cur <= *h + 1,
                        r@.len() == cur - *l,
                        forall|k: int| 0 <= k < r@.len() ==> #[trigger] r@[k] == *l + k,
                    decreases *h + 1 - cur,
                {
                    r.push(cur as i32);
                    cur += 1;
                }
                assert(r@.len() == *h - *l + 1);
                proof {
                    assert forall|x: int| self.contains(x) <==> seq_has(r@, x) by {
                        if self.contains(x) {
                            assert(r@[x - *l] == x);
                        }
                        if seq_has(r@, x) {
                            let k = choose|k: int| 0 <= k < r@.len() && r@[k] == x;
                            assert(r@[k] == *l + k);
                        }
                    }
                }
                r
            },
            Domain::Enumerative(v) => {
                let r = copy_range(v, 0, v.len());
                assert(r@ =~= v@);
                r
            },
        }
    }

    /// Number of values of the domain, saturating at `usize::MAX`.
    pub fn num_candidates(&self) -> (r: usize)
        requires
            self.wf(),
        ensures
            match self {
                Domain::Range(l, h) => r == (if *l > *h { 0 } else if *h - *l + 1 > usize::MAX { usize::MAX as int } else { *h - *l + 1 }),
                Domain::Enumerative(v) => r == v@.len(),
            },
    {
        match self {
            Domain::Range(l, h) => {
                if *l > *h {
                    0
                } else {
                    let d: i64 = (*h as i64) - (*l as i64) + 1;
                    if d as u64 > usize::MAX as u64 {
                        usize::MAX
                    } else {
                        d as usize
                    }
                }
            },
            Domain::Enumerative(v) => v.len(),
        }
    }
}

impl Domain {
    /// A copy of the domain.
    pub fn duplicate(&self) -> (r: Domain)
        ensures
            match (r, *self) {
                (Domain::Range(a, b), Domain::Range(c, d)) => a == c && b == d,
                (Domain::Enumerative(x), Domain::Enumerative(y)) => x@ == y@,
                _ => false,
            },
            r.wf() == self.wf(),
            forall|x: int| #[trigger] r.contains(x) == self.contains(x),
            r.spec_is_empty() == self.spec_is_empty(),
    {
        let r = match self {
            Domain::Range(l, h) => Domain::Range(*l, *h),
            Domain::Enumerative(v) => {
                let c = copy_range(v, 0, v.len());
                assert(c@ =~= v@);
                Domain::Enumerative(c)
            },
        };
        proof {
            if !r.spec_is_empty() {
                let x = choose|x: int| r.contains(x);
                assert(self.contains(x));
            }
            if !self.spec_is_empty() {
                let x = choose|x: int| self.contains(x);
                assert(r.contains(x));
            }
        }
        r
    }
}

/// The elements of `v` at positions `from .. to`.
fn copy_range(v: &Vec<i32>, from: usize, to: usize) -> (r: Vec<i32>)
    requires
        from <= to <= v.len(),
    ensures
        r@ == v@.subrange(from as int, to as int),
        strictly_sorted(v@) ==> strictly_sorted(r@),
{
    let mut r: Vec<i32> = Vec::new();
    let mut i = from;
    while i < to
        invariant
            from <= i <= to <= v.len(),
            r@ == v@.subrange(from as int, i as int),
        decreases to - i,
    {
        r.push(v[i]);
        i += 1;
        proof {
            assert(r@ == v@.subrange(from as int, i as int));
        }
    }
    r
}

/// Sorts the values in increasing order and drops repetitions.
pub fn sort_dedup(values: &Vec<i32>) -> (r: Vec<i32>)
    ensures
        strictly_sorted(r@),
        forall|x: i32| r@.contains(x) <==> values@.contains(x),
{
    let mut out: Vec<i32> = Vec::new();
    let mut i: usize = 0;
    while i < values.len()
        invariant
            i <= values.len(),
            strictly_sorted(out@),
            forall|x: i32| out@.contains(x) <==> values@.subrange(0, i as int).contains(x),
        decreases values.len() - i,
    {
        let x = values[i];
        // find the insertion point
        let mut p: usize = 0;
        while p < out.len() && out[p] < x
            invariant
                p <= out.len(),
                strictly_sorted(out@),
                forall|k: int| 0 <= k < p ==> #[trigger] out@[k] < x,
            decreases out.len() - p,
        {
            p += 1;
        }
        let ghost prev = out@;
        if p < out.len() && out[p] == x {
            // already present
        } else {
            out.insert(p, x);
            proof {
                assert(out@ == prev.subrange(0, p as int).push(x) + prev.subrange(p as int, prev.len() as int));
                assert forall|a: int, b: int| 0 <= a < b < out@.len() implies out@[a] < out@[b] by {
                    if b < p {
                        assert(out@[a] == prev[a] && out@[b] == prev[b]);
                    } else if b == p {
                        assert(out@[a] == prev[a]);
                    } else if a < p {
                        assert(out@[b] == prev[b - 1]);
                        assert(prev[b - 1] >= x) by {
                            if p < prev.len() {
                                assert(prev[p as int] >= x);
                                if b - 1 > p {
                                    assert(prev[p as int] < prev[b - 1]);
                                }
                            }
                        }
                    } else if a == p {
                        assert(out@[b] == prev[b - 1]);
                        assert(prev[b - 1] > x) by {
                            assert(prev[p as int] != x);
                            assert(prev[p as int] >= x);
                            if b - 1 > p {
                                assert(prev[p as int] < prev[b - 1]);
                            }
                        }
                    } else {
                        assert(out@[a] == prev[a - 1] && out@[b] == prev[b - 1]);
                    }
                }
            }
        }
        proof {
            let s1 = values@.subrange(0, i as int + 1);
            let s0 = values@.subrange(0, i as int);
            assert(s1 == s0.push(x));
            assert forall|y: i32| out@.contains(y) <==> s1.contains(y) by {
                if out@.contains(y) {
                    let k = choose|k: int| 0 <= k < out@.len() && out@[k] == y;
                    if y != x {
                        if out@ != prev {
                            if k < p {
                                assert(prev[k] == y);
                            } else {
                                assert(k != p);
                                assert(prev[k - 1] == y);
                            }
                        }
                        assert(prev.contains(y));
                        let t = choose|t: int| 0 <= t < s0.len() && s0[t] == y;
                        assert(s1[t] == y);
                    } else {
                        assert(s1[i as int] == y);
                    }
                }
                if s1.contains(y) {
                    let t = choose|t: int| 0 <= t < s1.len() && s1[t] == y;
                    if t < i {
                        assert(s0[t] == y);
                        assert(prev.contains(y));
                        let k = choose|k: int| 0 <= k < prev.len() && prev[k] == y;
                        if out@ != prev {
                            if k < p {
                                assert(out@[k] == y);
                            } else {
                                assert(out@[k + 1] == y);
                            }
                        }
                    } else {
                        if out@ != prev {
                            assert(out@[p as int] == x);
                        } else {
                            assert(out@[p as int] == x);
                        }
                    }
                }
            }
        }
        i += 1;
    }
    proof {
        assert(values@.subrange(0, values.len() as int) == values@);
    }
    out
}

} // verus!
