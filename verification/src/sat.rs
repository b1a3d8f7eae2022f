use vstd::prelude::*;
pub use crate::propagators::{CustomPropagator, SolverManipulator};

verus! {

/// A propositional variable of the SAT instance, identified by its index.
#[derive(Clone, Copy, Debug, PartialEq, Eq, Structural, Hash)]
pub struct Var(pub i32);

/// A literal: a variable together with a polarity, packed as `2 * var + negated`.
#[derive(Clone, Copy, Debug, PartialEq, Eq, Structural, PartialOrd, Ord, Hash)]
pub struct Lit(pub i32);

/// Largest variable index whose literals still fit in the packed representation.
pub open spec fn var_in_range(v: Var) -> bool {
    0 <= v.0 && v.0 <= 0x3fff_ffff
}

pub open spec fn lit_wf(l: Lit) -> bool {
    0 <= l.0
}

impl Var {
    pub fn as_lit(self, negated: bool) -> (r: Lit)
        requires
            var_in_range(self),
        ensures
            r.0 == self.0 * 2 + (if negated { 1int } else { 0int }),
            r.spec_var() == self,
            r.spec_is_negated() == negated,
            lit_wf(r),
    {
        Lit(self.0 * 2 + if negated { 1 } else { 0 })
    }
}

impl Lit {
    pub open spec fn spec_var(self) -> Var {
        Var((self.0 / 2) as i32)
    }

    pub open spec fn spec_is_negated(self) -> bool {
        self.0 % 2 == 1
    }

    pub open spec fn spec_not(self) -> Lit {
        if self.0 % 2 == 0 { Lit((self.0 + 1) as i32) } else { Lit((self.0 - 1) as i32) }
    }

    pub fn new(var: Var, negated: bool) -> (r: Lit)
        requires
            var_in_range(var),
        ensures
            r.0 == var.0 * 2 + (if negated { 1int } else { 0int }),
            r.spec_var() == var,
            r.spec_is_negated() == negated,
            lit_wf(r),
    {
        Lit(var.0 * 2 + if negated { 1 } else { 0 })
    }

    pub fn var(self) -> (r: Var)
        requires
            lit_wf(self),
        ensures
            r == self.spec_var(),
            var_in_range(r),
    {
        Var(self.0 / 2)
    }

    /// The literal of the same variable with the other polarity.
    pub fn negate(self) -> (r: Lit)
        requires
            lit_wf(self),
        ensures
            r == self.spec_not(),
            lit_wf(r),
            r.spec_var() == self.spec_var(),
            r.spec_is_negated() == !self.spec_is_negated(),
    {
        if self.0 % 2 == 0 {
            Lit(self.0 + 1)
        } else {
            Lit(self.0 - 1)
        }
    }

    pub fn is_negated(self) -> (r: bool)
        requires
            lit_wf(self),
        ensures
            r == self.spec_is_negated(),
    {
        self.0 % 2 == 1
    }
}

impl core::ops::Not for Lit {
    type Output = Lit;

    fn not(self) -> (r: Lit) {
        let x = self.0;
        let y = x ^ 1;
        proof {
            assert(x >= 0 ==> (x ^ 1) == if x % 2 == 0 { x + 1 } else { x - 1 }) by (bit_vector);
        }
        Lit(y)
    }
}

impl vstd::std_specs::ops::NotSpecImpl for Lit {
    open spec fn obeys_not_spec() -> bool {
        true
    }

    open spec fn not_req(self) -> bool {
        lit_wf(self)
    }

    open spec fn not_spec(self) -> Lit {
        self.spec_not()
    }
}

/// A literal and its negation name the same variable with opposite polarity,
/// and negating twice gives the literal back.
pub proof fn lemma_lit_negation(l: Lit)
    requires
        lit_wf(l),
    ensures
        lit_wf(l.spec_not()),
        l.spec_not().spec_var() == l.spec_var(),
        l.spec_not().spec_is_negated() == !l.spec_is_negated(),
        l.spec_not().spec_not() == l,
{
}

/// Building a literal from a variable and a polarity and reading them back
/// gives the same variable and polarity.
pub proof fn lemma_lit_roundtrip(v: Var, negated: bool)
    requires
        var_in_range(v),
    ensures
        ({
            let l = Lit((v.0 * 2 + if negated { 1int } else { 0int }) as i32);
            l.spec_var() == v && l.spec_is_negated() == negated
        }),
{
}

} // verus!

verus! {

/// The value of a literal under a total assignment of the variables.
pub open spec fn lit_holds(m: Seq<bool>, l: Lit) -> bool {
    m[l.spec_var().0 as int] != l.spec_is_negated()
}

/// A clause holds when one of its literals holds.
pub open spec fn clause_holds(m: Seq<bool>, c: Seq<Lit>) -> bool {
    exists|i: int| 0 <= i < c.len() && lit_holds(m, #[trigger] c[i])
}

/// Every clause of `cs` holds under `m`.
pub open spec fn clauses_hold(m: Seq<bool>, cs: Seq<Seq<Lit>>) -> bool {
    forall|j: int| 0 <= j < cs.len() ==> clause_holds(m, #[trigger] cs[j])
}

/// `m` and `a` agree on the variables below `k`.
pub open spec fn agree_below(m: Seq<bool>, a: Seq<bool>, k: int) -> bool {
    forall|i: int| 0 <= i < k ==> #[trigger] m[i] == a[i]
}

/// Every literal of `c` is well formed and names a variable below `n`.
pub open spec fn clause_in_range(c: Seq<Lit>, n: int) -> bool {
    forall|i: int| 0 <= i < c.len() ==> lit_wf(#[trigger] c[i]) && c[i].spec_var().0 < n
}

/// `c` has a literal on variable `v` and none on a larger variable.
pub open spec fn clause_last_var(c: Seq<Lit>, v: int) -> bool {
    &&& clause_in_range(c, v + 1)
    &&& exists|i: int| 0 <= i < c.len() && (#[trigger] c[i]).spec_var().0 == v
}

/// Upper bound on the number of variables of an instance.
pub const NUM_VAR_MAX: usize = 0x3fff_ffff;

/// Which solving engine an instance was requested for.
#[derive(Clone, Copy, PartialEq, Eq, Structural, Debug)]
pub enum Backend {
    Glucose,
    External,
    CaDiCaL,
}

#[derive(Clone, Copy, PartialEq, Eq, Structural, Debug)]
pub enum OrderEncodingLinearMode {
    Cpp,
    Rust,
    RustOptimized,
}

#[derive(Clone, Copy, PartialEq, Eq, Structural, Debug)]
pub enum GraphDivisionMode {
    Cpp,
    Rust,
}

/// Search statistics of the last run.
pub struct SATSolverStats {
    pub decisions: Option<u64>,
    pub propagations: Option<u64>,
    pub conflicts: Option<u64>,
}

/// A SAT instance: variables, clauses, and a complete search procedure.
///
/// Clauses are bucketed by their largest variable so that the search checks
/// each clause exactly when its last variable gets assigned.
pub struct SAT {
    num_vars: usize,
    clauses: Vec<Vec<Lit>>,
    last_var: Vec<usize>,
    by_last: Vec<Vec<usize>>,
    has_empty: bool,
    backend: Backend,
    exhausted: bool,
}

/// A total assignment of the variables of an instance.
pub struct SATModel {
    pub values: Vec<bool>,
}

impl SAT {
    pub closed spec fn spec_num_vars(&self) -> nat {
        self.num_vars as nat
    }

    pub closed spec fn spec_clauses(&self) -> Seq<Seq<Lit>> {
        self.clauses@.map_values(|c: Vec<Lit>| c@)
    }


    pub closed spec fn spec_backend(&self) -> Backend {
        self.backend
    }

    /// A request for a fresh variable found no room left.
    pub closed spec fn spec_exhausted(&self) -> bool {
        self.exhausted
    }

    pub closed spec fn wf(&self) -> bool {
        &&& self.num_vars <= NUM_VAR_MAX
        &&& self.by_last.len() == self.num_vars
        &&& self.last_var.len() == self.clauses.len()
        &&& forall|j: int|
            0 <= j < self.clauses.len() ==> clause_in_range(
                #[trigger] self.clauses@[j]@,
                self.num_vars as int,
            )
        &&& forall|j: int|
            0 <= j < self.clauses.len() && self.clauses@[j]@.len() > 0 ==> {
                &&& clause_last_var(self.clauses@[j]@, self.last_var@[j] as int)
                &&& exists|t: int|
                    0 <= t < self.by_last@[self.last_var@[j] as int]@.len()
                        && #[trigger] self.by_last@[self.last_var@[j] as int]@[t] == j
            }
        &&& forall|v: int, t: int|
            0 <= v < self.by_last.len() && 0 <= t < self.by_last@[v]@.len() ==> {
                let j = #[trigger] self.by_last@[v]@[t] as int;
                &&& 0 <= j < self.clauses.len()
                &&& self.last_var@[j] == v
                &&& self.clauses@[j]@.len() > 0
            }
        &&& self.has_empty <==> exists|j: int|
            0 <= j < self.clauses.len() && (#[trigger] self.clauses@[j]@).len() == 0
    }

    /// An instance with no variables and no clauses.
    pub fn new() -> (r: SAT)
        ensures
            r.wf(),
            r.spec_num_vars() == 0,
            r.spec_clauses() == Seq::<Seq<Lit>>::empty(),
            r.spec_backend() == Backend::Glucose,
    {
        SAT::new_glucose()
    }

    pub fn new_glucose() -> (r: SAT)
        ensures
            r.wf(),
            r.spec_num_vars() == 0,
            r.spec_clauses() == Seq::<Seq<Lit>>::empty(),
            r.spec_backend() == Backend::Glucose,
    {
        let r = SAT {
            num_vars: 0,
            clauses: Vec::new(),
            last_var: Vec::new(),
            by_last: Vec::new(),
            has_empty: false,
            backend: Backend::Glucose,
            exhausted: false,
        };
        assert(r.spec_clauses() =~= Seq::<Seq<Lit>>::empty());
        r
    }

    /// Only the built-in engine is available; other backends are refused.
    pub fn new_with_backend(backend: Backend) -> (r: SAT)
        requires
            backend == Backend::Glucose,
        ensures
            r.wf(),
            r.spec_num_vars() == 0,
            r.spec_clauses() == Seq::<Seq<Lit>>::empty(),
            r.spec_backend() == backend,
    {
        SAT::new_glucose()
    }

    pub fn get_backend(&self) -> (r: Backend)
        ensures
            r == self.spec_backend(),
    {
        self.backend
    }

    pub fn num_var(&self) -> (r: usize)
        ensures
            r == self.spec_num_vars(),
    {
        self.num_vars
    }

    pub fn all_vars(&self) -> (r: Vec<Var>)
        requires
            self.wf(),
        ensures
            r.len() == self.spec_num_vars(),
            forall|i: int| 0 <= i < r.len() ==> (#[trigger] r@[i]).0 == i,
    {
        let mut r: Vec<Var> = Vec::new();
        let mut i: usize = 0;
        while i < self.num_vars
            invariant
                self.wf(),
                i <= self.num_vars,
                r.len() == i,
                forall|k: int| 0 <= k < r.len() ==> (#[trigger] r@[k]).0 == k,
            decreases self.num_vars - i,
        {
            r.push(Var(i as i32));
            i += 1;
        }
        r
    }

    /// Adds a fresh variable.
    pub fn new_var(&mut self) -> (r: Var)
        requires
            old(self).wf(),
            old(self).spec_num_vars() < NUM_VAR_MAX,
        ensures
            final(self).wf(),
            r.0 == old(self).spec_num_vars(),
            var_in_range(r),
            final(self).spec_num_vars() == old(self).spec_num_vars() + 1,
            final(self).spec_clauses() == old(self).spec_clauses(),
            final(self).spec_backend() == old(self).spec_backend(),
            final(self).spec_exhausted() == old(self).spec_exhausted(),
    {
        let v = self.num_vars;
        self.by_last.push(Vec::new());
        self.num_vars = v + 1;
        proof {
            assert forall|j: int|
                0 <= j < self.clauses.len() implies clause_in_range(
                #[trigger] self.clauses@[j]@,
                self.num_vars as int,
            ) by {
                assert(clause_in_range(self.clauses@[j]@, v as int));
            }
            assert forall|v2: int, t: int|
                0 <= v2 < self.by_last.len() && 0 <= t < self.by_last@[v2]@.len() implies {
                let j = #[trigger] self.by_last@[v2]@[t] as int;
                &&& 0 <= j < self.clauses.len()
                &&& self.last_var@[j] == v2
                &&& self.clauses@[j]@.len() > 0
            } by {
                if v2 < v {
                    assert(self.by_last@[v2] == old(self).by_last@[v2]);
                }
            }
            assert forall|j: int|
                0 <= j < self.clauses.len() && self.clauses@[j]@.len() > 0 implies {
                &&& clause_last_var(self.clauses@[j]@, self.last_var@[j] as int)
                &&& exists|t: int|
                    0 <= t < self.by_last@[self.last_var@[j] as int]@.len()
                        && #[trigger] self.by_last@[self.last_var@[j] as int]@[t] == j
            } by {
                let lv = self.last_var@[j] as int;
                assert(clause_last_var(old(self).clauses@[j]@, lv));
                let i = choose|i: int| 0 <= i < self.clauses@[j]@.len() && (#[trigger] self.clauses@[j]@[i]).spec_var().0 == lv;
                assert(lv < v);
                assert(self.by_last@[lv] == old(self).by_last@[lv]);
            }
        }
        Var(v as i32)
    }

    /// Adds `count` fresh variables.
    pub fn new_vars(&mut self, count: usize) -> (r: Vec<Var>)
        requires
            old(self).wf(),
            old(self).spec_num_vars() + count <= NUM_VAR_MAX,
        ensures
            final(self).wf(),
            r.len() == count,
            forall|i: int| 0 <= i < count ==> (#[trigger] r@[i]).0 == old(self).spec_num_vars() + i,
            final(self).spec_num_vars() == old(self).spec_num_vars() + count,
            final(self).spec_clauses() == old(self).spec_clauses(),
            final(self).spec_backend() == old(self).spec_backend(),
            final(self).spec_exhausted() == old(self).spec_exhausted(),
    {
        let mut vars: Vec<Var> = Vec::new();
        let mut i: usize = 0;
        while i < count
            invariant
                self.wf(),
                i <= count,
                vars.len() == i,
                self.spec_num_vars() == old(self).spec_num_vars() + i,
                old(self).spec_num_vars() + count <= NUM_VAR_MAX,
                forall|k: int| 0 <= k < i ==> (#[trigger] vars@[k]).0 == old(self).spec_num_vars() + k,
                self.spec_clauses() == old(self).spec_clauses(),
                self.spec_backend() == old(self).spec_backend(),
                self.spec_exhausted() == old(self).spec_exhausted(),
            decreases count - i,
        {
            let v = self.new_var();
            vars.push(v);
            i += 1;
        }
        vars
    }

    /// Adds `count` fresh variables, returned as positive literals.
    pub fn new_vars_as_lits(&mut self, count: usize) -> (r: Vec<Lit>)
        requires
            old(self).wf(),
            old(self).spec_num_vars() + count <= NUM_VAR_MAX,
        ensures
            final(self).wf(),
            r.len() == count,
            forall|i: int|
                0 <= i < count ==> (#[trigger] r@[i]).spec_var().0 == old(self).spec_num_vars() + i
                    && !r@[i].spec_is_negated() && lit_wf(r@[i]),
            final(self).spec_num_vars() == old(self).spec_num_vars() + count,
            final(self).spec_clauses() == old(self).spec_clauses(),
            final(self).spec_backend() == old(self).spec_backend(),
            final(self).spec_exhausted() == old(self).spec_exhausted(),
    {
        let vars = self.new_vars(count);
        let mut lits: Vec<Lit> = Vec::new();
        let mut i: usize = 0;
        while i < count
            invariant
                vars.len() == count,
                i <= count,
                lits.len() == i,
                old(self).spec_num_vars() + count <= NUM_VAR_MAX,
                forall|k: int| 0 <= k < count ==> (#[trigger] vars@[k]).0 == old(self).spec_num_vars() + k,
                forall|k: int|
                    0 <= k < i ==> (#[trigger] lits@[k]).spec_var().0 == old(self).spec_num_vars() + k
                        && !lits@[k].spec_is_negated() && lit_wf(lits@[k]),
            decreases count - i,
        {
            lits.push(vars[i].as_lit(false));
            i += 1;
        }
        lits
    }
}


impl SAT {
    /// Adds a clause (a disjunction of literals over existing variables).
    pub fn add_clause(&mut self, clause: &[Lit])
        requires
            old(self).wf(),
            clause_in_range(clause@, old(self).spec_num_vars() as int),
        ensures
            final(self).wf(),
            final(self).spec_clauses() == old(self).spec_clauses().push(clause@),
            final(self).spec_num_vars() == old(self).spec_num_vars(),
            final(self).spec_backend() == old(self).spec_backend(),
            final(self).spec_exhausted() == old(self).spec_exhausted(),
    {
        let j = self.clauses.len();
        let mut c: Vec<Lit> = Vec::new();
        let mut last: usize = 0;
        let mut i: usize = 0;
        while i < clause.len()
            invariant
                self.wf(),
                i <= clause.len(),
                c@ == clause@.subrange(0, i as int),
                clause_in_range(clause@, self.num_vars as int),
                i > 0 ==> clause_last_var(c@, last as int),
                i > 0 ==> last < self.num_vars,
            decreases clause.len() - i,
        {
            let l = clause[i];
            let v = l.var().0 as usize;
            if i == 0 || v > last {
                last = v;
            }
            c.push(l);
            i += 1;
            proof {
                assert(c@ == clause@.subrange(0, i as int));
                assert(c@[i - 1] == l);
            }
        }
        proof {
            assert(c@ == clause@);
        }
        let ghost old_self_clauses = self.clauses@;
        let ghost old_by_last = self.by_last@;
        if c.len() == 0 {
            self.has_empty = true;
            self.clauses.push(c);
            self.last_var.push(0);
        } else {
            self.clauses.push(c);
            self.last_var.push(last);
            self.by_last[last].push(j);
            proof {
                assert(self.by_last@[last as int]@[self.by_last@[last as int]@.len() - 1] == j);
            }
        }
        proof {
            assert(self.spec_clauses() =~= old(self).spec_clauses().push(clause@));
            assert(self.clauses@[j as int]@ == clause@);
            assert forall|k: int|
                0 <= k < self.clauses.len() implies clause_in_range(
                #[trigger] self.clauses@[k]@,
                self.num_vars as int,
            ) by {
                if k < j {
                    assert(self.clauses@[k] == old_self_clauses[k]);
                }
            }
            assert forall|v: int, t: int|
                0 <= v < self.by_last.len() && 0 <= t < self.by_last@[v]@.len() implies {
                let k = #[trigger] self.by_last@[v]@[t] as int;
                &&& 0 <= k < self.clauses.len()
                &&& self.last_var@[k] == v
                &&& self.clauses@[k]@.len() > 0
            } by {
                if v != last || t < old_by_last[v]@.len() {
                    assert(self.by_last@[v]@[t] == old_by_last[v]@[t]);
                    let k = old_by_last[v]@[t] as int;
                    assert(self.clauses@[k] == old_self_clauses[k]);
                }
            }
            assert forall|k: int|
                0 <= k < self.clauses.len() && self.clauses@[k]@.len() > 0 implies {
                &&& clause_last_var(self.clauses@[k]@, self.last_var@[k] as int)
                &&& exists|t: int|
                    0 <= t < self.by_last@[self.last_var@[k] as int]@.len()
                        && #[trigger] self.by_last@[self.last_var@[k] as int]@[t] == k
            } by {
                if k < j {
                    assert(self.clauses@[k] == old_self_clauses[k]);
                    let lv = self.last_var@[k] as int;
                    let t = choose|t: int|
                        0 <= t < old_by_last[lv]@.len() && #[trigger] old_by_last[lv]@[t] == k;
                    assert(self.by_last@[lv]@[t] == k);
                } else {
                    let lv = self.last_var@[k] as int;
                    assert(self.by_last@[lv]@[self.by_last@[lv]@.len() - 1] == k);
                }
            }
            if self.has_empty {
                if c.len() == 0 {
                    assert(self.clauses@[j as int]@.len() == 0);
                } else {
                    let k = choose|k: int| 0 <= k < old_self_clauses.len() && (#[trigger] old_self_clauses[k]@).len() == 0;
                    assert(self.clauses@[k] == old_self_clauses[k]);
                }
            } else {
                assert forall|k: int| 0 <= k < self.clauses.len() implies (#[trigger] self.clauses@[k]@).len() != 0 by {
                    if k < j {
                        assert(self.clauses@[k] == old_self_clauses[k]);
                    }
                }
            }
        }
    }
}


/// Whether a clause holds only depends on the variables it mentions.
proof fn lemma_clause_holds_agree(m: Seq<bool>, a: Seq<bool>, c: Seq<Lit>, k: int)
    requires
        clause_in_range(c, k),
        agree_below(m, a, k),
        m.len() >= k,
        a.len() >= k,
    ensures
        clause_holds(m, c) == clause_holds(a, c),
{
    if clause_holds(m, c) {
        let i = choose|i: int| 0 <= i < c.len() && lit_holds(m, #[trigger] c[i]);
        assert(m[c[i].spec_var().0 as int] == a[c[i].spec_var().0 as int]);
        assert(lit_holds(a, c[i]));
    }
    if clause_holds(a, c) {
        let i = choose|i: int| 0 <= i < c.len() && lit_holds(a, #[trigger] c[i]);
        assert(m[c[i].spec_var().0 as int] == a[c[i].spec_var().0 as int]);
        assert(lit_holds(m, c[i]));
    }
}

impl SAT {
    /// Whether every clause whose last variable is `k` holds under `a`.
    fn check_bucket(&self, a: &Vec<bool>, k: usize) -> (r: bool)
        requires
            self.wf(),
            a.len() == self.spec_num_vars(),
            k < self.spec_num_vars(),
        ensures
            r <==> forall|t: int|
                0 <= t < self.by_last@[k as int]@.len() ==> clause_holds(
                    a@,
                    self.clauses@[#[trigger] self.by_last@[k as int]@[t] as int]@,
                ),
    {
        let bucket = &self.by_last[k];
        let mut t: usize = 0;
        while t < bucket.len()
            invariant
                self.wf(),
                a.len() == self.spec_num_vars(),
                k < self.spec_num_vars(),
                bucket == &self.by_last@[k as int],
                t <= bucket.len(),
                forall|t2: int|
                    0 <= t2 < t ==> clause_holds(a@, self.clauses@[#[trigger] bucket@[t2] as int]@),
            decreases bucket.len() - t,
        {
            let j = bucket[t];
            let c = &self.clauses[j];
            assert(clause_in_range(c@, self.num_vars as int));
            let mut found = false;
            let mut i: usize = 0;
            while i < c.len()
                invariant
                    clause_in_range(c@, self.num_vars as int),
                    a.len() == self.num_vars,
                    i <= c.len(),
                    found ==> clause_holds(a@, c@),
                    !found ==> forall|i2: int| 0 <= i2 < i ==> !lit_holds(a@, #[trigger] c@[i2]),
                decreases c.len() - i,
            {
                let l = c[i];
                let val = a[l.var().0 as usize];
                if val != l.is_negated() {
                    found = true;
                    assert(lit_holds(a@, c@[i as int]));
                }
                i += 1;
            }
            if !found {
                assert(!clause_holds(a@, c@));
                return false;
            }
            t += 1;
        }
        true
    }

    /// Tries value `v` for variable `k`, then searches the remaining variables.
    fn try_value(&self, a: &mut Vec<bool>, k: usize, v: bool) -> (r: bool)
        requires
            self.wf(),
            !self.has_empty,
            old(a).len() == self.spec_num_vars(),
            k < self.spec_num_vars(),
            forall|j: int|
                0 <= j < self.clauses.len() && clause_in_range(#[trigger] self.clauses@[j]@, k as int)
                    ==> clause_holds(old(a)@, self.clauses@[j]@),
        ensures
            final(a).len() == self.spec_num_vars(),
            agree_below(final(a)@, old(a)@, k as int),
            r ==> clauses_hold(final(a)@, self.spec_clauses()),
            !r ==> forall|m: Seq<bool>|
                m.len() == self.spec_num_vars() && agree_below(m, old(a)@, k as int) && m[k as int] == v
                    ==> !clauses_hold(m, self.spec_clauses()),
        decreases self.num_vars - k, 0int,
    {
        let ghost a0 = a@;
        a.set(k, v);
        let ghost a1 = a@;
        assert(agree_below(a1, a0, k as int));
        let ok = self.check_bucket(a, k);
        if !ok {
            proof {
                let t = choose|t: int|
                    0 <= t < self.by_last@[k as int]@.len() && !clause_holds(
                        a1,
                        self.clauses@[#[trigger] self.by_last@[k as int]@[t] as int]@,
                    );
                let j = self.by_last@[k as int]@[t] as int;
                assert(clause_last_var(self.clauses@[j]@, k as int));
                assert forall|m: Seq<bool>|
                    m.len() == self.spec_num_vars() && agree_below(m, a0, k as int) && m[k as int] == v
                        implies !clauses_hold(m, self.spec_clauses()) by {
                    assert(agree_below(m, a1, k + 1));
                    lemma_clause_holds_agree(m, a1, self.clauses@[j]@, k + 1);
                    assert(self.spec_clauses()[j] == self.clauses@[j]@);
                }
            }
            return false;
        }
        proof {
            assert forall|j: int|
                0 <= j < self.clauses.len() && clause_in_range(#[trigger] self.clauses@[j]@, k + 1)
                    implies clause_holds(a1, self.clauses@[j]@) by {
                let c = self.clauses@[j]@;
                assert(c.len() > 0);
                let lv = self.last_var@[j] as int;
                assert(clause_last_var(c, lv));
                let i = choose|i: int| 0 <= i < c.len() && (#[trigger] c[i]).spec_var().0 == lv;
                if lv == k {
                    let t = choose|t: int|
                        0 <= t < self.by_last@[lv]@.len() && #[trigger] self.by_last@[lv]@[t] == j;
                    assert(clause_holds(a1, self.clauses@[self.by_last@[k as int]@[t] as int]@));
                } else {
                    assert(lv < k);
                    assert(clause_in_range(c, k as int));
                    lemma_clause_holds_agree(a1, a0, c, k as int);
                }
            }
        }
        let r = self.search(a, k + 1);
        proof {
            assert(agree_below(a@, a0, k as int));
            if !r {
                assert forall|m: Seq<bool>|
                    m.len() == self.spec_num_vars() && agree_below(m, a0, k as int) && m[k as int] == v
                        implies !clauses_hold(m, self.spec_clauses()) by {
                    assert(agree_below(m, a1, k + 1));
                }
            }
        }
        r
    }

    /// Complete search over the variables from `k` on, with the variables
    /// below `k` fixed as in `a`.
    fn search(&self, a: &mut Vec<bool>, k: usize) -> (r: bool)
        requires
            self.wf(),
            !self.has_empty,
            old(a).len() == self.spec_num_vars(),
            k <= self.spec_num_vars(),
            forall|j: int|
                0 <= j < self.clauses.len() && clause_in_range(#[trigger] self.clauses@[j]@, k as int)
                    ==> clause_holds(old(a)@, self.clauses@[j]@),
        ensures
            final(a).len() == self.spec_num_vars(),
            agree_below(final(a)@, old(a)@, k as int),
            r ==> clauses_hold(final(a)@, self.spec_clauses()),
            !r ==> forall|m: Seq<bool>|
                m.len() == self.spec_num_vars() && agree_below(m, old(a)@, k as int)
                    ==> !clauses_hold(m, self.spec_clauses()),
        decreases self.num_vars - k, 1int,
    {
        if k == self.num_vars {
            proof {
                assert forall|j: int| 0 <= j < self.spec_clauses().len() implies clause_holds(
                    a@,
                    #[trigger] self.spec_clauses()[j],
                ) by {
                    assert(self.spec_clauses()[j] == self.clauses@[j]@);
                    assert(clause_in_range(self.clauses@[j]@, k as int));
                }
            }
            return true;
        }
        let ghost a0 = a@;
        if self.try_value(a, k, false) {
            return true;
        }
        let ghost a1 = a@;
        proof {
            assert forall|j: int|
                0 <= j < self.clauses.len() && clause_in_range(#[trigger] self.clauses@[j]@, k as int)
                    implies clause_holds(a1, self.clauses@[j]@) by {
                lemma_clause_holds_agree(a1, a0, self.clauses@[j]@, k as int);
            }
        }
        let r = self.try_value(a, k, true);
        proof {
            if !r {
                assert forall|m: Seq<bool>|
                    m.len() == self.spec_num_vars() && agree_below(m, a0, k as int)
                        implies !clauses_hold(m, self.spec_clauses()) by {
                    assert(agree_below(m, a1, k as int));
                }
            }
            assert(agree_below(a@, a0, k as int));
        }
        r
    }

    /// Looks for an assignment satisfying every clause.
    ///
    /// Returns a model when the clauses are satisfiable, and `None` exactly
    /// when no assignment of the variables satisfies them all.
    pub fn solve(&mut self) -> (r: Option<SATModel>)
        requires
            old(self).wf(),
        ensures
            final(self).wf(),
            final(self).spec_clauses() == old(self).spec_clauses(),
            final(self).spec_num_vars() == old(self).spec_num_vars(),
            final(self).spec_backend() == old(self).spec_backend(),
            final(self).spec_exhausted() == old(self).spec_exhausted(),
            match r {
                Some(model) => model.values@.len() == old(self).spec_num_vars()
                    && clauses_hold(model.values@, old(self).spec_clauses()),
                None => forall|m: Seq<bool>|
                    m.len() == old(self).spec_num_vars() ==> !clauses_hold(m, old(self).spec_clauses()),
            },
    {
        if self.has_empty {
            proof {
                let j = choose|j: int| 0 <= j < self.clauses.len() && (#[trigger] self.clauses@[j]@).len() == 0;
                assert(self.spec_clauses()[j] == self.clauses@[j]@);
            }
            return None;
        }
        let mut a: Vec<bool> = Vec::new();
        let mut i: usize = 0;
        while i < self.num_vars
            invariant
                a.len() == i,
                i <= self.num_vars,
            decreases self.num_vars - i,
        {
            a.push(false);
            i += 1;
        }
        proof {
            assert forall|j: int|
                0 <= j < self.clauses.len() && clause_in_range(#[trigger] self.clauses@[j]@, 0)
                    implies clause_holds(a@, self.clauses@[j]@) by {
                assert(self.clauses@[j]@.len() != 0);
                assert(self.clauses@[j]@[0].spec_var().0 < 0);
            }
        }
        if self.search(&mut a, 0) {
            Some(SATModel { values: a })
        } else {
            None
        }
    }

    /// Whether the clauses are satisfiable.
    pub fn solve_without_model(&mut self) -> (r: bool)
        requires
            old(self).wf(),
        ensures
            final(self).wf(),
            final(self).spec_clauses() == old(self).spec_clauses(),
            final(self).spec_num_vars() == old(self).spec_num_vars(),
            final(self).spec_backend() == old(self).spec_backend(),
            final(self).spec_exhausted() == old(self).spec_exhausted(),
            r <==> exists|m: Seq<bool>|
                m.len() == old(self).spec_num_vars() && clauses_hold(m, old(self).spec_clauses()),
    {
        match self.solve() {
            Some(model) => {
                assert(clauses_hold(model.values@, old(self).spec_clauses()));
                true
            },
            None => false,
        }
    }

    /// Search statistics. This solver's exhaustive search keeps none, so
    /// each of them is reported as unavailable.
    pub fn stats(&self) -> (r: SATSolverStats)
        ensures
            r.decisions is None,
            r.propagations is None,
            r.conflicts is None,
    {
        SATSolverStats { decisions: None, propagations: None, conflicts: None }
    }
}

impl SATModel {
    pub fn assignment(&self, var: Var) -> (r: bool)
        requires
            0 <= var.0 < self.values@.len(),
        ensures
            r == self.values@[var.0 as int],
    {
        self.values[var.0 as usize]
    }

    pub fn assignment_lit(&self, lit: Lit) -> (r: bool)
        requires
            lit_wf(lit),
            lit.spec_var().0 < self.values@.len(),
        ensures
            r == lit_holds(self.values@, lit),
    {
        self.assignment(lit.var()) ^ lit.is_negated()
    }
}

impl SAT {
    /// Whether a request for a fresh variable ever found no room left.
    pub fn is_exhausted(&self) -> (r: bool)
        ensures
            r == self.spec_exhausted(),
    {
        self.exhausted
    }

    /// Adds a fresh variable if there is room for one; otherwise marks the
    /// instance as exhausted and hands back an existing variable.
    pub fn fresh_var(&mut self) -> (r: Var)
        requires
            old(self).wf(),
        ensures
            final(self).wf(),
            var_in_range(r),
            0 <= r.0 < final(self).spec_num_vars(),
            old(self).spec_num_vars() < NUM_VAR_MAX ==> r.0 == old(self).spec_num_vars()
                && final(self).spec_num_vars() == old(self).spec_num_vars() + 1
                && final(self).spec_exhausted() == old(self).spec_exhausted(),
            old(self).spec_num_vars() >= NUM_VAR_MAX ==> final(self).spec_num_vars() == old(self).spec_num_vars()
                && final(self).spec_exhausted(),
            final(self).spec_num_vars() >= old(self).spec_num_vars(),
            old(self).spec_exhausted() ==> final(self).spec_exhausted(),
            final(self).spec_clauses() == old(self).spec_clauses(),
            final(self).spec_backend() == old(self).spec_backend(),
    {
        if self.num_vars >= NUM_VAR_MAX {
            self.exhausted = true;
            Var(0)
        } else {
            self.new_var()
        }
    }

    /// `count` fresh variables as positive literals (see `fresh_var`).
    pub fn fresh_lits(&mut self, count: usize) -> (r: Vec<Lit>)
        requires
            old(self).wf(),
        ensures
            final(self).wf(),
            r@.len() == count,
            clause_in_range(r@, final(self).spec_num_vars() as int),
            forall|i: int| 0 <= i < count ==> !(#[trigger] r@[i]).spec_is_negated(),
            !final(self).spec_exhausted() ==> final(self).spec_num_vars() == old(self).spec_num_vars() + count
                && forall|i: int| 0 <= i < count ==> (#[trigger] r@[i]).spec_var().0 == old(self).spec_num_vars() + i,
            final(self).spec_num_vars() >= old(self).spec_num_vars(),
            old(self).spec_exhausted() ==> final(self).spec_exhausted(),
            final(self).spec_clauses() == old(self).spec_clauses(),
            final(self).spec_backend() == old(self).spec_backend(),
    {
        let mut lits: Vec<Lit> = Vec::new();
        let mut i: usize = 0;
        while i < count
            invariant
                self.wf(),
                i <= count,
                lits@.len() == i,
                clause_in_range(lits@, self.spec_num_vars() as int),
                forall|k: int| 0 <= k < i ==> !(#[trigger] lits@[k]).spec_is_negated(),
                !self.spec_exhausted() ==> self.spec_num_vars() == old(self).spec_num_vars() + i
                    && forall|k: int| 0 <= k < i ==> (#[trigger] lits@[k]).spec_var().0 == old(self).spec_num_vars() + k,
                self.spec_num_vars() >= old(self).spec_num_vars(),
                old(self).spec_exhausted() ==> self.spec_exhausted(),
                self.spec_clauses() == old(self).spec_clauses(),
                self.spec_backend() == old(self).spec_backend(),
            decreases count - i,
        {
            let v = self.fresh_var();
            let l = v.as_lit(false);
            lits.push(l);
            proof {
                assert forall|k: int| 0 <= k < lits@.len() implies lit_wf(#[trigger] lits@[k]) && lits@[k].spec_var().0 < self.spec_num_vars() by {
                    if k < i {
                        assert(lits@[k] == lits@.take(i as int)[k]);
                    }
                }
            }
            i += 1;
        }
        lits
    }
}


} // verus!
