use vstd::prelude::*;

verus! {

/// Outcome of a refinement step on a variable or a set of variables.
#[derive(Clone, Copy, Debug, PartialEq, Eq, Structural)]
pub enum UpdateStatus {
    NotUpdated,
    Updated,
    Unsatisfiable,
}

/// The join of two statuses: unsatisfiability dominates, then any update.
pub open spec fn status_join(a: UpdateStatus, b: UpdateStatus) -> UpdateStatus {
    if a == UpdateStatus::Unsatisfiable || b == UpdateStatus::Unsatisfiable {
        UpdateStatus::Unsatisfiable
    } else if a == UpdateStatus::Updated || b == UpdateStatus::Updated {
        UpdateStatus::Updated
    } else {
        UpdateStatus::NotUpdated
    }
}

impl UpdateStatus {
    /// Combines two statuses (the `|` of the two outcomes).
    pub fn or(self, rhs: UpdateStatus) -> (r: UpdateStatus)
        ensures
            r == status_join(self, rhs),
    {
        match (self, rhs) {
            (UpdateStatus::Unsatisfiable, _) | (_, UpdateStatus::Unsatisfiable) => {
                UpdateStatus::Unsatisfiable
            },
            (UpdateStatus::Updated, _) | (_, UpdateStatus::Updated) => UpdateStatus::Updated,
            _ => UpdateStatus::NotUpdated,
        }
    }

    /// In-place combination (`|=`).
    pub fn or_assign(&mut self, rhs: UpdateStatus)
        ensures
            *final(self) == status_join(*old(self), rhs),
    {
        *self = self.or(rhs);
    }
}

/// Combining statuses is commutative, associative, idempotent and has
/// `NotUpdated` as its neutral element.
pub proof fn lemma_status_join_laws(a: UpdateStatus, b: UpdateStatus, c: UpdateStatus)
    ensures
        status_join(a, b) == status_join(b, a),
        status_join(status_join(a, b), c) == status_join(a, status_join(b, c)),
        status_join(a, a) == a,
        status_join(a, UpdateStatus::NotUpdated) == a,
        status_join(a, UpdateStatus::Unsatisfiable) == UpdateStatus::Unsatisfiable,
{
}

/// Keys of a `ConvertMap`: anything that names a slot by a dense index.
pub trait ConvertMapIndex {
    spec fn spec_to_index(&self) -> usize;

    fn to_index(&self) -> (r: usize)
        ensures
            r == self.spec_to_index(),
    ;
}

/// A dense map from indexed keys to optional values. Slots that were never
/// written read as `None`.
pub struct ConvertMap<K: ConvertMapIndex, V> {
    data: Vec<Option<V>>,
    default: Option<V>,
    key_type: core::marker::PhantomData<K>,
}

impl<K: ConvertMapIndex, V> ConvertMap<K, V> {
    /// The value stored at slot `i` (`None` when never written).
    pub open spec fn slot(&self, i: int) -> Option<V> {
        if 0 <= i < self.spec_len() {
            self.spec_data()[i]
        } else {
            None
        }
    }

    pub closed spec fn spec_data(&self) -> Seq<Option<V>> {
        self.data@
    }

    pub open spec fn spec_len(&self) -> nat {
        self.spec_data().len()
    }

    pub closed spec fn wf(&self) -> bool {
        self.default is None
    }

    pub fn new() -> (r: ConvertMap<K, V>)
        ensures
            r.wf(),
            r.spec_len() == 0,
            forall|i: int| #[trigger] r.slot(i) == None::<V>,
    {
        ConvertMap { data: Vec::new(), default: None, key_type: core::marker::PhantomData }
    }

    pub fn len(&self) -> (r: usize)
        ensures
            r == self.spec_len(),
    {
        self.data.len()
    }

    /// Reads the value for `key`.
    pub fn get(&self, key: &K) -> (r: &Option<V>)
        requires
            self.wf(),
        ensures
            *r == self.slot(key.spec_to_index() as int),
    {
        let index = key.to_index();
        if index < self.data.len() {
            &self.data[index]
        } else {
            &self.default
        }
    }

    /// Writes `value` for `key`, growing the storage as needed.
    pub fn set(&mut self, key: &K, value: Option<V>)
        requires
            old(self).wf(),
        ensures
            final(self).wf(),
            final(self).slot(key.spec_to_index() as int) == value,
            forall|i: int|
                i != key.spec_to_index() ==> #[trigger] final(self).slot(i) == old(self).slot(i),
            final(self).spec_len() >= old(self).spec_len(),
            final(self).spec_len() > key.spec_to_index(),
    {
        let index = key.to_index();
        while self.data.len() <= index
            invariant
                self.wf(),
                forall|i: int| #[trigger] self.slot(i) == old(self).slot(i),
                self.spec_len() >= old(self).spec_len(),
            decreases index + 1 - self.data.len(),
        {
            let ghost prev = self.data@;
            let ghost prev_slots = Seq::new(prev.len() + 1, |i: int| self.slot(i));
            self.data.push(None);
            assert(self.data@ == prev.push(None));
            assert forall|i: int| #[trigger] self.slot(i) == old(self).slot(i) by {
                if 0 <= i < prev.len() {
                    assert(self.data@[i] == prev[i]);
                    assert(prev_slots[i] == old(self).slot(i));
                }
            }
        }
        let ghost prev = self.data@;
        let ghost prev_slots = Seq::new(prev.len(), |i: int| self.slot(i));
        self.data.set(index, value);
        assert forall|i: int| i != key.spec_to_index() implies #[trigger] self.slot(i) == old(self).slot(i) by {
            if 0 <= i < prev.len() {
                assert(self.data@[i] == prev[i]);
                assert(prev_slots[i] == old(self).slot(i));
            }
        }
    }
}

impl<K: ConvertMapIndex, V: Copy> ConvertMap<K, V> {
    /// The written slots with their values, by increasing index.
    pub fn entries(&self) -> (r: Vec<(usize, V)>)
        ensures
            forall|a: int, b: int| 0 <= a < b < r@.len() ==> r@[a].0 < r@[b].0,
            forall|a: int| 0 <= a < r@.len() ==> self.slot(#[trigger] r@[a].0 as int) == Some(r@[a].1),
            forall|i: int|
                #[trigger] self.slot(i) is Some ==> exists|a: int| 0 <= a < r@.len() && r@[a].0 == i,
    {
        let mut r: Vec<(usize, V)> = Vec::new();
        let mut i: usize = 0;
        while i < self.data.len()
            invariant
                i <= self.data@.len(),
                forall|a: int, b: int| 0 <= a < b < r@.len() ==> r@[a].0 < r@[b].0,
                forall|a: int| 0 <= a < r@.len() ==> r@[a].0 < i,
                forall|a: int| 0 <= a < r@.len() ==> self.slot(#[trigger] r@[a].0 as int) == Some(r@[a].1),
                forall|k: int|
                    0 <= k < i && #[trigger] self.slot(k) is Some ==> exists|a: int| 0 <= a < r@.len() && r@[a].0 == k,
            decreases self.data@.len() - i,
        {
            match &self.data[i] {
                Some(v) => {
                    let ghost prev = r@;
                    r.push((i, *v));
                    proof {
                        assert forall|k: int| 0 <= k < i + 1 && #[trigger] self.slot(k) is Some implies exists|a: int| 0 <= a < r@.len() && r@[a].0 == k by {
                            if k == i {
                                assert(r@[prev.len() as int].0 == k);
                            } else {
                                let a = choose|a: int| 0 <= a < prev.len() && prev[a].0 == k;
                                assert(r@[a] == prev[a]);
                            }
                        }
                    }
                },
                None => {},
            }
            i += 1;
        }
        proof {
            assert forall|k: int| #[trigger] self.slot(k) is Some implies exists|a: int| 0 <= a < r@.len() && r@[a].0 == k by {
                assert(0 <= k < self.data@.len());
            }
        }
        r
    }
}

} // verus!
