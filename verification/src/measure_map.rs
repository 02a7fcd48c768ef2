//! A map from measure key to a value.

use vstd::prelude::*;

use crate::linear_map::LinearMap;
use crate::measure_key::MeasureKey;

verus! {

/// Map from measure key to a value.
pub struct MeasureMap<A> {
    values: LinearMap<A>,
}

impl<A> MeasureMap<A> {
    pub open spec fn spec_get(self, key: MeasureKey) -> Option<A> {
        self.inner().spec_get(key.index_spec())
    }

    pub closed spec fn inner(self) -> LinearMap<A> {
        self.values
    }

    pub open spec fn contains_key(self, key: MeasureKey) -> bool {
        self.spec_get(key) is Some
    }

    /// Only slots that a measure key can reach ever hold a value.
    pub open spec fn well_formed(self) -> bool {
        forall|j: int| 2 <= j ==> !self.inner().contains_key(j)
    }

    pub fn new() -> (r: MeasureMap<A>)
        ensures
            forall|k: MeasureKey| !r.contains_key(k),
            r.well_formed(),
    {
        MeasureMap { values: LinearMap::new() }
    }

    pub fn get(&self, key: MeasureKey) -> (r: Option<&A>)
        ensures
            match r {
                Some(a) => self.spec_get(key) == Some(*a),
                None => self.spec_get(key) is None,
            },
    {
        self.values.get(key.index())
    }

    pub fn insert(&mut self, key: MeasureKey, value: A)
        ensures
            final(self).spec_get(key) == Some(value),
            forall|k: MeasureKey| k.index_spec() != key.index_spec()
                ==> final(self).spec_get(k) == old(self).spec_get(k),
            old(self).well_formed() ==> final(self).well_formed(),
    {
        self.values.insert(key.index(), value);
        proof {
            if old(self).well_formed() {
                assert forall|j: int| 2 <= j implies !final(self).inner().contains_key(j) by {
                    assert(key.index_spec() < 2);
                    assert(final(self).inner().spec_get(j) == old(self).inner().spec_get(j));
                    assert(!old(self).inner().contains_key(j));
                }
            }
        }
    }

    /// Remove and return the value stored under `key`.
    pub fn take(&mut self, key: MeasureKey) -> (r: Option<A>)
        ensures
            r == old(self).spec_get(key),
            final(self).spec_get(key) is None,
            forall|k: MeasureKey| k.index_spec() != key.index_spec()
                ==> final(self).spec_get(k) == old(self).spec_get(k),
            old(self).well_formed() ==> final(self).well_formed(),
    {
        let r = self.values.take(key.index());
        proof {
            if old(self).well_formed() {
                assert forall|j: int| 2 <= j implies !final(self).inner().contains_key(j) by {
                    assert(key.index_spec() < 2);
                    assert(final(self).inner().spec_get(j) == old(self).inner().spec_get(j));
                    assert(!old(self).inner().contains_key(j));
                }
            }
        }
        r
    }

    /// The keys that hold a value, in reporting order.
    pub fn keys(&self) -> (r: Vec<MeasureKey>)
        requires
            self.well_formed(),
        ensures
            forall|k: int| 0 <= k < r@.len() ==> self.contains_key(#[trigger] r@[k]),
            forall|a: int, b: int| 0 <= a < b < r@.len() ==> r@[a].index_spec()
                < r@[b].index_spec(),
            forall|key: MeasureKey| self.contains_key(key) ==> exists|k: int|
                0 <= k < r@.len() && (#[trigger] r@[k]).index_spec() == key.index_spec(),
    {
        let idx = self.values.keys();
        let mut r: Vec<MeasureKey> = Vec::new();
        let mut i: usize = 0;
        while i < idx.len()
            invariant
                self.well_formed(),
                i <= idx@.len(),
                r@.len() == i,
                forall|k: int| 0 <= k < idx@.len() ==> self.inner().contains_key(
                    #[trigger] idx@[k] as int),
                forall|a: int, b: int| 0 <= a < b < idx@.len() ==> idx@[a] < idx@[b],
                forall|j: int| 0 <= j < self.inner().slots().len() && self.inner().contains_key(j)
                    ==> idx@.contains(j as usize),
                forall|k: int| 0 <= k < i ==> (#[trigger] r@[k]).index_spec() == idx@[k],
            decreases idx@.len() - i,
        {
            let ix = idx[i];
            if ix < 2 {
                r.push(MeasureKey::from_index(ix));
            } else {
                proof {
                    assert(self.inner().contains_key(idx@[i as int] as int));
                    assert(false);
                }
                r.push(MeasureKey::MaxRss);
            }
            i += 1;
        }
        proof {
            assert forall|key: MeasureKey| self.contains_key(key) implies exists|k: int|
                0 <= k < r@.len() && (#[trigger] r@[k]).index_spec() == key.index_spec() by {
                assert(self.inner().contains_key(key.index_spec()));
                assert(idx@.contains(key.index_spec() as usize));
                let k = choose|k: int| 0 <= k < idx@.len() && idx@[k] == key.index_spec() as usize;
                assert(r@[k].index_spec() == key.index_spec());
            }
        }
        r
    }

    /// The stored values, in reporting order.
    pub fn values(&self) -> (r: Vec<&A>)
        ensures
            r@.len() == crate::linear_map::values_spec(self.inner().slots()).len(),
            forall|k: int| 0 <= k < r@.len() ==> *(#[trigger] r@[k])
                == crate::linear_map::values_spec(self.inner().slots())[k],
    {
        self.values.values()
    }

    /// How many keys hold a value.
    pub fn count(&self) -> (r: usize)
        ensures
            r as int == crate::linear_map::count_some(self.inner().slots()),
    {
        self.values.count()
    }
}

impl<A: Default> MeasureMap<A> {
    /// A map holding the default value under every measure key.
    pub fn new_all_default() -> (r: MeasureMap<A>)
        ensures
            forall|k: MeasureKey| r.contains_key(k),
            r.well_formed(),
    {
        let mut map = MeasureMap::new();
        let keys = MeasureKey::all();
        map.insert(keys[0], A::default());
        map.insert(keys[1], A::default());
        proof {
            assert forall|k: MeasureKey| map.contains_key(k) by {
                assert(k.index_spec() == 0 || k.index_spec() == 1);
            }
        }
        map
    }
}

} // verus!
