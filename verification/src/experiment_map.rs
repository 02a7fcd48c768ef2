//! A map from experiment name to a value.

use vstd::prelude::*;

use crate::experiment_name::ExperimentName;
use crate::linear_map::LinearMap;

verus! {

/// Map from experiment name to a value.
pub struct ExperimentMap<A> {
    values: LinearMap<A>,
}

impl<A> ExperimentMap<A> {
    pub closed spec fn inner(self) -> LinearMap<A> {
        self.values
    }

    pub open spec fn spec_get(self, exp: ExperimentName) -> Option<A> {
        self.inner().spec_get(exp.index_spec())
    }

    pub open spec fn contains_key(self, exp: ExperimentName) -> bool {
        self.spec_get(exp) is Some
    }

    /// Only slots that an experiment name can reach ever hold a value.
    pub open spec fn well_formed(self) -> bool {
        forall|j: int| 5 <= j ==> !self.inner().contains_key(j)
    }

    /// The configured names, in baseline-relative order.
    pub open spec fn key_seq(self) -> Seq<ExperimentName> {
        (if self.contains_key(ExperimentName::A) {
            seq![ExperimentName::A]
        } else {
            Seq::empty()
        }) + (if self.contains_key(ExperimentName::B) {
            seq![ExperimentName::B]
        } else {
            Seq::empty()
        }) + (if self.contains_key(ExperimentName::C) {
            seq![ExperimentName::C]
        } else {
            Seq::empty()
        }) + (if self.contains_key(ExperimentName::D) {
            seq![ExperimentName::D]
        } else {
            Seq::empty()
        }) + (if self.contains_key(ExperimentName::E) {
            seq![ExperimentName::E]
        } else {
            Seq::empty()
        })
    }

    pub fn new() -> (r: ExperimentMap<A>)
        ensures
            forall|k: ExperimentName| !r.contains_key(k),
            r.well_formed(),
    {
        ExperimentMap { values: LinearMap::new() }
    }

    pub fn get(&self, exp: ExperimentName) -> (r: Option<&A>)
        ensures
            match r {
                Some(a) => self.spec_get(exp) == Some(*a),
                None => self.spec_get(exp) is None,
            },
    {
        self.values.get(exp.index())
    }

    pub fn insert(&mut self, exp: ExperimentName, value: A)
        ensures
            final(self).spec_get(exp) == Some(value),
            forall|k: ExperimentName| k.index_spec() != exp.index_spec()
                ==> final(self).spec_get(k) == old(self).spec_get(k),
            old(self).well_formed() ==> final(self).well_formed(),
    {
        self.values.insert(exp.index(), value);
        proof {
            if old(self).well_formed() {
                assert forall|j: int| 5 <= j implies !final(self).inner().contains_key(j) by {
                    assert(exp.index_spec() < 5);
                    assert(final(self).inner().spec_get(j) == old(self).inner().spec_get(j));
                    assert(!old(self).inner().contains_key(j));
                }
            }
        }
    }

    /// Remove and return the value stored under `exp`.
    pub fn take(&mut self, exp: ExperimentName) -> (r: Option<A>)
        ensures
            r == old(self).spec_get(exp),
            final(self).spec_get(exp) is None,
            forall|k: ExperimentName| k.index_spec() != exp.index_spec()
                ==> final(self).spec_get(k) == old(self).spec_get(k),
            old(self).well_formed() ==> final(self).well_formed(),
    {
        let r = self.values.take(exp.index());
        proof {
            if old(self).well_formed() {
                assert forall|j: int| 5 <= j implies !final(self).inner().contains_key(j) by {
                    assert(exp.index_spec() < 5);
                    assert(final(self).inner().spec_get(j) == old(self).inner().spec_get(j));
                    assert(!old(self).inner().contains_key(j));
                }
            }
        }
        r
    }

    /// The names that hold a value, in baseline-relative order.
    pub fn keys(&self) -> (r: Vec<ExperimentName>)
        ensures
            r@ == self.key_seq(),
            forall|k: int| 0 <= k < r@.len() ==> self.contains_key(#[trigger] r@[k]),
            forall|a: int, b: int| 0 <= a < b < r@.len() ==> r@[a].index_spec()
                < r@[b].index_spec(),
            forall|key: ExperimentName| self.contains_key(key) ==> exists|k: int|
                0 <= k < r@.len() && (#[trigger] r@[k]).index_spec() == key.index_spec(),
    {
        let mut r: Vec<ExperimentName> = Vec::new();
        if self.get(ExperimentName::A).is_some() {
            r.push(ExperimentName::A);
        }
        if self.get(ExperimentName::B).is_some() {
            r.push(ExperimentName::B);
        }
        if self.get(ExperimentName::C).is_some() {
            r.push(ExperimentName::C);
        }
        if self.get(ExperimentName::D).is_some() {
            r.push(ExperimentName::D);
        }
        if self.get(ExperimentName::E).is_some() {
            r.push(ExperimentName::E);
        }
        proof {
            assert(r@ =~= self.key_seq());
            assert forall|key: ExperimentName| self.contains_key(key) implies exists|k: int|
                0 <= k < r@.len() && (#[trigger] r@[k]).index_spec() == key.index_spec() by {
                let ia: int = if self.contains_key(ExperimentName::A) { 1int } else { 0int };
                let ib: int = ia + if self.contains_key(ExperimentName::B) { 1int } else { 0int };
                let ic: int = ib + if self.contains_key(ExperimentName::C) { 1int } else { 0int };
                let id: int = ic + if self.contains_key(ExperimentName::D) { 1int } else { 0int };
                match key {
                    ExperimentName::A => {
                        assert(r@[0].index_spec() == key.index_spec());
                    },
                    ExperimentName::B => {
                        assert(r@[ia].index_spec() == key.index_spec());
                    },
                    ExperimentName::C => {
                        assert(r@[ib].index_spec() == key.index_spec());
                    },
                    ExperimentName::D => {
                        assert(r@[ic].index_spec() == key.index_spec());
                    },
                    ExperimentName::E => {
                        assert(r@[id].index_spec() == key.index_spec());
                    },
                }
            }
        }
        r
    }

    /// The stored values, in baseline-relative order.
    pub fn values(&self) -> (r: Vec<&A>)
        ensures
            r@.len() == crate::linear_map::values_spec(self.inner().slots()).len(),
            forall|k: int| 0 <= k < r@.len() ==> *(#[trigger] r@[k])
                == crate::linear_map::values_spec(self.inner().slots())[k],
    {
        self.values.values()
    }

    /// How many names hold a value.
    pub fn count(&self) -> (r: usize)
        ensures
            r as int == crate::linear_map::count_some(self.inner().slots()),
    {
        self.values.count()
    }
}

impl<A> Default for ExperimentMap<A> {
    /// The empty map.
    fn default() -> (r: ExperimentMap<A>)
        ensures
            forall|k: ExperimentName| !r.contains_key(k),
            r.well_formed(),
    {
        ExperimentMap::new()
    }
}

} // verus!
