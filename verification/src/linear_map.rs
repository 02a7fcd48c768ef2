//! A map from small integers to values, stored densely.

use vstd::prelude::*;
use vstd::pervasive::VecAdditionalExecFns;

verus! {

/// Map from a small integer to a value.
pub struct LinearMap<A> {
    values: Vec<Option<A>>,
}

impl<A> LinearMap<A> {
    /// The dense storage: one slot per index up to the largest ever inserted.
    pub closed spec fn slots(self) -> Seq<Option<A>> {
        self.values@
    }

    /// The value at `index`, or nothing.
    pub open spec fn spec_get(self, index: int) -> Option<A> {
        if 0 <= index < self.slots().len() {
            self.slots()[index]
        } else {
            None
        }
    }

    pub open spec fn contains_key(self, index: int) -> bool {
        self.spec_get(index) is Some
    }

    pub fn new() -> (r: LinearMap<A>)
        ensures
            r.slots() == Seq::<Option<A>>::empty(),
            forall|i: int| !r.contains_key(i),
    {
        let r = LinearMap { values: Vec::new() };
        proof {
            assert(r.values@ =~= Seq::<Option<A>>::empty());
        }
        r
    }

    pub fn get(&self, index: usize) -> (r: Option<&A>)
        ensures
            match r {
                Some(a) => self.spec_get(index as int) == Some(*a),
                None => self.spec_get(index as int) is None,
            },
    {
        match self.values.get(index) {
            Some(slot) => slot.as_ref(),
            None => None,
        }
    }

    /// Store `value` at `index`, growing the storage as needed.
    pub fn insert(&mut self, index: usize, value: A)
        ensures
            final(self).spec_get(index as int) == Some(value),
            forall|j: int| j != index ==> final(self).spec_get(j) == old(self).spec_get(j),
            final(self).slots().len() == if index < old(self).slots().len() {
                old(self).slots().len() as int
            } else {
                index + 1
            },
    {
        let ghost old_self = *self;
        while self.values.len() <= index
            invariant
                forall|j: int| 0 <= j < old_self.slots().len() ==> self.slots()[j]
                    == old_self.slots()[j],
                self.slots().len() >= old_self.slots().len(),
                self.slots().len() == old_self.slots().len() || self.slots().len() <= index + 1,
                forall|j: int| old_self.slots().len() <= j < self.slots().len() ==> self.slots()[
                    j] is None,
            decreases index + 1 - self.values.len(),
        {
            self.values.push(None);
        }
        self.values.set(index, Some(value));
    }

    /// Remove and return the value at `index`.
    pub fn take(&mut self, index: usize) -> (r: Option<A>)
        ensures
            r == old(self).spec_get(index as int),
            final(self).spec_get(index as int) is None,
            forall|j: int| j != index ==> final(self).spec_get(j) == old(self).spec_get(j),
            final(self).slots().len() == old(self).slots().len(),
    {
        if index < self.values.len() {
            let mut slot: Option<A> = None;
            let elem = &mut self.values[index];
            core::mem::swap(elem, &mut slot);
            slot
        } else {
            None
        }
    }

    /// The indices that hold a value, in increasing order.
    pub fn keys(&self) -> (r: Vec<usize>)
        ensures
            forall|k: int| 0 <= k < r@.len() ==> self.contains_key(#[trigger] r@[k] as int),
            forall|a: int, b: int| 0 <= a < b < r@.len() ==> r@[a] < r@[b],
            forall|i: int| 0 <= i < self.slots().len() && self.contains_key(i) ==> r@.contains(
                i as usize),
    {
        let mut r: Vec<usize> = Vec::new();
        let mut i: usize = 0;
        while i < self.values.len()
            invariant
                i <= self.slots().len(),
                forall|k: int| 0 <= k < r@.len() ==> #[trigger] r@[k] < i && self.contains_key(
                    r@[k] as int),
                forall|a: int, b: int| 0 <= a < b < r@.len() ==> r@[a] < r@[b],
                forall|j: int| 0 <= j < i && self.contains_key(j) ==> r@.contains(j as usize),
            decreases self.slots().len() - i,
        {
            let ghost old_r = r@;
            let present = match self.values.get(i) {
                Some(slot) => slot.is_some(),
                None => false,
            };
            if present {
                r.push(i);
            }
            proof {
                assert forall|j: int| 0 <= j < i + 1 && self.contains_key(j) implies r@.contains(
                    j as usize) by {
                    if j < i {
                        assert(old_r.contains(j as usize));
                        let k = choose|k: int| 0 <= k < old_r.len() && old_r[k] == j as usize;
                        assert(r@[k] == j as usize);
                    } else {
                        assert(present);
                        assert(r@[r@.len() - 1] == i);
                    }
                }
            }
            i += 1;
        }
        r
    }

    /// The stored values, in index order.
    pub fn values(&self) -> (r: Vec<&A>)
        ensures
            r@.len() == values_spec(self.slots()).len(),
            forall|k: int| 0 <= k < r@.len() ==> *(#[trigger] r@[k]) == values_spec(
                self.slots())[k],
    {
        let mut r: Vec<&A> = Vec::new();
        let mut i: usize = 0;
        proof {
            assert(self.slots().take(0) =~= Seq::<Option<A>>::empty());
        }
        while i < self.values.len()
            invariant
                i <= self.slots().len(),
                r@.len() == values_spec(self.slots().take(i as int)).len(),
                forall|k: int| 0 <= k < r@.len() ==> *(#[trigger] r@[k]) == values_spec(
                    self.slots().take(i as int))[k],
            decreases self.slots().len() - i,
        {
            proof {
                assert(self.slots().take(i + 1).drop_last() =~= self.slots().take(i as int));
                assert(self.slots().take(i + 1).last() == self.slots()[i as int]);
            }
            match self.values.get(i) {
                Some(slot) => match slot.as_ref() {
                    Some(v) => {
                        r.push(v);
                    },
                    None => {},
                },
                None => {},
            }
            i += 1;
        }
        proof {
            assert(self.slots().take(self.slots().len() as int) =~= self.slots());
        }
        r
    }

    /// The filled indices with their values, in index order.
    pub fn iter(&self) -> (r: Vec<(usize, &A)>)
        ensures
            forall|k: int| 0 <= k < r@.len() ==> self.spec_get((#[trigger] r@[k]).0 as int)
                == Some(*r@[k].1),
            forall|a: int, b: int| 0 <= a < b < r@.len() ==> r@[a].0 < r@[b].0,
            forall|i: int| 0 <= i < self.slots().len() && self.contains_key(i) ==> exists|k: int|
                0 <= k < r@.len() && (#[trigger] r@[k]).0 == i,
    {
        let mut r: Vec<(usize, &A)> = Vec::new();
        let mut i: usize = 0;
        while i < self.values.len()
            invariant
                i <= self.slots().len(),
                forall|k: int| 0 <= k < r@.len() ==> (#[trigger] r@[k]).0 < i && self.spec_get(
                    r@[k].0 as int) == Some(*r@[k].1),
                forall|a: int, b: int| 0 <= a < b < r@.len() ==> r@[a].0 < r@[b].0,
                forall|j: int| 0 <= j < i && self.contains_key(j) ==> exists|k: int|
                    0 <= k < r@.len() && (#[trigger] r@[k]).0 == j,
            decreases self.slots().len() - i,
        {
            let ghost old_r = r@;
            match self.values.get(i) {
                Some(slot) => match slot.as_ref() {
                    Some(v) => {
                        r.push((i, v));
                    },
                    None => {},
                },
                None => {},
            }
            proof {
                assert forall|j: int| 0 <= j < i + 1 && self.contains_key(j) implies exists|
                    k: int| 0 <= k < r@.len() && (#[trigger] r@[k]).0 == j by {
                    if j < i {
                        let k = choose|k: int| 0 <= k < old_r.len() && (#[trigger] old_r[k]).0
                            == j;
                        assert(r@[k].0 == j);
                    } else {
                        assert(r@[r@.len() - 1].0 == i);
                    }
                }
            }
            i += 1;
        }
        r
    }

    /// How many indices hold a value.
    pub fn count(&self) -> (r: usize)
        ensures
            r as int == count_some(self.slots()),
    {
        let mut c: usize = 0;
        let mut i: usize = 0;
        let n = self.values.len();
        proof {
            assert(self.slots().take(0) =~= Seq::<Option<A>>::empty());
            lemma_count_some_bound(self.slots());
        }
        while i < n
            invariant
                n == self.slots().len(),
                i <= self.slots().len(),
                c as int == count_some(self.slots().take(i as int)),
                count_some(self.slots()) <= self.slots().len(),
                self.slots().len() <= usize::MAX,
            decreases self.slots().len() - i,
        {
            proof {
                assert(self.slots().take(i + 1).drop_last() =~= self.slots().take(i as int));
                assert(self.slots().take(i + 1).last() == self.slots()[i as int]);
                lemma_count_some_prefix(self.slots(), i + 1);
                lemma_count_some_bound(self.slots().take(i as int));
            }
            let present = match self.values.get(i) {
                Some(slot) => slot.is_some(),
                None => false,
            };
            if present {
                c += 1;
            }
            i += 1;
        }
        proof {
            assert(self.slots().take(self.slots().len() as int) =~= self.slots());
        }
        c
    }
}

/// The stored values of the filled slots, in order.
pub open spec fn values_spec<A>(s: Seq<Option<A>>) -> Seq<A>
    decreases s.len(),
{
    if s.len() == 0 {
        Seq::empty()
    } else if s.last() is Some {
        values_spec(s.drop_last()).push(s.last()->0)
    } else {
        values_spec(s.drop_last())
    }
}

/// The number of filled slots.
pub open spec fn count_some<A>(s: Seq<Option<A>>) -> int
    decreases s.len(),
{
    if s.len() == 0 {
        0
    } else {
        count_some(s.drop_last()) + if s.last() is Some {
            1int
        } else {
            0int
        }
    }
}

proof fn lemma_count_some_bound<A>(s: Seq<Option<A>>)
    ensures
        0 <= count_some(s) <= s.len(),
    decreases s.len(),
{
    if s.len() > 0 {
        lemma_count_some_bound(s.drop_last());
    }
}

proof fn lemma_count_some_prefix<A>(s: Seq<Option<A>>, i: int)
    requires
        0 <= i <= s.len(),
    ensures
        count_some(s.take(i)) <= count_some(s),
    decreases s.len() - i,
{
    if i == s.len() {
        assert(s.take(i) =~= s);
    } else {
        lemma_count_some_prefix(s, i + 1);
        assert(s.take(i + 1).drop_last() =~= s.take(i));
    }
}

} // verus!
