//! The quantities tracked per run.

use vstd::prelude::*;

verus! {

/// One measured quantity: wall-clock time or peak resident memory.
#[derive(Clone, Copy, Debug, PartialEq, Eq, Hash, Structural)]
pub enum MeasureKey {
    WallTime,
    MaxRss,
}

impl MeasureKey {
    /// Every measure, in reporting order.
    pub fn all() -> (r: [MeasureKey; 2])
        ensures
            r@ == seq![MeasureKey::WallTime, MeasureKey::MaxRss],
    {
        let r = [MeasureKey::WallTime, MeasureKey::MaxRss];
        proof {
            assert(r@ =~= seq![MeasureKey::WallTime, MeasureKey::MaxRss]);
        }
        r
    }

    pub open spec fn index_spec(self) -> int {
        match self {
            MeasureKey::WallTime => 0,
            MeasureKey::MaxRss => 1,
        }
    }

    pub fn index(&self) -> (r: usize)
        ensures
            r == self.index_spec(),
    {
        match self {
            MeasureKey::WallTime => 0,
            MeasureKey::MaxRss => 1,
        }
    }

    /// The measure with the given position; other positions are a caller
    /// error.
    pub fn from_index(index: usize) -> (r: MeasureKey)
        requires
            index < 2,
        ensures
            r.index_spec() == index,
    {
        match index {
            0 => MeasureKey::WallTime,
            _ => MeasureKey::MaxRss,
        }
    }
}

} // verus!
