//! Peak resident memory sizes, counted in bytes.

use vstd::prelude::*;

use crate::number::Number;

verus! {

/// An amount of memory, counted in bytes.
#[derive(Clone, Copy, Debug, PartialEq, Eq, Structural)]
pub struct MemUsage {
    bytes: u64,
}

impl MemUsage {
    pub closed spec fn spec_bytes(self) -> u64 {
        self.bytes
    }

    pub fn from_bytes(bytes: u64) -> (r: MemUsage)
        ensures
            r.spec_bytes() == bytes,
    {
        MemUsage { bytes }
    }

    /// Whole mebibytes contained in this amount.
    pub fn mib(&self) -> (r: u64)
        ensures
            r == self.spec_bytes() / 0x10_0000,
    {
        self.bytes / 0x10_0000
    }

    pub fn bytes(&self) -> (r: u64)
        ensures
            r == self.spec_bytes(),
    {
        self.bytes
    }
}

impl Default for MemUsage {
    /// The zero amount.
    fn default() -> (r: MemUsage)
        ensures
            r.spec_bytes() == 0,
    {
        MemUsage { bytes: 0 }
    }
}

impl Number for MemUsage {
    open spec fn units(self) -> u64 {
        self.spec_bytes()
    }

    fn from_units(u: u64) -> (r: Self) {
        MemUsage { bytes: u }
    }

    fn to_units(&self) -> (r: u64) {
        self.bytes
    }

    proof fn lemma_units_injective(a: Self, b: Self) {
    }
}

} // verus!
