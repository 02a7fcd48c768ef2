//! The two measures: what each is called and how its numbers read in the
//! statistics table.

use vstd::prelude::*;

use crate::measure_key::MeasureKey;
use crate::text::dec_spec;
use crate::text::millis_text_spec;
use crate::text::millis_to_text;
use crate::text::u64_to_dec;

verus! {

/// The wall-clock time measure.
pub struct WallTime;

/// The peak-resident-memory measure.
pub struct MaxRss;

pub const NANOS_PER_MILLI_U64: u64 = 1_000_000;
pub const BYTES_PER_MIB: u64 = 0x10_0000;

impl WallTime {
    pub fn name(&self) -> (r: &'static str)
        ensures
            r@ == "Time (in seconds)"@,
    {
        "Time (in seconds)"
    }

    pub fn id(&self) -> (r: &'static str)
        ensures
            r@ == "wall-time"@,
    {
        "wall-time"
    }
}

impl MaxRss {
    pub fn name(&self) -> (r: &'static str)
        ensures
            r@ == "Max RSS (in megabytes)"@,
    {
        "Max RSS (in megabytes)"
    }

    pub fn id(&self) -> (r: &'static str)
        ensures
            r@ == "max-rss"@,
    {
        "max-rss"
    }
}

/// How a number of base units reads in the statistics table: wall time as
/// seconds with three decimals, memory as whole mebibytes.
pub open spec fn measure_number_text(key: MeasureKey, units: int) -> Seq<char> {
    match key {
        MeasureKey::WallTime => millis_text_spec(units / 1_000_000),
        MeasureKey::MaxRss => dec_spec(units / 0x10_0000),
    }
}

impl MeasureKey {
    pub fn name(&self) -> (r: &'static str)
        ensures
            self is WallTime ==> r@ == "Time (in seconds)"@,
            self is MaxRss ==> r@ == "Max RSS (in megabytes)"@,
    {
        match self {
            MeasureKey::WallTime => "Time (in seconds)",
            MeasureKey::MaxRss => "Max RSS (in megabytes)",
        }
    }

    pub fn id(&self) -> (r: &'static str)
        ensures
            self is WallTime ==> r@ == "wall-time"@,
            self is MaxRss ==> r@ == "max-rss"@,
    {
        match self {
            MeasureKey::WallTime => "wall-time",
            MeasureKey::MaxRss => "max-rss",
        }
    }

    /// Render a number of base units for the statistics table.
    pub fn format_number(&self, units: u64) -> (r: String)
        ensures
            r@ == measure_number_text(*self, units as int),
    {
        match self {
            MeasureKey::WallTime => millis_to_text(units / NANOS_PER_MILLI_U64),
            MeasureKey::MaxRss => u64_to_dec(units / BYTES_PER_MIB),
        }
    }
}

} // verus!
