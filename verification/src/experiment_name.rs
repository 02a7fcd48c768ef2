//! The letter names of the configured variants.

use vstd::prelude::*;

use crate::ansi;
use crate::ansi::AnsiColor;

verus! {

/// One configured variant, by letter; the first is the baseline.
#[derive(Clone, Copy, Debug, PartialEq, Eq, Structural)]
pub enum ExperimentName {
    A,
    B,
    C,
    D,
    E,
}

impl ExperimentName {
    /// Every variant name, in baseline-relative order.
    pub fn all() -> (r: [ExperimentName; 5])
        ensures
            r@ == seq![
                ExperimentName::A,
                ExperimentName::B,
                ExperimentName::C,
                ExperimentName::D,
                ExperimentName::E,
            ],
    {
        let r = [
            ExperimentName::A,
            ExperimentName::B,
            ExperimentName::C,
            ExperimentName::D,
            ExperimentName::E,
        ];
        proof {
            assert(r@ =~= seq![
                ExperimentName::A,
                ExperimentName::B,
                ExperimentName::C,
                ExperimentName::D,
                ExperimentName::E,
            ]);
        }
        r
    }

    pub open spec fn index_spec(self) -> int {
        match self {
            ExperimentName::A => 0,
            ExperimentName::B => 1,
            ExperimentName::C => 2,
            ExperimentName::D => 3,
            ExperimentName::E => 4,
        }
    }

    pub fn index(&self) -> (r: usize)
        ensures
            r == self.index_spec(),
    {
        match self {
            ExperimentName::A => 0,
            ExperimentName::B => 1,
            ExperimentName::C => 2,
            ExperimentName::D => 3,
            ExperimentName::E => 4,
        }
    }

    /// The variant with the given position; positions past the last variant
    /// are a caller error.
    pub fn from_index(index: usize) -> (r: ExperimentName)
        requires
            index < 5,
        ensures
            r.index_spec() == index,
    {
        match index {
            0 => ExperimentName::A,
            1 => ExperimentName::B,
            2 => ExperimentName::C,
            3 => ExperimentName::D,
            _ => ExperimentName::E,
        }
    }

    pub open spec fn name_spec(self) -> Seq<char> {
        match self {
            ExperimentName::A => seq!['A'],
            ExperimentName::B => seq!['B'],
            ExperimentName::C => seq!['C'],
            ExperimentName::D => seq!['D'],
            ExperimentName::E => seq!['E'],
        }
    }

    pub fn name(&self) -> (r: &'static str)
        ensures
            r@ == self.name_spec(),
    {
        proof {
            reveal_strlit("A");
            reveal_strlit("B");
            reveal_strlit("C");
            reveal_strlit("D");
            reveal_strlit("E");
        }
        let r = match self {
            ExperimentName::A => "A",
            ExperimentName::B => "B",
            ExperimentName::C => "C",
            ExperimentName::D => "D",
            ExperimentName::E => "E",
        };
        proof {
            assert(r@ =~= self.name_spec());
        }
        r
    }

    pub open spec fn lower_spec(self) -> Seq<char> {
        match self {
            ExperimentName::A => seq!['a'],
            ExperimentName::B => seq!['b'],
            ExperimentName::C => seq!['c'],
            ExperimentName::D => seq!['d'],
            ExperimentName::E => seq!['e'],
        }
    }

    pub fn lower(&self) -> (r: &'static str)
        ensures
            r@ == self.lower_spec(),
    {
        proof {
            reveal_strlit("a");
            reveal_strlit("b");
            reveal_strlit("c");
            reveal_strlit("d");
            reveal_strlit("e");
        }
        let r = match self {
            ExperimentName::A => "a",
            ExperimentName::B => "b",
            ExperimentName::C => "c",
            ExperimentName::D => "d",
            ExperimentName::E => "e",
        };
        proof {
            assert(r@ =~= self.lower_spec());
        }
        r
    }

    pub open spec fn color_spec(self) -> Seq<char> {
        match self {
            ExperimentName::A => AnsiColor::Red.fg_spec(),
            ExperimentName::B => AnsiColor::Green.fg_spec(),
            ExperimentName::C => AnsiColor::Blue.fg_spec(),
            ExperimentName::D => AnsiColor::Magenta.fg_spec(),
            ExperimentName::E => AnsiColor::Cyan.fg_spec(),
        }
    }

    /// The foreground color that marks this variant everywhere.
    pub fn color(&self) -> (r: &'static str)
        ensures
            r@ == self.color_spec(),
    {
        match self {
            ExperimentName::A => AnsiColor::Red.fg(),
            ExperimentName::B => AnsiColor::Green.fg(),
            ExperimentName::C => AnsiColor::Blue.fg(),
            ExperimentName::D => AnsiColor::Magenta.fg(),
            ExperimentName::E => AnsiColor::Cyan.fg(),
        }
    }

    /// The letter name wrapped in its color and a reset.
    pub fn name_colored(&self) -> (r: String)
        ensures
            r@ == self.color_spec() + self.name_spec() + ansi::RESET@,
    {
        let mut s = self.color().to_owned();
        s.push_str(self.name());
        s.push_str(ansi::RESET);
        s
    }
}

} // verus!
