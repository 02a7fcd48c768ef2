//! The letter names of the configured tests, with their fixed colors.

use vstd::prelude::*;

use crate::ansi;
use crate::ansi::AnsiColor;

verus! {

/// One named test configuration.
#[derive(Clone, Copy, Debug, PartialEq, Eq, Structural)]
pub enum TestName {
    A,
    B,
    C,
    D,
    E,
}

impl TestName {
    pub open spec fn name_spec(self) -> Seq<char> {
        match self {
            TestName::A => seq!['A'],
            TestName::B => seq!['B'],
            TestName::C => seq!['C'],
            TestName::D => seq!['D'],
            TestName::E => seq!['E'],
        }
    }

    pub fn name(&self) -> (r: &'static str)
        ensures
            r@ == self.name_spec(),
    {
        proof {
            reveal_strlit("A");
            reveal_strlit("B");
            reveal_strlit("C");
            reveal_strlit("D");
            reveal_strlit("E");
        }
        let r = match self {
            TestName::A => "A",
            TestName::B => "B",
            TestName::C => "C",
            TestName::D => "D",
            TestName::E => "E",
        };
        proof {
            assert(r@ =~= self.name_spec());
        }
        r
    }

    pub open spec fn color_spec(self) -> Seq<char> {
        match self {
            TestName::A => AnsiColor::Red.fg_spec(),
            TestName::B => AnsiColor::Green.fg_spec(),
            TestName::C => AnsiColor::Blue.fg_spec(),
            TestName::D => AnsiColor::Magenta.fg_spec(),
            TestName::E => AnsiColor::Cyan.fg_spec(),
        }
    }

    /// The foreground color that marks this test everywhere.
    pub fn color(&self) -> (r: &'static str)
        ensures
            r@ == self.color_spec(),
    {
        match self {
            TestName::A => AnsiColor::Red.fg(),
            TestName::B => AnsiColor::Green.fg(),
            TestName::C => AnsiColor::Blue.fg(),
            TestName::D => AnsiColor::Magenta.fg(),
            TestName::E => AnsiColor::Cyan.fg(),
        }
    }

    /// The letter name wrapped in its color and a reset.
    pub fn name_colored(&self) -> (r: String)
        ensures
            r@ == self.color_spec() + self.name_spec() + ansi::RESET@,
    {
        let mut s = self.color().to_owned();
        s.push_str(self.name());
        s.push_str(ansi::RESET);
        s
    }
}

} // verus!
