//! ANSI terminal colors and stripping of color control sequences.

use vstd::prelude::*;

verus! {

/// ANSI color.
pub enum AnsiColor {
    Black,
    Red,
    Green,
    Yellow,
    Blue,
    Magenta,
    Cyan,
    White,
}

/// Reset color.
pub const RESET: &'static str = "\x1B[0m";

impl AnsiColor {
    /// The escape sequence that switches the foreground to this color.
    pub fn fg(&self) -> (r: &'static str)
        ensures
            r@ == self.fg_spec(),
    {
        proof {
            reveal_strlit("\x1B[30m");
            reveal_strlit("\x1B[31m");
            reveal_strlit("\x1B[32m");
            reveal_strlit("\x1B[33m");
            reveal_strlit("\x1B[34m");
            reveal_strlit("\x1B[35m");
            reveal_strlit("\x1B[36m");
            reveal_strlit("\x1B[37m");
        }
        match self {
            AnsiColor::Black => "\x1B[30m",
            AnsiColor::Red => "\x1B[31m",
            AnsiColor::Green => "\x1B[32m",
            AnsiColor::Yellow => "\x1B[33m",
            AnsiColor::Blue => "\x1B[34m",
            AnsiColor::Magenta => "\x1B[35m",
            AnsiColor::Cyan => "\x1B[36m",
            AnsiColor::White => "\x1B[37m",
        }
    }

    /// The escape sequence that switches the background to this color.
    pub fn bg(&self) -> (r: &'static str)
        ensures
            r@ == self.bg_spec(),
    {
        proof {
            reveal_strlit("\x1B[40m");
            reveal_strlit("\x1B[41m");
            reveal_strlit("\x1B[42m");
            reveal_strlit("\x1B[43m");
            reveal_strlit("\x1B[44m");
            reveal_strlit("\x1B[45m");
            reveal_strlit("\x1B[46m");
            reveal_strlit("\x1B[47m");
        }
        match self {
            AnsiColor::Black => "\x1B[40m",
            AnsiColor::Red => "\x1B[41m",
            AnsiColor::Green => "\x1B[42m",
            AnsiColor::Yellow => "\x1B[43m",
            AnsiColor::Blue => "\x1B[44m",
            AnsiColor::Magenta => "\x1B[45m",
            AnsiColor::Cyan => "\x1B[46m",
            AnsiColor::White => "\x1B[47m",
        }
    }

    /// The digit selecting this color within an escape sequence.
    pub open spec fn color_digit(self) -> char {
        match self {
            AnsiColor::Black => '0',
            AnsiColor::Red => '1',
            AnsiColor::Green => '2',
            AnsiColor::Yellow => '3',
            AnsiColor::Blue => '4',
            AnsiColor::Magenta => '5',
            AnsiColor::Cyan => '6',
            AnsiColor::White => '7',
        }
    }

    pub open spec fn fg_spec(self) -> Seq<char> {
        seq!['\x1B', '[', '3', self.color_digit(), 'm']
    }

    pub open spec fn bg_spec(self) -> Seq<char> {
        seq!['\x1B', '[', '4', self.color_digit(), 'm']
    }
}

/// A decimal digit.
pub open spec fn is_digit(c: char) -> bool {
    '0' <= c && c <= '9'
}

/// An ASCII letter.
pub open spec fn is_alpha(c: char) -> bool {
    ('a' <= c && c <= 'z') || ('A' <= c && c <= 'Z')
}

/// The length of the run of digits starting at position `i`.
pub open spec fn digit_run(s: Seq<char>, i: int) -> int
    decreases s.len() - i,
{
    if i < 0 || i >= s.len() || !is_digit(s[i]) {
        0
    } else {
        1 + digit_run(s, i + 1)
    }
}

/// A color-control sequence starts the text: an escape, an opening bracket,
/// one or more digits, and a letter.
pub open spec fn csi_at(s: Seq<char>) -> bool {
    let d = digit_run(s, 2);
    &&& s.len() >= 2
    &&& s[0] == '\x1b'
    &&& s[1] == '['
    &&& d >= 1
    &&& 2 + d < s.len()
    &&& is_alpha(s[2 + d])
}

proof fn lemma_digit_run_bound(s: Seq<char>, i: int)
    requires
        0 <= i <= s.len(),
    ensures
        0 <= digit_run(s, i) <= s.len() - i,
    decreases s.len() - i,
{
    if i < s.len() && is_digit(s[i]) {
        lemma_digit_run_bound(s, i + 1);
    }
}

/// The text with every color-control sequence removed, scanning left to
/// right and never overlapping.
pub open spec fn strip_csi_spec(s: Seq<char>) -> Seq<char>
    decreases s.len(),
    when s.len() >= 0
    via strip_csi_spec_decreases
{
    if s.len() == 0 {
        Seq::empty()
    } else if csi_at(s) {
        strip_csi_spec(s.skip(3 + digit_run(s, 2)))
    } else {
        seq![s[0]] + strip_csi_spec(s.drop_first())
    }
}

#[via_fn]
proof fn strip_csi_spec_decreases(s: Seq<char>) {
    if s.len() != 0 && csi_at(s) {
        lemma_digit_run_bound(s, 2);
    }
}

/// The run of digits is exactly `b - a` when positions `a..b` hold digits
/// and position `b` does not.
proof fn lemma_digit_run_exact(s: Seq<char>, a: int, b: int)
    requires
        0 <= a <= b <= s.len(),
        forall|k: int| a <= k < b ==> is_digit(s[k]),
        b == s.len() || !is_digit(s[b]),
    ensures
        digit_run(s, a) == b - a,
    decreases b - a,
{
    if a < b {
        lemma_digit_run_exact(s, a + 1, b);
    }
}

/// Text without escape characters passes through the stripper unchanged.
pub proof fn lemma_strip_csi_text(a: Seq<char>, rest: Seq<char>)
    requires
        forall|k: int| 0 <= k < a.len() ==> a[k] != '\x1b',
    ensures
        strip_csi_spec(a + rest) == a + strip_csi_spec(rest),
    decreases a.len(),
{
    if a.len() == 0 {
        assert(a + rest =~= rest);
        assert(a + strip_csi_spec(rest) =~= strip_csi_spec(rest));
    } else {
        let s = a + rest;
        assert(s[0] == a[0]);
        assert(!csi_at(s));
        assert(s.drop_first() =~= a.drop_first() + rest);
        lemma_strip_csi_text(a.drop_first(), rest);
        assert(seq![a[0]] + (a.drop_first() + strip_csi_spec(rest)) =~= a + strip_csi_spec(rest));
    }
}

/// Every foreground color sequence is one well-formed color-control token.
pub proof fn lemma_fg_is_csi_token(c: AnsiColor)
    ensures
        is_csi_token(c.fg_spec()),
{
    assert(c.fg_spec().len() == 5);
    assert(c.fg_spec()[0] == '\x1b');
    assert(c.fg_spec()[1] == '[');
    assert(is_digit(c.fg_spec()[2]));
    assert(is_digit(c.fg_spec()[3]));
    assert(is_alpha(c.fg_spec()[4]));
}

/// Every background color sequence is one well-formed color-control token.
pub proof fn lemma_bg_is_csi_token(c: AnsiColor)
    ensures
        is_csi_token(c.bg_spec()),
{
    assert(c.bg_spec().len() == 5);
    assert(c.bg_spec()[0] == '\x1b');
    assert(c.bg_spec()[1] == '[');
    assert(is_digit(c.bg_spec()[2]));
    assert(is_digit(c.bg_spec()[3]));
    assert(is_alpha(c.bg_spec()[4]));
}

/// The reset sequence is one well-formed color-control token.
pub proof fn lemma_reset_is_csi_token()
    ensures
        is_csi_token(RESET@),
{
    reveal_strlit("\x1B[0m");
    assert(RESET@.len() == 4);
    assert(RESET@[0] == '\x1b');
    assert(RESET@[1] == '[');
    assert(is_digit(RESET@[2]));
    assert(is_alpha(RESET@[3]));
}

/// Exactly one whole color-control sequence: an escape, a bracket, one or
/// more digits, and a closing letter.
pub open spec fn is_csi_token(c: Seq<char>) -> bool {
    &&& c.len() >= 4
    &&& c[0] == '\x1b'
    &&& c[1] == '['
    &&& forall|k: int| 2 <= k < c.len() - 1 ==> is_digit(c[k])
    &&& is_alpha(c[c.len() - 1])
}

/// A color-control sequence in front of any text is stripped away whole.
pub proof fn lemma_strip_csi_code(c: Seq<char>, rest: Seq<char>)
    requires
        is_csi_token(c),
    ensures
        strip_csi_spec(c + rest) == strip_csi_spec(rest),
{
    let s = c + rest;
    let n = c.len() as int;
    assert(!is_digit(c[n - 1]));
    assert(forall|k: int| 2 <= k < n - 1 ==> is_digit(s[k]));
    assert(!is_digit(s[n - 1]));
    lemma_digit_run_exact(s, 2, n - 1);
    assert(csi_at(s));
    assert(s.skip(n) =~= rest);
}

fn is_digit_exec(c: char) -> (r: bool)
    ensures
        r == is_digit(c),
{
    '0' <= c && c <= '9'
}

fn is_alpha_exec(c: char) -> (r: bool)
    ensures
        r == is_alpha(c),
{
    ('a' <= c && c <= 'z') || ('A' <= c && c <= 'Z')
}

/// Remove every color-control sequence from the text.
pub fn strip_csi(s: &str) -> (r: String)
    ensures
        r@ == strip_csi_spec(s@),
{
    let v = crate::text::chars_of(s);
    let n = v.len();
    let mut out = String::new();
    let mut i: usize = 0;
    proof {
        assert(s@.skip(0) =~= s@);
        assert(out@ + strip_csi_spec(s@) =~= strip_csi_spec(s@));
    }
    while i < n
        invariant
            i <= n,
            n == v@.len(),
            v@ == s@,
            strip_csi_spec(s@) == out@ + strip_csi_spec(s@.skip(i as int)),
        decreases n - i,
    {
        let ghost tail = s@.skip(i as int);
        if v[i] == '\x1b' && i + 1 < n && v[i + 1] == '[' {
            let mut j = i + 2;
            while j < n && is_digit_exec(v[j])
                invariant
                    i + 2 <= j <= n,
                    n == v@.len(),
                    forall|k: int| i + 2 <= k < j ==> is_digit(v@[k]),
                decreases n - j,
            {
                j += 1;
            }
            proof {
                assert forall|k: int| 2 <= k < j - i implies is_digit(tail[k]) by {
                    assert(tail[k] == v@[i + k]);
                }
                assert(j - i == tail.len() || !is_digit(tail[j - i])) by {
                    if j < n {
                        assert(tail[j - i] == v@[j as int]);
                    }
                }
                lemma_digit_run_exact(tail, 2, j - i);
                assert(tail[0] == v@[i as int] && tail[1] == v@[i + 1]);
            }
            if j > i + 2 && j < n && is_alpha_exec(v[j]) {
                proof {
                    assert(tail[j - i] == v@[j as int]);
                    assert(csi_at(tail));
                    assert(strip_csi_spec(tail) == strip_csi_spec(tail.skip(j - i + 1)));
                    assert(tail.skip(j - i + 1) =~= s@.skip(j + 1));
                }
                i = j + 1;
            } else {
                proof {
                    if csi_at(tail) {
                        assert(digit_run(tail, 2) == j - i - 2);
                        assert(j > i + 2 && j - i < tail.len() && is_alpha(tail[j - i]));
                        assert(tail[j - i] == v@[j as int]);
                    }
                    assert(!csi_at(tail));
                    assert(strip_csi_spec(tail) == seq![tail[0]] + strip_csi_spec(
                        tail.drop_first()));
                    assert(tail.drop_first() =~= s@.skip(i + 1));
                    assert((out@ + (seq![tail[0]] + strip_csi_spec(s@.skip(i + 1)))) =~= (
                        out@.push(tail[0]) + strip_csi_spec(s@.skip(i + 1))));
                }
                out.push(v[i]);
                i += 1;
            }
        } else {
            proof {
                assert(tail[0] == v@[i as int]);
                if tail.len() >= 2 {
                    assert(tail[1] == v@[i + 1]);
                }
                assert(!csi_at(tail));
                assert(strip_csi_spec(tail) == seq![tail[0]] + strip_csi_spec(tail.drop_first()));
                assert(tail.drop_first() =~= s@.skip(i + 1));
                assert((out@ + (seq![tail[0]] + strip_csi_spec(s@.skip(i + 1)))) =~= (out@.push(
                    tail[0]) + strip_csi_spec(s@.skip(i + 1))));
            }
            out.push(v[i]);
            i += 1;
        }
    }
    proof {
        assert(s@.skip(n as int) =~= Seq::<char>::empty());
        assert(out@ + strip_csi_spec(Seq::<char>::empty()) =~= out@);
    }
    out
}

} // verus!
