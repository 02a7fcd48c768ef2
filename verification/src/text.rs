//! Building blocks for text output: decimal rendering, padding, and
//! normalising of help text.

use vstd::prelude::*;
use vstd::string::StrSliceExecFns;

verus! {

/// Relies on String::push: appends the given character to the end of the string.
pub assume_specification[ String::push ](s: &mut String, c: char)
    ensures
        final(s)@ == old(s)@.push(c),
;

/// Relies on String::push_str: appends the given string slice to the end of
/// the string.
pub assume_specification[ String::push_str ](s: &mut String, other: &str)
    ensures
        final(s)@ == old(s)@ + other@,
;

/// The characters of a string, in order.
pub fn chars_of(s: &str) -> (r: Vec<char>)
    ensures
        r@ == s@,
{
    let n = s.unicode_len();
    let mut v: Vec<char> = Vec::new();
    let mut i: usize = 0;
    while i < n
        invariant
            i <= n,
            n == s@.len(),
            v@ == s@.take(i as int),
        decreases n - i,
    {
        v.push(s.get_char(i));
        proof {
            assert(v@ =~= s@.take(i + 1));
        }
        i += 1;
    }
    proof {
        assert(s@.take(n as int) =~= s@);
    }
    v
}

/// The decimal digit character for a value below ten.
pub open spec fn digit_spec(d: int) -> char {
    if d == 0 {
        '0'
    } else if d == 1 {
        '1'
    } else if d == 2 {
        '2'
    } else if d == 3 {
        '3'
    } else if d == 4 {
        '4'
    } else if d == 5 {
        '5'
    } else if d == 6 {
        '6'
    } else if d == 7 {
        '7'
    } else if d == 8 {
        '8'
    } else {
        '9'
    }
}

/// The decimal representation of a number, most significant digit first.
pub open spec fn dec_spec(n: int) -> Seq<char>
    decreases n,
{
    if n < 10 {
        seq![digit_spec(n)]
    } else {
        dec_spec(n / 10).push(digit_spec(n % 10))
    }
}

/// The decimal digit character of a value below ten.
pub fn digit_char_pub(d: u64) -> (r: char)
    requires
        d < 10,
    ensures
        r == digit_spec(d as int),
{
    digit_char(d)
}

fn digit_char(d: u64) -> (r: char)
    requires
        d < 10,
    ensures
        r == digit_spec(d as int),
{
    match d {
        0 => '0',
        1 => '1',
        2 => '2',
        3 => '3',
        4 => '4',
        5 => '5',
        6 => '6',
        7 => '7',
        8 => '8',
        _ => '9',
    }
}

/// Render a number in decimal.
pub fn u64_to_dec(n: u64) -> (r: String)
    ensures
        r@ == dec_spec(n as int),
    decreases n,
{
    if n < 10 {
        let mut s = String::new();
        s.push(digit_char(n));
        proof {
            assert(s@ =~= dec_spec(n as int));
        }
        s
    } else {
        let mut s = u64_to_dec(n / 10);
        s.push(digit_char(n % 10));
        s
    }
}

/// A run of identical characters.
pub open spec fn repeat_char(c: char, n: int) -> Seq<char> {
    Seq::new(n as nat, |i: int| c)
}

/// A string of `n` spaces.
pub fn spaces(n: usize) -> (r: String)
    ensures
        r@ == repeat_char(' ', n as int),
{
    let mut s = String::new();
    let mut i: usize = 0;
    while i < n
        invariant
            i <= n,
            s@ == repeat_char(' ', i as int),
        decreases n - i,
    {
        s.push(' ');
        proof {
            assert(repeat_char(' ', i as int).push(' ') =~= repeat_char(' ', i + 1));
        }
        i += 1;
    }
    s
}

/// Render a number right-aligned in a field of `width` characters; a number
/// wider than the field keeps all its digits.
pub fn u64_to_dec_padded(n: u64, width: usize) -> (r: String)
    ensures
        dec_spec(n as int).len() >= width ==> r@ == dec_spec(n as int),
        dec_spec(n as int).len() < width ==> r@ == repeat_char(
            ' ', width - dec_spec(n as int).len()).add(dec_spec(n as int)),
{
    let digits = u64_to_dec(n);
    let len = digits.as_str().unicode_len();
    if len >= width {
        digits
    } else {
        let mut s = spaces(width - len);
        s.push_str(digits.as_str());
        s
    }
}

/// A number of milliseconds rendered as seconds with three decimals, as the
/// wall-time column shows it.
pub open spec fn millis_text_spec(millis: int) -> Seq<char> {
    let frac = millis % 1000;
    dec_spec(millis / 1000) + seq!['.'] + seq![digit_spec(frac / 100)] + seq![
        digit_spec((frac % 100) / 10)] + seq![digit_spec(frac % 10)]
}

/// Render milliseconds as seconds with exactly three decimals.
#[verifier::rlimit(50)]
pub fn millis_to_text(millis: u64) -> (r: String)
    ensures
        r@ == millis_text_spec(millis as int),
{
    let mut s = u64_to_dec(millis / 1000);
    s.push('.');
    let frac = millis % 1000;
    proof {
        assert(frac < 1000);
        assert(frac / 100 < 10);
        assert((frac % 100) / 10 < 10);
        assert(frac % 10 < 10);
    }
    s.push(digit_char(frac / 100));
    s.push(digit_char((frac % 100) / 10));
    s.push(digit_char(frac % 10));
    proof {
        assert(s@ =~= millis_text_spec(millis as int));
    }
    s
}

/// A whitespace character, as trailing-whitespace trimming sees it.
pub open spec fn is_whitespace_char(c: char) -> bool {
    c == ' ' || c == '\t' || c == '\n' || c == '\r' || c == '\x0b' || c == '\x0c' || c == '\u{85}'
        || c == '\u{a0}' || c == '\u{1680}' || ('\u{2000}' <= c && c <= '\u{200a}') || c
        == '\u{2028}' || c == '\u{2029}' || c == '\u{202f}' || c == '\u{205f}' || c == '\u{3000}'
}

/// The line with its trailing whitespace removed.
pub open spec fn trim_end_spec(line: Seq<char>) -> Seq<char>
    decreases line.len(),
{
    if line.len() == 0 || !is_whitespace_char(line.last()) {
        line
    } else {
        trim_end_spec(line.drop_last())
    }
}

/// The position of the first newline at or after `i`, or the text's end.
pub open spec fn next_newline(s: Seq<char>, i: int) -> int
    decreases s.len() - i,
{
    if i < 0 || i >= s.len() {
        s.len() as int
    } else if s[i] == '\n' {
        i
    } else {
        next_newline(s, i + 1)
    }
}

/// The text from position `i` on with every line trimmed of trailing
/// whitespace and terminated by exactly one newline.
pub open spec fn normalize_rest(s: Seq<char>, i: int) -> Seq<char>
    decreases s.len() - i,
    when i >= 0
    via normalize_rest_decreases
{
    if i < 0 || i >= s.len() {
        Seq::empty()
    } else {
        let j = next_newline(s, i);
        if j >= s.len() {
            trim_end_spec(s.subrange(i, j)) + seq!['\n']
        } else {
            trim_end_spec(s.subrange(i, j)) + seq!['\n'] + normalize_rest(s, j + 1)
        }
    }
}

#[via_fn]
proof fn normalize_rest_decreases(s: Seq<char>, i: int) {
    if 0 <= i < s.len() {
        lemma_next_newline_bounds(s, i);
    }
}

proof fn lemma_next_newline_bounds(s: Seq<char>, i: int)
    requires
        0 <= i <= s.len(),
    ensures
        i <= next_newline(s, i) <= s.len(),
        next_newline(s, i) < s.len() ==> s[next_newline(s, i)] == '\n',
        forall|k: int| i <= k < next_newline(s, i) ==> s[k] != '\n',
    decreases s.len() - i,
{
    if i < s.len() && s[i] != '\n' {
        lemma_next_newline_bounds(s, i + 1);
    }
}

fn is_whitespace_exec(c: char) -> (r: bool)
    ensures
        r == is_whitespace_char(c),
{
    c == ' ' || c == '\t' || c == '\n' || c == '\r' || c == '\x0b' || c == '\x0c' || c == '\u{85}'
        || c == '\u{a0}' || c == '\u{1680}' || ('\u{2000}' <= c && c <= '\u{200a}') || c
        == '\u{2028}' || c == '\u{2029}' || c == '\u{202f}' || c == '\u{205f}' || c == '\u{3000}'
}

proof fn lemma_next_newline_at(s: Seq<char>, i: int, j: int)
    requires
        0 <= i <= j <= s.len(),
        forall|k: int| i <= k < j ==> s[k] != '\n',
        j == s.len() || s[j] == '\n',
    ensures
        next_newline(s, i) == j,
    decreases j - i,
{
    if i < j {
        lemma_next_newline_at(s, i + 1, j);
    }
}

/// Normalize generated help text: every line loses its trailing whitespace
/// and ends in exactly one newline.
#[verifier::rlimit(100)]
pub fn normalize_help_output(help: &str) -> (r: String)
    ensures
        r@ == normalize_rest(help@, 0),
{
    let v = chars_of(help);
    let n = v.len();
    let mut out = String::new();
    let mut i: usize = 0;
    proof {
        assert(out@ + normalize_rest(help@, 0) =~= normalize_rest(help@, 0));
    }
    while i < n
        invariant
            i <= n,
            n == v@.len(),
            v@ == help@,
            normalize_rest(help@, 0) == out@ + normalize_rest(help@, i as int),
        decreases n - i,
    {
        // find the end of the line
        let mut j = i;
        while j < n && v[j] != '\n'
            invariant
                i <= j <= n,
                n == v@.len(),
                v@ == help@,
                forall|k: int| i <= k < j ==> help@[k] != '\n',
            decreases n - j,
        {
            j += 1;
        }
        proof {
            lemma_next_newline_at(help@, i as int, j as int);
        }
        // drop the line's trailing whitespace
        let mut e = j;
        while e > i && is_whitespace_exec(v[e - 1])
            invariant
                i <= e <= j <= n,
                n == v@.len(),
                v@ == help@,
                trim_end_spec(help@.subrange(i as int, j as int)) == trim_end_spec(
                    help@.subrange(i as int, e as int)),
            decreases e - i,
        {
            proof {
                assert(help@.subrange(i as int, e as int).drop_last() =~= help@.subrange(
                    i as int, e - 1));
                assert(help@.subrange(i as int, e as int).last() == help@[e - 1]);
            }
            e -= 1;
        }
        proof {
            if e > i {
                assert(help@.subrange(i as int, e as int).last() == help@[e - 1]);
            }
            assert(trim_end_spec(help@.subrange(i as int, e as int)) =~= help@.subrange(
                i as int, e as int));
        }
        // copy the visible part and close the line
        let ghost base = out@;
        let mut k = i;
        while k < e
            invariant
                i <= k <= e <= n,
                n == v@.len(),
                v@ == help@,
                out@ == base + help@.subrange(i as int, k as int),
            decreases e - k,
        {
            out.push(v[k]);
            proof {
                assert((base + help@.subrange(i as int, k as int)).push(help@[k as int]) =~= base
                    + help@.subrange(i as int, k + 1));
            }
            k += 1;
        }
        out.push('\n');
        proof {
            assert(out@ =~= base + (trim_end_spec(help@.subrange(i as int, j as int)) + seq![
                '\n']));
        }
        if j < n {
            proof {
                assert(out@ + normalize_rest(help@, j + 1) =~= base + normalize_rest(
                    help@, i as int));
                assert(normalize_rest(help@, 0) == out@ + normalize_rest(help@, j + 1));
            }
            i = j + 1;
        } else {
            proof {
                assert(out@ =~= base + normalize_rest(help@, i as int));
                assert(out@ + normalize_rest(help@, n as int) =~= out@);
                assert(normalize_rest(help@, 0) == out@ + normalize_rest(help@, n as int));
            }
            i = n;
        }
    }
    proof {
        assert(normalize_rest(help@, i as int) =~= Seq::<char>::empty());
        assert(out@ + Seq::<char>::empty() =~= out@);
    }
    out
}

} // verus!
