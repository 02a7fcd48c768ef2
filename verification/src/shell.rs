//! Quoting text for the shell: a string is wrapped in single quotes, double
//! quotes, or `$'..'` escapes, switching between the three as its characters
//! demand.

use vstd::prelude::*;

use crate::text::chars_of;

verus! {

/// The quoting the escaper is currently inside of.
#[derive(Clone, Copy, Debug, PartialEq, Eq, Structural)]
pub enum QuoteState {
    Outside,
    Single,
    Double,
    Dollar,
}

/// A control character in the Unicode sense.
pub open spec fn is_control_char(c: char) -> bool {
    (c as u32) < 0x20 || (0x7f <= (c as u32) && (c as u32) <= 0x9f)
}

fn is_control_exec(c: char) -> (r: bool)
    ensures
        r == is_control_char(c),
{
    let u = c as u32;
    u < 0x20 || (0x7f <= u && u <= 0x9f)
}

/// The character can sit in single quotes without escaping.
pub open spec fn as_is_with_single_spec(c: char) -> bool {
    c != '\'' && !is_control_char(c)
}

/// Char can be inserted in single quoted strings without escaping.
pub fn as_is_with_single(c: char) -> (r: bool)
    ensures
        r == as_is_with_single_spec(c),
{
    c != '\'' && !is_control_exec(c)
}

/// The character can sit in double quotes without escaping.
pub open spec fn as_is_with_double_spec(c: char) -> bool {
    c != '"' && c != '\\' && c != '$' && c != '`' && !is_control_char(c)
}

/// Char can be inserted in double quoted strings without escaping.
pub fn as_is_with_double(c: char) -> (r: bool)
    ensures
        r == as_is_with_double_spec(c),
{
    c != '"' && c != '\\' && c != '$' && c != '`' && !is_control_exec(c)
}

/// The character forces the whole string to be quoted.
pub open spec fn needs_quoting(c: char) -> bool {
    c == '"' || c == '\'' || c <= ' ' || c == '\\' || c == '$' || c == '`'
}

/// What closes the current quoting.
pub open spec fn close_chars(st: QuoteState) -> Seq<char> {
    match st {
        QuoteState::Outside => Seq::empty(),
        QuoteState::Single => seq!['\''],
        QuoteState::Double => seq!['"'],
        QuoteState::Dollar => seq!['\''],
    }
}

/// What opens a quoting.
pub open spec fn open_chars(st: QuoteState) -> Seq<char> {
    match st {
        QuoteState::Outside => Seq::empty(),
        QuoteState::Single => seq!['\''],
        QuoteState::Double => seq!['"'],
        QuoteState::Dollar => seq!['$', '\''],
    }
}

/// The octal digit character of a value below eight.
pub open spec fn oct_digit_spec(d: int) -> char {
    crate::text::digit_spec(d)
}

/// The escape a character gets inside `$'..'`.
pub open spec fn dollar_escape(c: char) -> Seq<char> {
    if c == '\\' {
        seq!['\\', '\\']
    } else if c == '\n' {
        seq!['\\', 'n']
    } else if c == '\r' {
        seq!['\\', 'r']
    } else if c == '\t' {
        seq!['\\', 't']
    } else {
        seq!['\\', oct_digit_spec(((c as u32) as int / 64) % 8), oct_digit_spec(
            ((c as u32) as int / 8) % 8), oct_digit_spec((c as u32) as int % 8)]
    }
}

/// One step of the escaper: the next state and what it emits for `c`.
pub open spec fn quote_step(st: QuoteState, c: char) -> (QuoteState, Seq<char>)
    decreases (if st is Outside { 0int } else { 1int }),
{
    match st {
        QuoteState::Outside => {
            if as_is_with_single_spec(c) {
                (QuoteState::Single, seq!['\''] + seq![c])
            } else if as_is_with_double_spec(c) {
                (QuoteState::Double, seq!['"'] + seq![c])
            } else {
                (QuoteState::Dollar, seq!['$', '\''] + dollar_escape(c))
            }
        },
        QuoteState::Single => {
            if as_is_with_single_spec(c) {
                (QuoteState::Single, seq![c])
            } else {
                let next = quote_step(QuoteState::Outside, c);
                (next.0, seq!['\''] + next.1)
            }
        },
        QuoteState::Double => {
            if as_is_with_double_spec(c) {
                (QuoteState::Double, seq![c])
            } else {
                let next = quote_step(QuoteState::Outside, c);
                (next.0, seq!['"'] + next.1)
            }
        },
        QuoteState::Dollar => {
            if as_is_with_single_spec(c) {
                (QuoteState::Single, seq!['\'', '\''] + seq![c])
            } else if as_is_with_double_spec(c) {
                (QuoteState::Double, seq!['\'', '"'] + seq![c])
            } else {
                (QuoteState::Dollar, dollar_escape(c))
            }
        },
    }
}

/// Run the escaper over a whole text.
pub open spec fn quote_run(st: QuoteState, s: Seq<char>) -> (QuoteState, Seq<char>)
    decreases s.len(),
{
    if s.len() == 0 {
        (st, Seq::empty())
    } else {
        let first = quote_step(st, s[0]);
        let rest = quote_run(first.0, s.drop_first());
        (rest.0, first.1 + rest.1)
    }
}

/// The length of the prefix whose characters all satisfy single-quote ease.
pub open spec fn prefix_single_spec(s: Seq<char>) -> int
    decreases s.len(),
{
    if s.len() == 0 || !as_is_with_single_spec(s[0]) {
        0
    } else {
        1 + prefix_single_spec(s.drop_first())
    }
}

/// The length of the prefix whose characters all satisfy double-quote ease.
pub open spec fn prefix_double_spec(s: Seq<char>) -> int
    decreases s.len(),
{
    if s.len() == 0 || !as_is_with_double_spec(s[0]) {
        0
    } else {
        1 + prefix_double_spec(s.drop_first())
    }
}

/// The state the escaper starts in, chosen by which quoting covers the
/// longer prefix of the text.
pub open spec fn initial_state(s: Seq<char>) -> QuoteState {
    let ps = prefix_single_spec(s);
    let pd = prefix_double_spec(s);
    if ps != 0 && ps >= pd {
        QuoteState::Single
    } else if pd != 0 {
        QuoteState::Double
    } else {
        QuoteState::Outside
    }
}

/// The quoted form of a text: the empty string is a pair of quotes, a tame
/// string is itself, and anything else runs through the escaper.
pub open spec fn shell_quote_spec(s: Seq<char>) -> Seq<char> {
    if s.len() == 0 {
        seq!['\'', '\'']
    } else if forall|i: int| 0 <= i < s.len() ==> !needs_quoting(#[trigger] s[i]) {
        s
    } else {
        let st0 = initial_state(s);
        let run = quote_run(st0, s);
        open_chars(st0) + run.1 + close_chars(run.0)
    }
}

proof fn lemma_quote_run_snoc(st: QuoteState, s: Seq<char>, c: char)
    ensures
        ({
            let whole = quote_run(st, s.push(c));
            let prefix = quote_run(st, s);
            let last = quote_step(prefix.0, c);
            whole.0 == last.0 && whole.1 == prefix.1 + last.1
        }),
    decreases s.len(),
{
    if s.len() == 0 {
        let first = quote_step(st, c);
        assert(s.push(c)[0] == c);
        assert(s.push(c).drop_first() =~= Seq::<char>::empty());
        assert(quote_run(first.0, Seq::<char>::empty()).1 =~= Seq::<char>::empty());
        assert(first.1 + Seq::<char>::empty() =~= first.1);
        assert(Seq::<char>::empty() + first.1 =~= first.1);
    } else {
        assert(s.push(c)[0] == s[0]);
        assert(s.push(c).drop_first() =~= s.drop_first().push(c));
        let first = quote_step(st, s[0]);
        lemma_quote_run_snoc(first.0, s.drop_first(), c);
        let prefix_rest = quote_run(first.0, s.drop_first());
        let last = quote_step(quote_run(st, s).0, c);
        assert(first.1 + (prefix_rest.1 + last.1) =~= (first.1 + prefix_rest.1) + last.1);
    }
}

proof fn lemma_prefix_single_at(s: Seq<char>, i: int)
    requires
        0 <= i <= s.len(),
        forall|k: int| 0 <= k < i ==> as_is_with_single_spec(#[trigger] s[k]),
        i == s.len() || !as_is_with_single_spec(s[i]),
    ensures
        prefix_single_spec(s) == i,
    decreases i,
{
    if i > 0 {
        lemma_prefix_single_at(s.drop_first(), i - 1);
    }
}

proof fn lemma_prefix_double_at(s: Seq<char>, i: int)
    requires
        0 <= i <= s.len(),
        forall|k: int| 0 <= k < i ==> as_is_with_double_spec(#[trigger] s[k]),
        i == s.len() || !as_is_with_double_spec(s[i]),
    ensures
        prefix_double_spec(s) == i,
    decreases i,
{
    if i > 0 {
        lemma_prefix_double_at(s.drop_first(), i - 1);
    }
}

fn oct_digit(d: u32) -> (r: char)
    requires
        d < 8,
    ensures
        r == oct_digit_spec(d as int),
{
    match d {
        0 => '0',
        1 => '1',
        2 => '2',
        3 => '3',
        4 => '4',
        5 => '5',
        6 => '6',
        _ => '7',
    }
}

/// Emit the escaper's output for one character onto `out`.
fn push_quoted(out: &mut String, st: QuoteState, c: char) -> (r: QuoteState)
    ensures
        ({
            let step = quote_step(st, c);
            r == step.0 && final(out)@ == old(out)@ + step.1
        }),
    decreases (if st is Outside { 0int } else { 1int }),
{
    match st {
        QuoteState::Outside => {
            if as_is_with_single(c) {
                out.push('\'');
                out.push(c);
                proof {
                    assert(old(out)@.push('\'').push(c) =~= old(out)@ + (seq!['\''] + seq![c]));
                }
                QuoteState::Single
            } else if as_is_with_double(c) {
                out.push('"');
                out.push(c);
                proof {
                    assert(old(out)@.push('"').push(c) =~= old(out)@ + (seq!['"'] + seq![c]));
                }
                QuoteState::Double
            } else {
                out.push('$');
                out.push('\'');
                push_dollar_escape(out, c);
                proof {
                    assert(old(out)@.push('$').push('\'') + dollar_escape(c) =~= old(out)@ + (seq![
                        '$', '\''] + dollar_escape(c)));
                }
                QuoteState::Dollar
            }
        },
        QuoteState::Single => {
            if as_is_with_single(c) {
                out.push(c);
                proof {
                    assert(old(out)@.push(c) =~= old(out)@ + seq![c]);
                }
                QuoteState::Single
            } else {
                out.push('\'');
                let ghost mid = out@;
                let r = push_quoted(out, QuoteState::Outside, c);
                proof {
                    assert(out@ =~= old(out)@ + (seq!['\''] + quote_step(
                        QuoteState::Outside, c).1));
                }
                r
            }
        },
        QuoteState::Double => {
            if as_is_with_double(c) {
                out.push(c);
                proof {
                    assert(old(out)@.push(c) =~= old(out)@ + seq![c]);
                }
                QuoteState::Double
            } else {
                out.push('"');
                let r = push_quoted(out, QuoteState::Outside, c);
                proof {
                    assert(out@ =~= old(out)@ + (seq!['"'] + quote_step(QuoteState::Outside, c).1));
                }
                r
            }
        },
        QuoteState::Dollar => {
            if as_is_with_single(c) {
                out.push('\'');
                out.push('\'');
                out.push(c);
                proof {
                    assert(old(out)@.push('\'').push('\'').push(c) =~= old(out)@ + (seq![
                        '\'', '\''] + seq![c]));
                }
                QuoteState::Single
            } else if as_is_with_double(c) {
                out.push('\'');
                out.push('"');
                out.push(c);
                proof {
                    assert(old(out)@.push('\'').push('"').push(c) =~= old(out)@ + (seq!['\'', '"']
                        + seq![c]));
                }
                QuoteState::Double
            } else {
                push_dollar_escape(out, c);
                QuoteState::Dollar
            }
        },
    }
}

fn push_dollar_escape(out: &mut String, c: char)
    ensures
        final(out)@ == old(out)@ + dollar_escape(c),
{
    if c == '\\' {
        out.push('\\');
        out.push('\\');
        proof {
            assert(old(out)@.push('\\').push('\\') =~= old(out)@ + dollar_escape(c));
        }
    } else if c == '\n' {
        out.push('\\');
        out.push('n');
        proof {
            assert(old(out)@.push('\\').push('n') =~= old(out)@ + dollar_escape(c));
        }
    } else if c == '\r' {
        out.push('\\');
        out.push('r');
        proof {
            assert(old(out)@.push('\\').push('r') =~= old(out)@ + dollar_escape(c));
        }
    } else if c == '\t' {
        out.push('\\');
        out.push('t');
        proof {
            assert(old(out)@.push('\\').push('t') =~= old(out)@ + dollar_escape(c));
        }
    } else {
        let u = c as u32;
        out.push('\\');
        out.push(oct_digit((u / 64) % 8));
        out.push(oct_digit((u / 8) % 8));
        out.push(oct_digit(u % 8));
        proof {
            assert(old(out)@.push('\\').push(oct_digit_spec(((c as u32) as int / 64) % 8)).push(
                oct_digit_spec(((c as u32) as int / 8) % 8)).push(oct_digit_spec((c as u32) as int % 8)) =~= old(
                out)@ + dollar_escape(c));
        }
    }
}

/// Quote one string for the shell.
pub fn shell_quote(s: &str) -> (r: String)
    ensures
        r@ == shell_quote_spec(s@),
{
    let v = chars_of(s);
    let n = v.len();

    // If the string is empty, we need to quote it.
    if n == 0 {
        proof {
            reveal_strlit("''");
            assert("''"@ =~= seq!['\'', '\'']);
        }
        return "''".to_owned();
    }

    // If a string does not need escaping, just return it.
    let mut tame = true;
    let mut i: usize = 0;
    while i < n
        invariant
            i <= n,
            n == v@.len(),
            v@ == s@,
            tame == forall|k: int| 0 <= k < i ==> !needs_quoting(#[trigger] s@[k]),
        decreases n - i,
    {
        let c = v[i];
        if c == '"' || c == '\'' || c <= ' ' || c == '\\' || c == '$' || c == '`' {
            tame = false;
        }
        i += 1;
    }
    if tame {
        return s.to_owned();
    }

    // Choose the opening quoting by the longer tame prefix.
    let mut ps: usize = 0;
    while ps < n && as_is_with_single(v[ps])
        invariant
            ps <= n,
            n == v@.len(),
            v@ == s@,
            forall|k: int| 0 <= k < ps ==> as_is_with_single_spec(#[trigger] s@[k]),
        decreases n - ps,
    {
        ps += 1;
    }
    proof {
        lemma_prefix_single_at(s@, ps as int);
    }
    let mut pd: usize = 0;
    while pd < n && as_is_with_double(v[pd])
        invariant
            pd <= n,
            n == v@.len(),
            v@ == s@,
            forall|k: int| 0 <= k < pd ==> as_is_with_double_spec(#[trigger] s@[k]),
        decreases n - pd,
    {
        pd += 1;
    }
    proof {
        lemma_prefix_double_at(s@, pd as int);
    }

    let mut out = String::new();
    let mut state: QuoteState;
    if ps != 0 && ps >= pd {
        out.push('\'');
        state = QuoteState::Single;
    } else if pd != 0 {
        out.push('"');
        state = QuoteState::Double;
    } else {
        state = QuoteState::Outside;
    }
    let ghost st0 = initial_state(s@);
    proof {
        assert(state == st0);
        assert(out@ =~= open_chars(st0));
        assert(out@ =~= open_chars(st0) + quote_run(st0, s@.take(0)).1);
    }

    let mut j: usize = 0;
    while j < n
        invariant
            j <= n,
            n == v@.len(),
            v@ == s@,
            st0 == initial_state(s@),
            state == quote_run(st0, s@.take(j as int)).0,
            out@ == open_chars(st0) + quote_run(st0, s@.take(j as int)).1,
        decreases n - j,
    {
        proof {
            lemma_quote_run_snoc(st0, s@.take(j as int), s@[j as int]);
            assert(s@.take(j as int).push(s@[j as int]) =~= s@.take(j + 1));
        }
        let ghost before = out@;
        state = push_quoted(&mut out, state, v[j]);
        proof {
            assert(out@ =~= open_chars(st0) + quote_run(st0, s@.take(j + 1)).1);
        }
        j += 1;
    }
    proof {
        assert(s@.take(n as int) =~= s@);
    }
    // Close whatever quoting is open.
    match state {
        QuoteState::Outside => {},
        QuoteState::Single => {
            out.push('\'');
        },
        QuoteState::Double => {
            out.push('"');
        },
        QuoteState::Dollar => {
            out.push('\'');
        },
    }
    proof {
        assert(out@ =~= shell_quote_spec(s@));
    }
    out
}

/// The quoted arguments joined by single spaces.
pub open spec fn shell_quote_args_spec(args: Seq<Seq<char>>) -> Seq<char>
    decreases args.len(),
{
    if args.len() == 0 {
        Seq::empty()
    } else if args.len() == 1 {
        shell_quote_spec(args[0])
    } else {
        shell_quote_args_spec(args.drop_last()) + seq![' '] + shell_quote_spec(args.last())
    }
}

/// Quote every argument and join them with spaces.
pub fn shell_quote_args(args: &Vec<String>) -> (r: String)
    ensures
        r@ == shell_quote_args_spec(args@.map_values(|a: String| a@)),
{
    let ghost views = args@.map_values(|a: String| a@);
    let mut out = String::new();
    let mut i: usize = 0;
    proof {
        assert(views.take(0) =~= Seq::<Seq<char>>::empty());
    }
    while i < args.len()
        invariant
            i <= args@.len(),
            views == args@.map_values(|a: String| a@),
            out@ == shell_quote_args_spec(views.take(i as int)),
        decreases args@.len() - i,
    {
        if i != 0 {
            out.push(' ');
        }
        let q = shell_quote(args[i].as_str());
        out.push_str(q.as_str());
        proof {
            assert(views.take(i + 1).drop_last() =~= views.take(i as int));
            assert(views.take(i + 1).last() == views[i as int]);
            if i == 0 {
                assert(out@ =~= shell_quote_args_spec(views.take(1)));
            } else {
                assert(out@ =~= shell_quote_args_spec(views.take(i + 1)));
            }
        }
        i += 1;
    }
    proof {
        assert(views.take(views.len() as int) =~= views);
    }
    out
}

} // verus!
