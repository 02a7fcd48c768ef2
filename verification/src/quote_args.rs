//! Quote the tool's own command line, either as one line or as readable
//! text that breaks before each variant flag.

use vstd::prelude::*;
use vstd::string::StrSliceExecFns;

use crate::shell::shell_quote;
use crate::shell::shell_quote_args;
use crate::shell::shell_quote_args_spec;
use crate::shell::shell_quote_spec;

verus! {

/// The whole command line quoted and joined by spaces.
pub fn shell_quote_self_args_impl(args: &Vec<String>) -> (r: String)
    ensures
        r@ == shell_quote_args_spec(args@.map_values(|a: String| a@)),
{
    shell_quote_args(args)
}

/// A flag that selects one variant or its warmup.
pub open spec fn is_letter_flag(a: Seq<char>) -> bool {
    a.len() == 2 && a[0] == '-' && (a[1] == 'a' || a[1] == 'b' || a[1] == 'c' || a[1] == 'd'
        || a[1] == 'e' || a[1] == 'A' || a[1] == 'B' || a[1] == 'C' || a[1] == 'D' || a[1] == 'E')
}

/// The separator that starts a new line before a variant flag.
pub open spec fn newline_sep() -> Seq<char> {
    seq![' ', '\\', '\n', ' ', ' ', ' ', ' ']
}

/// The command-line text from argument `i` on: a variant flag starts a new
/// line and takes its value along, any other argument follows on the same
/// line.
pub open spec fn as_text_rest(args: Seq<Seq<char>>, i: int, nlsep: bool) -> Seq<char>
    decreases args.len() - i,
{
    if i < 0 || i >= args.len() {
        Seq::empty()
    } else if is_letter_flag(args[i]) {
        newline_sep() + shell_quote_spec(args[i]) + (if i + 1 < args.len() {
            seq![' '] + shell_quote_spec(args[i + 1])
        } else {
            Seq::empty()
        }) + as_text_rest(
            args,
            if i + 1 < args.len() {
                i + 2
            } else {
                i + 1
            },
            true,
        )
    } else {
        (if nlsep {
            newline_sep()
        } else {
            seq![' ']
        }) + shell_quote_spec(args[i]) + as_text_rest(args, i + 1, false)
    }
}

/// The whole command line as readable text: the program name first, each
/// variant flag with its script on a line of its own, and a final newline.
pub open spec fn as_text_spec(args: Seq<Seq<char>>) -> Seq<char> {
    (if args.len() >= 1 {
        args[0]
    } else {
        Seq::empty()
    }) + as_text_rest(args, 1, false) + seq!['\n']
}

fn is_letter_flag_exec(a: &String) -> (r: bool)
    ensures
        r == is_letter_flag(a@),
{
    if a.as_str().unicode_len() != 2 {
        return false;
    }
    let c0 = a.as_str().get_char(0);
    let c1 = a.as_str().get_char(1);
    c0 == '-' && (c1 == 'a' || c1 == 'b' || c1 == 'c' || c1 == 'd' || c1 == 'e' || c1 == 'A' || c1
        == 'B' || c1 == 'C' || c1 == 'D' || c1 == 'E')
}

/// Render the command line as readable text, one variant flag per line.
#[verifier::rlimit(100)]
pub fn shell_quote_self_args_as_text_impl(args: &Vec<String>) -> (r: String)
    ensures
        r@ == as_text_spec(args@.map_values(|a: String| a@)),
{
    let ghost views = args@.map_values(|a: String| a@);
    let mut text = String::new();
    if args.len() >= 1 {
        text.push_str(args[0].as_str());
    }

    let mut i: usize = 1;
    let mut nlsep = false;
    let ghost head = if views.len() >= 1 {
        views[0]
    } else {
        Seq::<char>::empty()
    };
    proof {
        assert(text@ =~= head);
    }
    while i < args.len()
        invariant
            1 <= i,
            views == args@.map_values(|a: String| a@),
            head == (if views.len() >= 1 { views[0] } else { Seq::<char>::empty() }),
            head + as_text_rest(views, 1, false) == text@ + as_text_rest(
                views, i as int, nlsep),
        decreases args@.len() - i,
    {
        if is_letter_flag_exec(&args[i]) {
            proof {
                reveal_strlit(" \\\n    ");
                assert(" \\\n    "@ =~= newline_sep());
            }
            text.push_str(" \\\n    ");
            let q = shell_quote(args[i].as_str());
            text.push_str(q.as_str());
            if i + 1 < args.len() {
                text.push(' ');
                let q2 = shell_quote(args[i + 1].as_str());
                text.push_str(q2.as_str());
                proof {
                    assert(text@ + as_text_rest(views, i + 2, true) =~= head + as_text_rest(
                        views, 1, false));
                }
                i += 2;
            } else {
                proof {
                    assert(text@ + as_text_rest(views, i + 1, true) =~= head + as_text_rest(
                        views, 1, false));
                }
                i += 1;
            }
            nlsep = true;
        } else {
            if nlsep {
                proof {
                    reveal_strlit(" \\\n    ");
                    assert(" \\\n    "@ =~= newline_sep());
                }
                text.push_str(" \\\n    ");
            } else {
                text.push(' ');
            }
            let q = shell_quote(args[i].as_str());
            text.push_str(q.as_str());
            proof {
                assert(text@ + as_text_rest(views, i + 1, false) =~= head + as_text_rest(
                    views, 1, false));
            }
            i += 1;
            nlsep = false;
        }
    }
    proof {
        assert(as_text_rest(views, i as int, nlsep) =~= Seq::<char>::empty());
        assert(text@ =~= head + as_text_rest(views, 1, false));
    }
    text.push('\n');
    proof {
        assert(text@ =~= as_text_spec(views));
    }
    text
}

} // verus!
