//! Styled text as a sequence of fragments: plain text and color-control
//! fragments. A report rendered with colors and then stripped of its
//! color-control sequences reads exactly like the same report rendered
//! without colors.

use vstd::prelude::*;

use crate::ansi::is_csi_token;
use crate::ansi::lemma_strip_csi_code;
use crate::ansi::lemma_strip_csi_text;
use crate::ansi::strip_csi_spec;

verus! {

/// One piece of a styled text: visible characters, or one color-control
/// sequence that only styles what follows.
pub enum Frag {
    Text(String),
    Style(String),
}

/// A text fragment holds no escape character; a style fragment is empty or
/// exactly one color-control sequence.
pub open spec fn frag_wf(f: Frag) -> bool {
    match f {
        Frag::Text(t) => forall|k: int| 0 <= k < t@.len() ==> t@[k] != '\x1b',
        Frag::Style(c) => c@.len() == 0 || is_csi_token(c@),
    }
}

/// A style string is empty or exactly one color-control sequence.
pub open spec fn style_wf(s: Seq<char>) -> bool {
    s.len() == 0 || is_csi_token(s)
}

pub open spec fn frags_wf(fs: Seq<Frag>) -> bool {
    forall|i: int| 0 <= i < fs.len() ==> frag_wf(#[trigger] fs[i])
}

/// The characters a fragment contributes: style fragments contribute nothing
/// when colors are off.
pub open spec fn frag_chars(f: Frag, colored: bool) -> Seq<char> {
    match f {
        Frag::Text(t) => t@,
        Frag::Style(c) => if colored {
            c@
        } else {
            Seq::empty()
        },
    }
}

/// The whole text of a fragment sequence.
pub open spec fn flatten_spec(fs: Seq<Frag>, colored: bool) -> Seq<char>
    decreases fs.len(),
{
    if fs.len() == 0 {
        Seq::empty()
    } else {
        frag_chars(fs[0], colored) + flatten_spec(fs.drop_first(), colored)
    }
}

/// Appending one fragment appends its characters.
pub proof fn lemma_flatten_snoc(fs: Seq<Frag>, f: Frag, colored: bool)
    ensures
        flatten_spec(fs.push(f), colored) == flatten_spec(fs, colored) + frag_chars(f, colored),
    decreases fs.len(),
{
    if fs.len() == 0 {
        assert(fs.push(f)[0] == f);
        assert(fs.push(f).drop_first() =~= Seq::<Frag>::empty());
        assert(flatten_spec(Seq::<Frag>::empty(), colored) == Seq::<char>::empty());
        assert(flatten_spec(fs.push(f), colored) == frag_chars(f, colored) + Seq::<char>::empty());
        assert(flatten_spec(fs, colored) == Seq::<char>::empty());
        assert(frag_chars(f, colored) + Seq::<char>::empty() =~= Seq::<char>::empty()
            + frag_chars(f, colored));
    } else {
        lemma_flatten_snoc(fs.drop_first(), f, colored);
        assert(fs.push(f).drop_first() =~= fs.drop_first().push(f));
        assert(fs.push(f)[0] == fs[0]);
        assert(frag_chars(fs[0], colored) + (flatten_spec(fs.drop_first(), colored) + frag_chars(
            f, colored)) =~= (frag_chars(fs[0], colored) + flatten_spec(fs.drop_first(), colored))
            + frag_chars(f, colored));
    }
}

/// Stripping the colored text of well-formed fragments yields exactly the
/// text rendered without colors.
pub proof fn lemma_strip_flatten(fs: Seq<Frag>)
    requires
        frags_wf(fs),
    ensures
        strip_csi_spec(flatten_spec(fs, true)) == flatten_spec(fs, false),
    decreases fs.len(),
{
    if fs.len() == 0 {
    } else {
        assert(frag_wf(fs[0]));
        assert(frags_wf(fs.drop_first())) by {
            assert forall|i: int| 0 <= i < fs.drop_first().len() implies frag_wf(
                #[trigger] fs.drop_first()[i]) by {
                assert(fs.drop_first()[i] == fs[i + 1]);
            }
        }
        lemma_strip_flatten(fs.drop_first());
        let rest_t = flatten_spec(fs.drop_first(), true);
        let rest_f = flatten_spec(fs.drop_first(), false);
        match fs[0] {
            Frag::Text(t) => {
                lemma_strip_csi_text(t@, rest_t);
            },
            Frag::Style(c) => {
                if c@.len() == 0 {
                    assert(c@ + rest_t =~= rest_t);
                    assert(Seq::<char>::empty() + rest_f =~= rest_f);
                } else {
                    lemma_strip_csi_code(c@, rest_t);
                    assert(Seq::<char>::empty() + rest_f =~= rest_f);
                }
            },
        }
    }
}

/// Append one fragment, extending both renderings by its characters.
pub fn push_frag(frags: &mut Vec<Frag>, f: Frag)
    ensures
        final(frags)@ == old(frags)@.push(f),
        flatten_spec(final(frags)@, true) == flatten_spec(old(frags)@, true) + frag_chars(f, true),
        flatten_spec(final(frags)@, false) == flatten_spec(old(frags)@, false) + frag_chars(
            f, false),
{
    proof {
        lemma_flatten_snoc(frags@, f, true);
        lemma_flatten_snoc(frags@, f, false);
    }
    frags.push(f);
}

/// Render the fragments as one string, with or without their colors.
pub fn flatten(frags: &Vec<Frag>, colored: bool) -> (r: String)
    ensures
        r@ == flatten_spec(frags@, colored),
{
    let mut out = String::new();
    let mut i: usize = 0;
    proof {
        assert(frags@.take(0) =~= Seq::<Frag>::empty());
    }
    while i < frags.len()
        invariant
            i <= frags@.len(),
            out@ == flatten_spec(frags@.take(i as int), colored),
        decreases frags@.len() - i,
    {
        proof {
            lemma_flatten_snoc(frags@.take(i as int), frags@[i as int], colored);
            assert(frags@.take(i as int).push(frags@[i as int]) =~= frags@.take(i + 1));
        }
        match &frags[i] {
            Frag::Text(t) => {
                out.push_str(t.as_str());
            },
            Frag::Style(c) => {
                if colored {
                    out.push_str(c.as_str());
                } else {
                    proof {
                        assert(out@ + frag_chars(frags@[i as int], colored) =~= out@);
                    }
                }
            },
        }
        i += 1;
    }
    proof {
        assert(frags@.take(frags@.len() as int) =~= frags@);
    }
    out
}

} // verus!
