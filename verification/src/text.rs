//! Small verified helpers for working with text as characters.

use vstd::prelude::*;
use vstd::string::StrSliceExecFns;

verus! {

/// Relies on `String::push` of std: appends one character to the
/// string.
#[verifier::external_body]
pub fn push_char(s: &mut String, c: char)
    ensures
        final(s)@ == old(s)@ + seq![c],
{
    s.push(c);
}

/// The characters of `s`, as a vector.
pub fn str_chars(s: &str) -> (r: Vec<char>)
    ensures
        r@ == s@,
{
    let len: usize = s.unicode_len();
    let mut r: Vec<char> = Vec::new();
    let mut i: usize = 0;
    while i < len
        invariant
            0 <= i <= len,
            len == s@.len(),
            r@ =~= s@.take(i as int),
        decreases len - i,
    {
        r.push(s.get_char(i));
        proof {
            assert(r@ =~= s@.take(i + 1));
        }
        i = i + 1;
    }
    proof {
        assert(s@.take(len as int) =~= s@);
    }
    r
}

/// A string holding exactly the characters of `v`.
pub fn chars_to_string(v: &[char]) -> (r: String)
    ensures
        r@ == v@,
{
    let mut r = String::new();
    let mut i: usize = 0;
    while i < v.len()
        invariant
            0 <= i <= v@.len(),
            r@ =~= v@.take(i as int),
        decreases v.len() - i,
    {
        push_char(&mut r, v[i]);
        proof {
            assert(r@ =~= v@.take(i + 1));
        }
        i = i + 1;
    }
    proof {
        assert(v@.take(v@.len() as int) =~= v@);
    }
    r
}

/// Relies on `core::mem::take` of std: moves the vector out,
/// leaving an empty one.
#[verifier::external_body]
pub fn take_vec<T>(v: &mut Vec<T>) -> (r: Vec<T>)
    ensures
        r@ == old(v)@,
        final(v)@.len() == 0,
{
    core::mem::take(v)
}

/// The result of re-wrapping text at a width: `textwrap::refill`
/// unwraps the text and wraps it again at the width, breaking lines
/// between words, never inside them; the result is a function of
/// the text and the width alone.
pub uninterp spec fn refilled(s: Seq<char>, width: usize) -> Seq<char>;

/// Relies on `textwrap::refill` with word breaking and hyphenation
/// disabled: re-wraps the text at the given width.
#[verifier::external_body]
pub fn refill_no_break(s: &str, width: usize) -> (r: String)
    ensures
        r@ == refilled(s@, width),
{
    let options = textwrap::Options::new(width).break_words(false).word_splitter(
        textwrap::WordSplitter::NoHyphenation,
    );
    String::from(textwrap::refill(s, options))
}

/// Re-wrap the sources field of a message.
///
/// The `file:lineno` pairs are wrapped at 76 columns, the width
/// gettext tools use, without breaking inside a token.
pub fn wrap_sources(sources: &str) -> (r: String)
    ensures
        r@ == refilled(sources@, 76),
{
    refill_no_break(sources, 76)
}

} // verus!
