//! Turning raw path segments into identifier text.

use vstd::prelude::*;

verus! {

/// Whether `c` is one of the characters that identifier text cannot keep.
pub open spec fn is_replaced(c: char) -> bool {
    c == '.' || c == ',' || c == '-'
}

/// The character that stands for `c` in identifier text.
pub open spec fn sanitized_char(c: char) -> char {
    if is_replaced(c) {
        '_'
    } else {
        c
    }
}

/// The identifier text of a raw segment: every `.`, `,` and `-` becomes `_`,
/// every other character stays where it is.
pub open spec fn sanitized(raw: Seq<char>) -> Seq<char> {
    Seq::new(raw.len(), |i: int| sanitized_char(raw[i]))
}

/// `String::push` appends one character to the text.
pub assume_specification[ String::push ](s: &mut String, ch: char)
    ensures
        final(s)@ == old(s)@.push(ch),
;

/// Maps a raw path segment to identifier text. Total: nothing is rejected, and
/// nothing checks that the result is a legal identifier.
pub fn sanitize(raw: &str) -> (out: String)
    ensures
        out@ == sanitized(raw@),
{
    let mut out = String::new();
    for ch in it: raw.chars()
        invariant
            it.seq() == raw@,
            out@ == sanitized(raw@.take(it.index())),
    {
        proof {
            assert(raw@.take(it.index() + 1) == raw@.take(it.index()).push(ch));
        }
        if ch == '.' || ch == ',' || ch == '-' {
            out.push('_');
        } else {
            out.push(ch);
        }
    }
    proof {
        assert(raw@.take(raw@.len() as int) == raw@);
    }
    out
}

/// Sanitizing identifier text again changes nothing.
pub proof fn lemma_sanitize_idempotent(raw: Seq<char>)
    ensures
        sanitized(sanitized(raw)) == sanitized(raw),
{
}

} // verus!
