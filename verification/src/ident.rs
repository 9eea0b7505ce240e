//! Identifier tokens: which text is sure to make one, and making it.

use crate::sanitize::{sanitize, sanitized};
use proc_macro2::{Ident, Span};
use vstd::prelude::*;

verus! {

/// The identifier token of `proc_macro2`. Nothing of its inside is visible
/// here: a token is made and handed on.
#[verifier::external_type_specification]
#[verifier::external_body]
pub struct ExIdent(Ident);

/// The text that an identifier token carries: the string that it was made
/// with.
pub uninterp spec fn ident_text(ident: Ident) -> Seq<char>;

/// Whether `ch` is one of the letters `a` to `z` and `A` to `Z`.
pub open spec fn is_plain_letter(ch: char) -> bool {
    'a' <= ch <= 'z' || 'A' <= ch <= 'Z'
}

/// Whether `ch` is one of the digits `0` to `9`.
pub open spec fn is_digit(ch: char) -> bool {
    '0' <= ch <= '9'
}

/// Whether `ch` can go on a plain identifier: a letter, a digit or `_`.
pub open spec fn is_plain_continue(ch: char) -> bool {
    is_plain_letter(ch) || is_digit(ch) || ch == '_'
}

/// Whether `text` is a plain identifier: a letter followed by any number of
/// letters, digits and `_`, or `_` followed by at least one of them. Such
/// text is an identifier or a keyword of the language whatever the version of
/// Unicode, and no normalization changes it.
pub open spec fn is_plain_identifier(text: Seq<char>) -> bool {
    &&& text.len() > 0
    &&& is_plain_letter(text[0]) || (text[0] == '_' && text.len() > 1)
    &&& forall|i: int| 1 <= i < text.len() ==> is_plain_continue(#[trigger] text[i])
}

/// `proc_macro2::Ident::new`, with the span of the call site. Outside a
/// running macro the crate judges the string itself and panics where it is
/// empty, a number, or holds a character that cannot stand in an identifier;
/// inside a running macro the compiler judges it, panics where it is not an
/// identifier or keyword of the language, and may normalize it. `requires`
/// admits plain identifiers only: both judges take them, and both keep them
/// as they are. So the token that comes back carries the given string.
/// Nothing is claimed of its span.
#[verifier::external_body]
fn new_ident(text: &str) -> (ident: Ident)
    requires
        is_plain_identifier(text@),
    ensures
        ident_text(ident) == text@,
{
    Ident::new(text, Span::call_site())
}

/// Tells whether `text` is a plain identifier.
pub fn is_plain_identifier_text(text: &str) -> (yes: bool)
    ensures
        yes == is_plain_identifier(text@),
{
    let mut empty = true;
    let mut alone = false;
    let mut underscore = false;
    let mut legal = true;
    for ch in it: text.chars()
        invariant
            it.seq() == text@,
            empty <==> it.index() == 0,
            alone <==> it.index() == 1,
            underscore <==> it.index() > 0 && text@[0] == '_',
            legal <==> (it.index() > 0 ==> is_plain_letter(text@[0]) || text@[0] == '_')
                && forall|i: int| 1 <= i < it.index() ==> is_plain_continue(#[trigger] text@[i]),
    {
        let letter = ('a' <= ch && ch <= 'z') || ('A' <= ch && ch <= 'Z');
        if empty {
            underscore = ch == '_';
            if !(letter || underscore) {
                legal = false;
            }
        } else {
            if !(letter || ('0' <= ch && ch <= '9') || ch == '_') {
                legal = false;
            }
        }
        alone = empty;
        empty = false;
    }
    !empty && legal && !(alone && underscore)
}

/// Makes the identifier token for a raw path segment: the segment is
/// sanitized, and the token is made from the sanitized text. A token is made
/// where the sanitized text is a plain identifier, and only there: whether
/// other text makes a token is for the compiler that runs the macro to say.
pub fn convert_string_to_ident(string: &str) -> (ident: Option<Ident>)
    ensures
        ident is Some <==> is_plain_identifier(sanitized(string@)),
        ident matches Some(token) ==> ident_text(token) == sanitized(string@),
{
    let text = sanitize(string);
    if is_plain_identifier_text(text.as_str()) {
        Some(new_ident(text.as_str()))
    } else {
        None
    }
}

} // verus!
