//! Rendering of text and numbers inside messages.

use vstd::prelude::*;
use vstd::string::*;

verus! {

/// What `{:?}` renders for a string: the string in quotation marks, with the characters
/// escaped that the standard library escapes.
pub uninterp spec fn debug_text(text: Seq<char>) -> Seq<char>;

/// A text of ASCII letters, digits and underscores, as every name in a GraphQL document is.
pub open spec fn plain_name(text: Seq<char>) -> bool {
    forall|i: int|
        0 <= i < text.len() ==> {
            ||| 'a' <= #[trigger] text[i] <= 'z'
            ||| 'A' <= text[i] <= 'Z'
            ||| '0' <= text[i] <= '9'
            ||| text[i] == '_'
        }
}

/// A text as messages show it: a plain name between quotation marks, and any other text as
/// `{:?}` renders it.
pub open spec fn quoted_text(text: Seq<char>) -> Seq<char> {
    if plain_name(text) {
        seq!['"'] + text + seq!['"']
    } else {
        debug_text(text)
    }
}

/// The `Debug` rendering of a `str`, through `format!`. The text alone determines it. A plain
/// name holds no character that is escaped, so it stands unchanged between quotation marks.
/// Which other characters are escaped rests on the standard library's Unicode tables and is
/// left unsaid.
#[verifier::external_body]
pub(crate) fn quoted(text: &str) -> (r: String)
    ensures
        r@ == debug_text(text@),
        plain_name(text@) ==> r@ == seq!['"'] + text@ + seq!['"'],
{
    format!("{:?}", text)
}

/// The decimal digits, in order.
pub const DIGITS: &'static str = "0123456789";

/// A number in decimal digits.
pub open spec fn decimal(n: nat) -> Seq<char>
    decreases n,
{
    let digit = seq![DIGITS@[(n % 10) as int]];
    if n < 10 {
        digit
    } else {
        decimal(n / 10) + digit
    }
}

/// The text with the number in decimal digits behind it.
pub(crate) fn with_number(text: &str, n: u32) -> (r: String)
    ensures
        r@ == text@ + decimal(n as nat),
    decreases n,
{
    proof {
        reveal_strlit("0123456789");
    }
    let mut r = if n < 10 {
        text.to_owned()
    } else {
        with_number(text, n / 10)
    };
    let digit = (n % 10) as usize;
    r.append(DIGITS.substring_char(digit, digit + 1));
    assert(r@ =~= text@ + decimal(n as nat));
    r
}

} // verus!
