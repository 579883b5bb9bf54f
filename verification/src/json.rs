//! Text and lists as JSON writes them.

use crate::digest::hex_digit;
use vstd::prelude::*;

verus! {

/// A character as it stands in a JSON string.
pub open spec fn escaped(c: char) -> Seq<char> {
    if c == '"' || c == '\\' {
        seq!['\\', c]
    } else if c as int == 8 {
        seq!['\\', 'b']
    } else if c as int == 9 {
        seq!['\\', 't']
    } else if c as int == 10 {
        seq!['\\', 'n']
    } else if c as int == 12 {
        seq!['\\', 'f']
    } else if c as int == 13 {
        seq!['\\', 'r']
    } else if (c as int) < 32 {
        seq!['\\', 'u', '0', '0', hex_digit(c as int / 16), hex_digit(c as int % 16)]
    } else {
        seq![c]
    }
}

/// A text as a JSON string.
pub open spec fn quoted(s: Seq<char>) -> Seq<char> {
    seq!['"'] + s.flat_map(|c: char| escaped(c)) + seq!['"']
}

/// Calls `serde_json::to_string` on a text. Trusted: the result is the text between double quotes, in
/// which double quotes, backslashes and the characters below the space are escaped, those of them
/// that have a letter by their letter and the others by four hexadecimal digits in lower case, and
/// everything else stands as it is. Writing a text cannot fail.
#[verifier::external_body]
pub(crate) fn json_string(s: &str) -> (res: String)
    ensures
        res@ == quoted(s@),
{
    serde_json::to_string(s).unwrap_or_default()
}

/// The first `n` texts with commas between them.
pub open spec fn listed(texts: Seq<Seq<char>>, n: int) -> Seq<char>
    decreases n,
{
    if n <= 0 {
        Seq::empty()
    } else if n == 1 {
        texts[0]
    } else {
        listed(texts, n - 1) + ","@ + texts[n - 1]
    }
}

} // verus!
