//! JSON renderings of plain values through `serde_json`, and the removal
//! of quotation marks that the tracker query applies to them.

use vstd::prelude::*;
use vstd::string::StrSliceExecFns;
use crate::text::{hex_digit, push_char, spec_decimal};

verus! {

/// How `serde_json` writes one character inside a string literal: a
/// quotation mark, a backslash and the control characters below U+0020 are
/// escaped, the control characters that have a short escape by it, the
/// others as `\u00` and two lowercase hexadecimal digits; every other
/// character stands for itself.
pub open spec fn json_escape_char(c: char) -> Seq<char> {
    if c == '"' {
        seq!['\\', '"']
    } else if c == '\\' {
        seq!['\\', '\\']
    } else if c == '\u{8}' {
        seq!['\\', 'b']
    } else if c == '\t' {
        seq!['\\', 't']
    } else if c == '\n' {
        seq!['\\', 'n']
    } else if c == '\u{c}' {
        seq!['\\', 'f']
    } else if c == '\r' {
        seq!['\\', 'r']
    } else if (c as u32) < 0x20 {
        seq!['\\', 'u', '0', '0', hex_digit(((c as u32) / 16) as nat), hex_digit(((c as u32) % 16) as nat)]
    } else {
        seq![c]
    }
}

/// The escaped characters of a string, one after the other.
pub open spec fn json_escape(s: Seq<char>) -> Seq<char>
    decreases s.len(),
{
    if s.len() == 0 {
        Seq::empty()
    } else {
        json_escape(s.drop_last()) + json_escape_char(s.last())
    }
}

/// A string as a JSON string literal.
pub open spec fn spec_json_string(s: Seq<char>) -> Seq<char> {
    seq!['"'] + json_escape(s) + seq!['"']
}

/// A string without its quotation marks.
pub open spec fn strip_quotes(s: Seq<char>) -> Seq<char>
    decreases s.len(),
{
    if s.len() == 0 {
        Seq::empty()
    } else if s.last() == '"' {
        strip_quotes(s.drop_last())
    } else {
        strip_quotes(s.drop_last()).push(s.last())
    }
}

/// `serde_json::to_string` on a string slice. Claimed: the result is the
/// JSON string literal of `s`, escaped as `json_escape_char` states, which
/// is what the crate's serializer writes; it does not fail on a string.
#[verifier::external_body]
pub fn json_string(s: &str) -> (r: String)
    ensures
        r@ == spec_json_string(s@),
{
    serde_json::to_string(s).unwrap()
}

/// `serde_json::to_string` on an unsigned integer. Claimed: the result is
/// its decimal rendering; it does not fail on an integer.
#[verifier::external_body]
pub fn json_u64(n: u64) -> (r: String)
    ensures
        r@ == spec_decimal(n as nat),
{
    serde_json::to_string(&n).unwrap()
}

/// Appends `s` without its quotation marks to `out`.
pub fn push_without_quotes(out: &mut String, s: &str)
    ensures
        final(out)@ == old(out)@ + strip_quotes(s@),
{
    let n = s.unicode_len();
    let mut i: usize = 0;
    while i < n
        invariant
            n == s@.len(),
            i <= n,
            out@ == old(out)@ + strip_quotes(s@.subrange(0, i as int)),
        decreases n - i,
    {
        let c = s.get_char(i);
        assert(s@.subrange(0, i + 1).drop_last() =~= s@.subrange(0, i as int));
        if c != '"' {
            push_char(out, c);
        }
        i = i + 1;
    }
    assert(s@.subrange(0, n as int) =~= s@);
}

} // verus!
