//! Character-level helpers: decimal and hexadecimal renderings, and the
//! one `String` operation of std that the rest of the library builds on.

use vstd::prelude::*;
use vstd::string::StrSliceExecFns;
use vstd::utf8::is_ascii_chars;

verus! {

/// The ASCII digit for a value below ten.
pub open spec fn digit_char(d: nat) -> char {
    if d == 0 { '0' }
    else if d == 1 { '1' }
    else if d == 2 { '2' }
    else if d == 3 { '3' }
    else if d == 4 { '4' }
    else if d == 5 { '5' }
    else if d == 6 { '6' }
    else if d == 7 { '7' }
    else if d == 8 { '8' }
    else { '9' }
}

/// The decimal rendering of a natural number, without sign or leading zeros.
pub open spec fn spec_decimal(n: nat) -> Seq<char>
    decreases n,
{
    if n < 10 {
        seq![digit_char(n)]
    } else {
        spec_decimal(n / 10).push(digit_char(n % 10))
    }
}

/// The lowercase hexadecimal digit for a value below sixteen.
pub open spec fn hex_digit(d: nat) -> char {
    if d < 10 {
        digit_char(d)
    } else if d == 10 {
        'a'
    } else if d == 11 {
        'b'
    } else if d == 12 {
        'c'
    } else if d == 13 {
        'd'
    } else if d == 14 {
        'e'
    } else {
        'f'
    }
}

/// Two lowercase hexadecimal digits for one byte, high nibble first.
pub open spec fn hex_byte(b: u8) -> Seq<char> {
    seq![hex_digit((b / 16) as nat), hex_digit((b % 16) as nat)]
}

/// The lowercase hexadecimal rendering of a byte string.
pub open spec fn spec_hex_lower(data: Seq<u8>) -> Seq<char>
    decreases data.len(),
{
    if data.len() == 0 {
        Seq::empty()
    } else {
        spec_hex_lower(data.drop_last()) + hex_byte(data.last())
    }
}

/// Appends one character to a string (`String::push`).
#[verifier::external_body]
pub fn push_char(s: &mut String, c: char)
    ensures
        final(s)@ == old(s)@.push(c),
{
    s.push(c);
}

/// Appends the decimal rendering of `n` to a string.
fn push_decimal(out: &mut String, n: u64)
    ensures
        final(out)@ == old(out)@ + spec_decimal(n as nat),
    decreases n,
{
    if n < 10 {
        push_char(out, decimal_digit_char(n as u8));
        assert(final(out)@ =~= old(out)@ + spec_decimal(n as nat)) by {
            assert(spec_decimal(n as nat) == seq![digit_char(n as nat)]);
        }
    } else {
        push_decimal(out, n / 10);
        push_char(out, decimal_digit_char((n % 10) as u8));
        assert(out@ =~= old(out)@ + spec_decimal(n as nat));
    }
}

/// Renders an unsigned integer in decimal, as `Display` for integers does.
pub fn decimal_string(n: u64) -> (r: String)
    ensures
        r@ == spec_decimal(n as nat),
{
    let mut s = String::new();
    push_decimal(&mut s, n);
    assert(s@ =~= spec_decimal(n as nat));
    s
}

/// The lowercase hexadecimal digit for a nibble.
pub fn hex_digit_char(d: u8) -> (c: char)
    requires
        d < 16,
    ensures
        c == hex_digit(d as nat),
{
    if d < 10 {
        decimal_digit_char(d)
    } else if d == 10 {
        'a'
    } else if d == 11 {
        'b'
    } else if d == 12 {
        'c'
    } else if d == 13 {
        'd'
    } else if d == 14 {
        'e'
    } else {
        'f'
    }
}

/// The ASCII digit for a value below ten.
pub fn decimal_digit_char(d: u8) -> (c: char)
    requires
        d < 10,
    ensures
        c == digit_char(d as nat),
{
    if d == 0 { '0' }
    else if d == 1 { '1' }
    else if d == 2 { '2' }
    else if d == 3 { '3' }
    else if d == 4 { '4' }
    else if d == 5 { '5' }
    else if d == 6 { '6' }
    else if d == 7 { '7' }
    else if d == 8 { '8' }
    else { '9' }
}

/// Whether two string slices hold the same characters.
pub fn str_equal(a: &str, b: &str) -> (r: bool)
    ensures
        r == (a@ == b@),
{
    let n = a.unicode_len();
    let m = b.unicode_len();
    if n != m {
        return false;
    }
    let mut i: usize = 0;
    while i < n
        invariant
            n == a@.len(),
            m == b@.len(),
            n == m,
            i <= n,
            a@.subrange(0, i as int) == b@.subrange(0, i as int),
        decreases n - i,
    {
        if a.get_char(i) != b.get_char(i) {
            assert(a@[i as int] != b@[i as int]);
            return false;
        }
        assert(a@.subrange(0, i + 1) =~= a@.subrange(0, i as int).push(a@[i as int]));
        assert(b@.subrange(0, i + 1) =~= b@.subrange(0, i as int).push(b@[i as int]));
        i = i + 1;
    }
    assert(a@ =~= a@.subrange(0, n as int));
    assert(b@ =~= b@.subrange(0, n as int));
    true
}

pub(crate) proof fn lemma_hex_lower_shape(d: Seq<u8>)
    ensures
        spec_hex_lower(d).len() == 2 * d.len(),
        forall|i: int|
            0 <= i < d.len() ==> spec_hex_lower(d)[2 * i] == hex_digit((d[i] / 16) as nat)
                && spec_hex_lower(d)[2 * i + 1] == hex_digit((d[i] % 16) as nat),
        is_ascii_chars(spec_hex_lower(d)),
    decreases d.len(),
{
    if d.len() > 0 {
        let t = d.drop_last();
        lemma_hex_lower_shape(t);
        let h = spec_hex_lower(d);
        assert(h == spec_hex_lower(t) + hex_byte(d.last()));
        assert forall|i: int| 0 <= i < d.len() implies h[2 * i] == hex_digit((d[i] / 16) as nat)
            && h[2 * i + 1] == hex_digit((d[i] % 16) as nat) by {
            if i < t.len() {
                assert(t[i] == d[i]);
            }
        }
        assert forall|i: int| 0 <= i < h.len() implies '\0' <= #[trigger] h[i] <= '\u{7f}' by {
            if i < spec_hex_lower(t).len() {
                assert(h[i] == spec_hex_lower(t)[i]);
            } else {
                lemma_hex_digit_ascii((d.last() / 16) as nat);
                lemma_hex_digit_ascii((d.last() % 16) as nat);
            }
        }
    }
}

proof fn lemma_hex_digit_ascii(v: nat)
    ensures
        '\0' <= hex_digit(v) <= '\u{7f}',
{
}


proof fn lemma_hex_digit_injective(a: nat, b: nat)
    requires
        a < 16,
        b < 16,
        hex_digit(a) == hex_digit(b),
    ensures
        a == b,
{
}

/// Different byte strings have different hexadecimal renderings: comparing
/// renderings compares the bytes.
pub proof fn lemma_hex_lower_injective(a: Seq<u8>, b: Seq<u8>)
    ensures
        spec_hex_lower(a) == spec_hex_lower(b) <==> a == b,
{
    if spec_hex_lower(a) == spec_hex_lower(b) {
        lemma_hex_lower_shape(a);
        lemma_hex_lower_shape(b);
        assert(a.len() == b.len());
        assert forall|i: int| 0 <= i < a.len() implies a[i] == b[i] by {
            assert(spec_hex_lower(a)[2 * i] == spec_hex_lower(b)[2 * i]);
            assert(spec_hex_lower(a)[2 * i + 1] == spec_hex_lower(b)[2 * i + 1]);
            lemma_hex_digit_injective((a[i] / 16) as nat, (b[i] / 16) as nat);
            lemma_hex_digit_injective((a[i] % 16) as nat, (b[i] % 16) as nat);
        }
        assert(a =~= b);
    }
}

} // verus!
