//! Text conversions the wire format relies on: decimal integers and UTF-8.

use vstd::prelude::*;
use vstd::utf8::*;

verus! {

/// `c` is one of the ASCII digits `0` to `9`.
pub open spec fn is_digit(c: char) -> bool {
    '0' <= c && c <= '9'
}

/// The numeric value of the ASCII digit `c`.
pub open spec fn digit_value(c: char) -> int {
    (c as int) - ('0' as int)
}

/// The value of a string of decimal digits, most significant first.
pub open spec fn digits_value(d: Seq<char>) -> int
    decreases d.len(),
{
    if d.len() == 0 {
        0
    } else {
        digits_value(d.drop_last()) * 10 + digit_value(d.last())
    }
}

/// Every character of `d` is a decimal digit.
pub open spec fn all_digits(d: Seq<char>) -> bool {
    forall|i: int| 0 <= i < d.len() ==> is_digit(#[trigger] d[i])
}

/// The integer written by `s`: an optional `+` or `-` sign followed by one
/// or more decimal digits, and nothing else.
pub open spec fn decimal_value(s: Seq<char>) -> Option<int> {
    let signed = s.len() > 0 && (s[0] == '-' || s[0] == '+');
    let body = if signed { s.drop_first() } else { s };
    if body.len() > 0 && all_digits(body) {
        if signed && s[0] == '-' {
            Some(-digits_value(body))
        } else {
            Some(digits_value(body))
        }
    } else {
        None
    }
}

/// The ASCII digit for `d` in `0..10`.
pub open spec fn digit_char(d: int) -> char {
    (d + ('0' as int)) as char
}

/// The shortest decimal digits of the natural number `n`.
pub open spec fn nat_digits(n: nat) -> Seq<char>
    decreases n,
{
    if n < 10 {
        seq![digit_char(n as int)]
    } else {
        nat_digits(n / 10).push(digit_char((n % 10) as int))
    }
}

/// The decimal text of `v`: its digits, after a `-` when it is negative.
pub open spec fn int_decimal(v: int) -> Seq<char> {
    if v < 0 {
        seq!['-'] + nat_digits((-v) as nat)
    } else {
        nat_digits(v as nat)
    }
}

/// The digits of a natural number are decimal digits that read back as it.
pub proof fn lemma_nat_digits(n: nat)
    ensures
        nat_digits(n).len() > 0,
        all_digits(nat_digits(n)),
        digits_value(nat_digits(n)) == n,
    decreases n,
{
    if n < 10 {
        let d = nat_digits(n);
        assert(d.drop_last() =~= Seq::<char>::empty());
        assert(digits_value(d) == digits_value(d.drop_last()) * 10 + digit_value(d.last()));
    } else {
        lemma_nat_digits(n / 10);
        let d = nat_digits(n);
        assert(d.drop_last() =~= nat_digits(n / 10));
        assert(n == (n / 10) * 10 + n % 10) by (nonlinear_arith);
        assert(digits_value(d) == digits_value(d.drop_last()) * 10 + digit_value(d.last()));
    }
}

/// Decimal text written for any integer reads back as that integer, and
/// holds only digits and `-`.
pub proof fn lemma_decimal_roundtrip(v: int)
    ensures
        decimal_value(int_decimal(v)) == Some(v),
        forall|i: int|
            0 <= i < int_decimal(v).len() ==> #[trigger] int_decimal(v)[i] == '-' || is_digit(
                int_decimal(v)[i],
            ),
        is_ascii_chars(int_decimal(v)),
{
    if v < 0 {
        lemma_nat_digits((-v) as nat);
        let s = int_decimal(v);
        assert(s.drop_first() =~= nat_digits((-v) as nat));
    } else {
        lemma_nat_digits(v as nat);
    }
}

/// What `str::parse::<i64>` yields for `s`.
pub open spec fn parsed_i64(s: Seq<char>) -> Option<i64> {
    match decimal_value(s) {
        Some(v) => if i64::MIN <= v && v <= i64::MAX { Some(v as i64) } else { None },
        None => None,
    }
}

/// What `str::parse::<isize>` yields for `s`.
pub open spec fn parsed_isize(s: Seq<char>) -> Option<isize> {
    match decimal_value(s) {
        Some(v) => if isize::MIN <= v && v <= isize::MAX { Some(v as isize) } else { None },
        None => None,
    }
}

/// Parses a decimal `i64` with `str::parse`: an optional sign, then digits,
/// within the range of `i64`; anything else is refused.
#[verifier::external_body]
pub(crate) fn parse_i64(s: &str) -> (res: Option<i64>)
    ensures
        res == parsed_i64(s@),
{
    s.parse::<i64>().ok()
}

/// Parses a decimal `isize` with `str::parse`: an optional sign, then
/// digits, within the range of `isize`; anything else is refused.
#[verifier::external_body]
pub(crate) fn parse_isize(s: &str) -> (res: Option<isize>)
    ensures
        res == parsed_isize(s@),
{
    s.parse::<isize>().ok()
}

/// Formats an `i64` in decimal through its `Display` impl.
#[verifier::external_body]
pub(crate) fn i64_to_string(v: i64) -> (res: String)
    ensures
        res@ == int_decimal(v as int),
{
    v.to_string()
}

/// Formats a `usize` in decimal through its `Display` impl.
#[verifier::external_body]
pub(crate) fn usize_to_string(v: usize) -> (res: String)
    ensures
        res@ == int_decimal(v as int),
{
    v.to_string()
}

/// Reads bytes as UTF-8 text with `std::str::from_utf8`: `None` exactly when
/// they are not well-formed UTF-8.
#[verifier::external_body]
pub(crate) fn str_from_utf8(bytes: &[u8]) -> (res: Option<&str>)
    ensures
        res is Some <==> valid_utf8(bytes@),
        res matches Some(s) ==> s@ == decode_utf8(bytes@),
{
    std::str::from_utf8(bytes).ok()
}

/// Turns bytes into an owned `String` with `String::from_utf8`: `None`
/// exactly when they are not well-formed UTF-8.
#[verifier::external_body]
pub(crate) fn string_from_utf8(bytes: Vec<u8>) -> (res: Option<String>)
    ensures
        res is Some <==> valid_utf8(bytes@),
        res matches Some(s) ==> s@ == decode_utf8(bytes@),
{
    String::from_utf8(bytes).ok()
}

/// The text that `String::from_utf8_lossy` makes of `bytes`, where each
/// ill-formed sequence becomes U+FFFD.
pub uninterp spec fn utf8_lossy(bytes: Seq<u8>) -> Seq<char>;

/// Decodes bytes with `String::from_utf8_lossy`. Of well-formed UTF-8 it
/// gives the decoded text; of other input only that the result is the
/// function's replacement text is stated, not how the replacement is made.
#[verifier::external_body]
pub(crate) fn utf8_lossy_string(bytes: &[u8]) -> (res: String)
    ensures
        res@ == utf8_lossy(bytes@),
        valid_utf8(bytes@) ==> res@ == decode_utf8(bytes@),
{
    String::from_utf8_lossy(bytes).into_owned()
}

/// The text that `str::to_uppercase` makes of `s`, by the Unicode
/// uppercase mapping.
pub uninterp spec fn uppercase(s: Seq<char>) -> Seq<char>;

/// `c` with the ASCII letters `a` to `z` turned into `A` to `Z`.
pub open spec fn ascii_upper_char(c: char) -> char {
    if 'a' <= c && c <= 'z' {
        ((c as int) - 32) as char
    } else {
        c
    }
}

/// `s` with its ASCII lower-case letters turned into upper case.
pub open spec fn ascii_upper(s: Seq<char>) -> Seq<char> {
    Seq::new(s.len(), |i: int| ascii_upper_char(s[i]))
}

/// Upper-cases text with `str::to_uppercase`. On ASCII text this maps `a`
/// to `z` onto `A` to `Z` and keeps every other character; on other text
/// only that the result is the Unicode mapping is stated.
#[verifier::external_body]
pub(crate) fn to_uppercase(s: &str) -> (res: String)
    ensures
        res@ == uppercase(s@),
        is_ascii_chars(s@) ==> res@ == ascii_upper(s@),
{
    s.to_uppercase()
}

/// Tells whether two texts are the same, comparing their UTF-8 bytes.
pub fn same_text(a: &str, b: &str) -> (res: bool)
    ensures
        res == (a@ == b@),
{
    let x = a.as_bytes();
    let y = b.as_bytes();
    proof {
        encode_utf8_decode_utf8(a@);
        encode_utf8_decode_utf8(b@);
    }
    assert(x@ == encode_utf8(a@) && y@ == encode_utf8(b@));
    if x.len() != y.len() {
        return false;
    }
    let mut i: usize = 0;
    while i < x.len()
        invariant
            x@.len() == y@.len(),
            i <= x@.len(),
            forall|j: int| 0 <= j < i ==> #[trigger] x@[j] == y@[j],
            x@ == encode_utf8(a@) && y@ == encode_utf8(b@),
            decode_utf8(encode_utf8(a@)) == a@ && decode_utf8(encode_utf8(b@)) == b@,
        decreases x@.len() - i,
    {
        if x[i] != y[i] {
            assert(x@ != y@);
            return false;
        }
        i = i + 1;
    }
    assert(x@ =~= y@);
    true
}

} // verus!
