use vstd::prelude::*;
use vstd::arithmetic::power::pow;

verus! {

/// The 128-bit value that `uuid::Uuid::try_parse` reads from a text, if it reads one.
pub uninterp spec fn uuid_text_value(text: Seq<char>) -> Option<u128>;

/// The lower-case hexadecimal digit for `d`, below 16.
pub open spec fn hex_digit(d: int) -> char {
    if d < 10 {
        (48 + d) as char
    } else {
        (87 + d) as char
    }
}

/// Which of the 32 hexadecimal digits stands at position `i` of the hyphenated text, whose
/// hyphens stand at 8, 13, 18 and 23.
pub open spec fn digit_at(i: int) -> int {
    if i < 8 {
        i
    } else if i < 13 {
        i - 1
    } else if i < 18 {
        i - 2
    } else if i < 23 {
        i - 3
    } else {
        i - 4
    }
}

/// The lower-case hyphenated text of a 128-bit value: its 32 hexadecimal digits, most
/// significant first, in groups of 8, 4, 4, 4 and 12 joined by hyphens.
pub open spec fn uuid_hyphenated_lower(u: u128) -> Seq<char> {
    Seq::new(
        36,
        |i: int|
            if i == 8 || i == 13 || i == 18 || i == 23 {
                '-'
            } else {
                hex_digit((u as int / pow(16, (31 - digit_at(i)) as nat)) % 16)
            },
    )
}

/// Calls `uuid::Uuid::try_parse` and gives the value read as a number.
#[verifier::external_body]
fn parse_uuid_text(text: &str) -> (r: Option<u128>)
    ensures
        r == uuid_text_value(text@),
{
    match ::uuid::Uuid::try_parse(text) {
        Ok(u) => Some(u.as_u128()),
        Err(_) => None,
    }
}

/// Calls `uuid::Uuid::from_u128` and writes its lower-case hyphenated form: the value's
/// 16 bytes, most significant first, as lower-case hexadecimal digit pairs, with a hyphen
/// after the 4th, 6th, 8th and 10th byte.
#[verifier::external_body]
fn hyphenated_text(u: u128) -> (r: String)
    ensures
        r@ == uuid_hyphenated_lower(u),
{
    ::uuid::Uuid::from_u128(u).as_hyphenated().to_string()
}

/// Reads a UUID from its text, as a 128-bit number; `None` when the text is not a UUID.
pub fn uuid_from_text(text: &str) -> (r: Option<u128>)
    ensures
        r == uuid_text_value(text@),
{
    parse_uuid_text(text)
}

/// The lower-case hyphenated text of a UUID given as a 128-bit number.
pub fn uuid_hex(u: u128) -> (r: String)
    ensures
        r@ == uuid_hyphenated_lower(u),
        r@.len() == 36,
{
    hyphenated_text(u)
}

} // verus!
