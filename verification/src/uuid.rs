//! Card identity: a 128-bit id, plus the calls into the `uuid` crate
//! that mint, parse and print one.

use vstd::prelude::*;

verus! {

/// Stable identity of a card.
#[derive(Clone, Copy, Debug, PartialEq, Eq, Hash, Structural)]
pub struct Uuid {
    pub bits: u128,
}

/// The 128-bit value named by a textual UUID, if the text is one.
pub uninterp spec fn uuid_of_str(s: Seq<char>) -> Option<u128>;

/// The lowercase hex digit of a nibble value.
pub open spec fn hex_digit(n: int) -> char {
    if n == 0 {
        '0'
    } else if n == 1 {
        '1'
    } else if n == 2 {
        '2'
    } else if n == 3 {
        '3'
    } else if n == 4 {
        '4'
    } else if n == 5 {
        '5'
    } else if n == 6 {
        '6'
    } else if n == 7 {
        '7'
    } else if n == 8 {
        '8'
    } else if n == 9 {
        '9'
    } else if n == 10 {
        'a'
    } else if n == 11 {
        'b'
    } else if n == 12 {
        'c'
    } else if n == 13 {
        'd'
    } else if n == 14 {
        'e'
    } else {
        'f'
    }
}

/// Which nibble of the id, counted from the most significant, stands
/// at a position of its text, once the four hyphens are skipped.
pub open spec fn uuid_nibble_at(i: int) -> int {
    if i < 8 {
        i
    } else if i < 13 {
        i - 1
    } else if i < 18 {
        i - 2
    } else if i < 23 {
        i - 3
    } else {
        i - 4
    }
}

/// The hyphenated lowercase text of a 128-bit UUID value: 32 hex
/// digits, most significant first, in groups of 8-4-4-4-12.
pub open spec fn spec_uuid_text(u: u128) -> Seq<char> {
    Seq::new(
        36,
        |i: int|
            if i == 8 || i == 13 || i == 18 || i == 23 {
                '-'
            } else {
                hex_digit(((u >> (((31 - uuid_nibble_at(i)) * 4) as u128)) & 0xf) as int)
            },
    )
}

impl Uuid {
    /// Mints a new random id.
    pub fn fresh() -> (r: Uuid)
        ensures
            (r.bits >> 76) & 0xf == 4,
            (r.bits >> 62) & 0x3 == 2,
    {
        Uuid { bits: fresh_v4_bits() }
    }
}

/// Relies on `uuid::Uuid::new_v4`: a random UUID whose version nibble
/// is 4 and whose variant bits are `10`, the rest drawn at random.
#[verifier::external_body]
fn fresh_v4_bits() -> (r: u128)
    ensures
        (r >> 76) & 0xf == 4,
        (r >> 62) & 0x3 == 2,
{
    ::uuid::Uuid::new_v4().as_u128()
}

/// Relies on `uuid::Uuid::parse_str`: reads the textual UUID forms and
/// yields the 128-bit value; the outcome depends on the text alone.
#[verifier::external_body]
pub(crate) fn parse_uuid(s: &str) -> (r: Option<u128>)
    ensures
        r == uuid_of_str(s@),
{
    match ::uuid::Uuid::parse_str(s) {
        Ok(u) => Some(u.as_u128()),
        Err(_) => None,
    }
}

/// Relies on `uuid::Uuid`'s display form: the hyphenated lowercase
/// text of the bits, as `spec_uuid_text` states it.
#[verifier::external_body]
pub(crate) fn format_uuid(u: u128) -> (r: String)
    ensures
        r@ == spec_uuid_text(u),
{
    format!("{}", ::uuid::Uuid::from_u128(u))
}

} // verus!

