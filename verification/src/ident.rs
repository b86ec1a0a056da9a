//! Identifiers for new items.

use vstd::prelude::*;
use vstd::string::*;

verus! {

/// A digit of a lower-case hexadecimal number.
pub open spec fn hex_digit(c: char) -> bool {
    '0' <= c <= '9' || 'a' <= c <= 'f'
}

/// The text of a uuid: 32 lower-case hexadecimal digits in groups of 8, 4, 4, 4
/// and 12, with hyphens between them.
pub open spec fn is_uuid(t: Seq<char>) -> bool {
    &&& t.len() == 36
    &&& forall|i: int|
        0 <= i < 36 ==> if i == 8 || i == 13 || i == 18 || i == 23 {
            #[trigger] t[i] == '-'
        } else {
            hex_digit(t[i])
        }
}

/// A fresh random identifier.
///
/// `uuid::Uuid::new_v4` draws it from the operating system's random numbers, so
/// that which one comes out is left unsaid; its `Display` writes the hyphenated
/// lower-case form, which is what the contract claims.
#[verifier::external_body]
pub(crate) fn new_uuid() -> (r: String)
    ensures
        is_uuid(r@),
{
    uuid::Uuid::new_v4().to_string()
}

} // verus!
