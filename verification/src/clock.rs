//! Wall-clock and identifier sources. Both depend on the machine or on
//! chance, so only what holds of every outcome is promised of their results:
//! the logic that uses them takes the value as an argument and is verified
//! for every value.

use vstd::prelude::*;

verus! {

/// Seconds since the Unix epoch, from `std::time::SystemTime::now()`
/// (a clock before the epoch reads as 0). Nothing is stated of the value.
#[verifier::external_body]
pub(crate) fn wall_clock_secs() -> (r: u64) {
    std::time::SystemTime::now().duration_since(std::time::UNIX_EPOCH).unwrap_or_default().as_secs()
}

/// A lower-case hexadecimal digit.
pub open spec fn is_hex_lower(c: char) -> bool {
    ('0' <= c && c <= '9') || ('a' <= c && c <= 'f')
}

/// The hyphenated text form of a random (version 4, RFC 4122 variant) UUID:
/// 8-4-4-4-12 lower-case hex digits.
pub open spec fn uuid_v4_text(s: Seq<char>) -> bool {
    &&& s.len() == 36
    &&& forall|i: int|
        0 <= i < 36 ==> if i == 8 || i == 13 || i == 18 || i == 23 {
            s[i] == '-'
        } else {
            is_hex_lower(#[trigger] s[i])
        }
    &&& s[14] == '4'
    &&& (s[19] == '8' || s[19] == '9' || s[19] == 'a' || s[19] == 'b')
}

/// A fresh random identifier: `uuid::Uuid::new_v4()` rendered with
/// `to_string()`. The value is random; what is stated is the text form that
/// every outcome has (`Display` of a `Uuid` is its hyphenated lower-case hex,
/// and `new_v4` sets the version and variant bits).
#[verifier::external_body]
pub(crate) fn uuid4() -> (r: String)
    ensures
        uuid_v4_text(r@),
{
    uuid::Uuid::new_v4().to_string()
}

} // verus!
