//! Random identifiers and the clock, from outside crates.
use vstd::prelude::*;

verus! {

/// A character of nanoid's URL-safe alphabet.
pub open spec fn is_id_char(c: char) -> bool {
    ('a' <= c <= 'z') || ('A' <= c <= 'Z') || ('0' <= c <= '9') || c == '_' || c == '-'
}

/// Relies on `nanoid::format` with nanoid's default random source and its URL-safe
/// alphabet (what `nanoid!(size)` expands to): it returns `size` characters, each drawn
/// from the alphabet. It never returns for size 0, hence the lower bound; the upper
/// bound keeps its `8 * size` in range.
#[verifier::external_body]
pub(crate) fn random_id(size: usize) -> (r: String)
    requires
        0 < size <= 4096,
    ensures
        r@.len() == size,
        forall|i: int| 0 <= i < size ==> is_id_char(#[trigger] r@[i]),
{
    nanoid::format(nanoid::rngs::default, &nanoid::alphabet::SAFE, size)
}

/// Relies on `uuid::Uuid::new_v4` and its `Display`, the hyphenated form: a random
/// version-4 UUID as 36 characters.
#[verifier::external_body]
pub(crate) fn random_uuid() -> (r: String)
    ensures
        r@.len() == 36,
{
    uuid::Uuid::new_v4().to_string()
}

/// Relies on `chrono::Utc::now` and `DateTime::timestamp_millis`: the current time in
/// milliseconds since the Unix epoch (`Utc::now` panics on a clock set before it).
#[verifier::external_body]
pub(crate) fn now_millis() -> (r: i64)
    ensures
        r >= 0,
{
    chrono::Utc::now().timestamp_millis()
}

} // verus!
