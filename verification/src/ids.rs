//! Identifiers and the clock.

use vstd::prelude::*;
use vstd::utf8::*;

verus! {

/// The hyphenated text of the version 5 UUID of a name, given by its bytes, in
/// the namespace of ISO object identifiers.
pub uninterp spec fn oid_uuid_text(name: Seq<u8>) -> Seq<char>;

/// `uuid::Uuid::new_v5` in `uuid::Uuid::NAMESPACE_OID`, printed. The UUID is the
/// SHA-1 hash of the namespace and the name, so it is kept as a name of the
/// bytes that are hashed. Its text has 36 characters.
#[verifier::external_body]
pub(crate) fn oid_uuid(name: &str) -> (r: String)
    ensures
        r@ == oid_uuid_text(encode_utf8(name@)),
        r@.len() == 36,
{
    uuid::Uuid::new_v5(&uuid::Uuid::NAMESPACE_OID, name.as_bytes()).to_string()
}

/// `uuid::Uuid::new_v4`, printed. The UUID is random; its text has 36
/// characters whatever comes.
#[verifier::external_body]
pub(crate) fn random_uuid() -> (r: String)
    ensures
        r@.len() == 36,
{
    uuid::Uuid::new_v4().to_string()
}

/// `std::time::SystemTime::now`, as the milliseconds since the start of the
/// year 1970, or nothing for a clock that stands before it. Nothing is claimed
/// of the time.
#[verifier::external_body]
fn system_millis() -> (r: Option<u128>) {
    std::time::SystemTime::now().duration_since(std::time::UNIX_EPOCH).ok().map(|d| d.as_millis())
}

/// A clock reading as a timestamp: the milliseconds in the range of a `u64`,
/// and 0 for a clock that stands before the start of 1970.
pub fn timestamp_ms(elapsed: Option<u128>) -> (r: u64)
    ensures
        r == (match elapsed {
            Some(ms) => ms % 0x1_0000_0000_0000_0000,
            None => 0,
        }),
{
    match elapsed {
        Some(ms) => (ms % 0x1_0000_0000_0000_0000) as u64,
        None => 0,
    }
}

/// The present time.
pub fn current_time_ms() -> (r: u64) {
    timestamp_ms(system_millis())
}

} // verus!
