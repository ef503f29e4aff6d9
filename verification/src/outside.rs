//! Trusted declarations for the outside functions the engine relies on.
//!
//! Each wrapper's body only makes the call it names; its contract is what
//! the verified code builds on.

use vstd::prelude::*;

verus! {

/// The 64-bit XXH3 hash of a byte string. The hash is a pure function of
/// the bytes, identical on every machine and in every process.
pub uninterp spec fn xxh3_of(bytes: Seq<u8>) -> u64;

/// Relies on xxhash_rust's `xxh3_64`: the unseeded 64-bit XXH3 digest of the
/// input bytes, a function of the bytes alone.
#[verifier::external_body]
pub fn xxh3_64(bytes: &Vec<u8>) -> (r: u64)
    ensures
        r == xxh3_of(bytes@),
{
    xxhash_rust::xxh3::xxh3_64(bytes.as_slice())
}

/// Relies on `String::from_utf8` from std: it returns the string whose
/// UTF-8 encoding is exactly the given bytes, and rejects anything that is
/// not valid UTF-8.
#[verifier::external_body]
pub fn string_from_utf8(bytes: Vec<u8>) -> (r: Option<String>)
    ensures
        match r {
            Some(s) => vstd::utf8::valid_utf8(bytes@) && s@ == vstd::utf8::decode_utf8(bytes@),
            None => !vstd::utf8::valid_utf8(bytes@),
        },
{
    match std::string::String::from_utf8(bytes) {
        Ok(s) => Some(s),
        Err(_) => None,
    }
}

/// Relies on ulid's `Ulid::generate`: a fresh 128-bit ULID. The value
/// depends on the clock and a random source, so nothing is promised of it.
#[verifier::external_body]
pub fn fresh_ulid() -> u128 {
    ulid::Ulid::generate().0
}

/// Relies on std's `SystemTime::now`: the current wall-clock time in
/// milliseconds since the Unix epoch, or zero when the clock reads before
/// the epoch. The value depends on the clock, so nothing is promised of it,
/// and no input can make the call panic.
#[verifier::external_body]
pub fn now_millis() -> i64 {
    match std::time::SystemTime::now().duration_since(std::time::UNIX_EPOCH) {
        Ok(d) => d.as_millis() as i64,
        Err(_) => 0,
    }
}

} // verus!
