//! The boundary to outside crates: every call the verified code makes into
//! another crate (or into a part of std that carries no specification) goes
//! through one of the trusted items here. Each doc comment names the
//! function relied on and what is assumed of it; nothing else in the crate
//! is taken on trust.

use vstd::prelude::*;

verus! {

// ========== Time (chrono) ==========

/// Relies on `chrono::Utc::now`: the current UTC time, in whole seconds
/// since the epoch. Nothing is promised of the clock's value.
#[verifier::external_body]
pub(crate) fn now_seconds() -> i64 {
    chrono::Utc::now().timestamp()
}

/// Whether chrono can represent this many seconds since the epoch as a UTC
/// date and time.
pub uninterp spec fn ts_in_datetime_range(secs: i64) -> bool;

/// Relies on `chrono::DateTime::from_timestamp`: it returns `Some` exactly
/// on the representable range of seconds, a function of the argument alone,
/// and the epoch second zero is representable.
#[verifier::external_body]
pub(crate) fn timestamp_representable(ts: i64) -> (r: bool)
    ensures
        r == ts_in_datetime_range(ts),
        ts == 0 ==> r,
{
    chrono::DateTime::from_timestamp(ts, 0).is_some()
}

// ========== Identifiers (uuid) ==========

/// Relies on `uuid::Uuid::new_v4`: a fresh random 128-bit identifier.
/// Nothing is promised of its value.
#[verifier::external_body]
pub(crate) fn new_uuid() -> u128 {
    uuid::Uuid::new_v4().as_u128()
}

/// The hyphenated text form of a 128-bit identifier.
pub uninterp spec fn uuid_text(id: u128) -> Seq<char>;

/// Relies on `uuid::Uuid::to_string` (via `from_u128`): the hyphenated
/// form, 36 characters, a function of the identifier alone.
#[verifier::external_body]
pub(crate) fn uuid_to_string(id: u128) -> (r: String)
    ensures
        r@ == uuid_text(id),
        r@.len() == 36,
{
    uuid::Uuid::from_u128(id).to_string()
}

/// The identifier a string parses to, when it is a well-formed UUID.
pub uninterp spec fn parsed_uuid(s: Seq<char>) -> Option<u128>;

/// Relies on `uuid::Uuid::parse_str`: deterministic in its input.
#[verifier::external_body]
pub(crate) fn parse_uuid(s: &str) -> (r: Option<u128>)
    ensures
        r == parsed_uuid(s@),
{
    match uuid::Uuid::parse_str(s) {
        Ok(u) => Some(u.as_u128()),
        Err(_) => None,
    }
}

// ========== Printable key encoding (bs58) ==========

/// The base58 text (Bitcoin alphabet) of a byte string.
pub uninterp spec fn base58_text(bytes: Seq<u8>) -> Seq<char>;

/// Relies on `bs58::encode`: deterministic in its input; the empty input
/// encodes to the empty string.
#[verifier::external_body]
pub(crate) fn base58_encode(bytes: &[u8]) -> (r: String)
    ensures
        r@ == base58_text(bytes@),
        bytes@.len() == 0 ==> r@.len() == 0,
{
    bs58::encode(bytes).into_string()
}

// ========== JSON columns (serde_json) ==========

/// The list of strings a JSON document decodes to, when it is a JSON array
/// of strings.
pub uninterp spec fn parsed_string_list(s: Seq<char>) -> Option<Seq<Seq<char>>>;

/// Relies on `serde_json::from_str::<Vec<String>>`: deterministic in its
/// input; it fails exactly on input that is not a JSON array of strings.
#[verifier::external_body]
pub(crate) fn parse_string_list(s: &str) -> (r: Option<Vec<String>>)
    ensures
        match r {
            Some(v) => parsed_string_list(s@) == Some(v.deep_view()),
            None => parsed_string_list(s@) is None,
        },
{
    serde_json::from_str::<Vec<String>>(s).ok()
}

/// The (score, timestamp) pairs a JSON document decodes to, when it is a
/// JSON array of two-element `[number, number]` arrays in range.
pub uninterp spec fn parsed_history_pairs(s: Seq<char>) -> Option<Seq<(u32, i64)>>;

/// Relies on `serde_json::from_str::<Vec<(u32, i64)>>`: deterministic in
/// its input; it fails exactly on input that is not such an array.
#[verifier::external_body]
pub(crate) fn parse_history_pairs(s: &str) -> (r: Option<Vec<(u32, i64)>>)
    ensures
        match r {
            Some(v) => parsed_history_pairs(s@) == Some(v@),
            None => parsed_history_pairs(s@) is None,
        },
{
    serde_json::from_str::<Vec<(u32, i64)>>(s).ok()
}

// ========== Text decoding (std) ==========

/// Relies on `String::from_utf8`: it succeeds exactly on valid UTF-8 and
/// returns the characters those bytes encode.
#[verifier::external_body]
pub(crate) fn bytes_to_string(bytes: Vec<u8>) -> (r: Option<String>)
    ensures
        match r {
            Some(s) => vstd::utf8::valid_utf8(bytes@) && vstd::utf8::encode_utf8(s@) == bytes@,
            None => !vstd::utf8::valid_utf8(bytes@),
        },
{
    String::from_utf8(bytes).ok()
}

} // verus!
