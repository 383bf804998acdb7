//! The calls this library makes into other crates and into parts of `std`
//! that vstd does not specify. Each item states what the library relies on.
use vstd::prelude::*;

use std::time::{Duration, SystemTime};

use crate::text::{ascii_lower, is_ascii_digit, is_ascii_text};

verus! {

// ---------------------------------------------------------------------------
// uuid
// ---------------------------------------------------------------------------
/// A lowercase hexadecimal digit.
pub open spec fn is_lower_hex(c: char) -> bool {
    is_ascii_digit(c) || ('a' <= c <= 'f')
}

/// The hyphenated lowercase text of a UUID: 36 characters, hyphens at
/// positions 8, 13, 18 and 23, lowercase hexadecimal digits elsewhere.
pub open spec fn is_uuid_text(s: Seq<char>) -> bool {
    &&& s.len() == 36
    &&& forall|i: int|
        0 <= i < 36 ==> if i == 8 || i == 13 || i == 18 || i == 23 {
            #[trigger] s[i] == '-'
        } else {
            is_lower_hex(s[i])
        }
}

/// The text of a random (version 4, RFC 4122 variant) UUID: version digit
/// `4`, variant digit one of `8`, `9`, `a`, `b`.
pub open spec fn is_v4_uuid_text(s: Seq<char>) -> bool {
    &&& is_uuid_text(s)
    &&& s[14] == '4'
    &&& (s[19] == '8' || s[19] == '9' || s[19] == 'a' || s[19] == 'b')
}

/// `uuid::Uuid::new_v4`, given as text by its `Display` (`to_string`).
/// Claimed: the text is the hyphenated lowercase form (`Display` writes
/// `LowerHex` of the hyphenated encoding), with the version and variant
/// bits that `new_v4` sets, and `Uuid::parse_str` accepts it (it parses
/// any hyphenated hexadecimal text). Nothing is claimed of the random
/// digits.
#[verifier::external_body]
pub(crate) fn new_uuid_text() -> (s: String)
    ensures
        is_v4_uuid_text(s@),
        uuid_str_parses(s@),
{
    uuid::Uuid::new_v4().to_string()
}

/// Whether `uuid::Uuid::parse_str` accepts the text.
pub uninterp spec fn uuid_str_parses(s: Seq<char>) -> bool;

/// `uuid::Uuid::parse_str`: claimed only to be a function of its input,
/// `uuid_str_parses`.
#[verifier::external_body]
pub(crate) fn parses_as_uuid(s: &str) -> (b: bool)
    ensures
        b == uuid_str_parses(s@),
{
    uuid::Uuid::parse_str(s).is_ok()
}

// ---------------------------------------------------------------------------
// Clock
// ---------------------------------------------------------------------------
#[verifier::external_type_specification]
#[verifier::external_body]
pub struct ExSystemTime(SystemTime);

/// `SystemTime::now`. Nothing is claimed of its value.
#[verifier::external_body]
fn system_now() -> SystemTime {
    SystemTime::now()
}

/// `SystemTime::duration_since(UNIX_EPOCH)`, with the error (a clock before
/// the epoch) as `None`. Nothing is claimed of its value.
#[verifier::external_body]
fn since_epoch(t: &SystemTime) -> Option<Duration> {
    t.duration_since(std::time::UNIX_EPOCH).ok()
}

/// `Duration::as_secs`. Nothing is claimed of its value.
#[verifier::external_body]
fn whole_seconds(d: &Duration) -> u64 {
    d.as_secs()
}

/// A creation time from the whole seconds elapsed since the Unix epoch:
/// those seconds as `i64` (wrapping as `as` does), zero when the clock read
/// before the epoch.
pub fn unix_seconds(elapsed: Option<u64>) -> (r: i64)
    ensures
        r == match elapsed {
            Some(s) => s as i64,
            None => 0i64,
        },
{
    match elapsed {
        Some(s) => s as i64,
        None => 0,
    }
}

/// Seconds since the Unix epoch, truncated to `i64`; zero when the clock
/// reads before the epoch. The value is the clock's: nothing is claimed
/// of it.
pub fn now_unix() -> i64 {
    let now = system_now();
    let elapsed = match since_epoch(&now) {
        Some(d) => Some(whole_seconds(&d)),
        None => None,
    };
    unix_seconds(elapsed)
}

// ---------------------------------------------------------------------------
// Unicode lowercase
// ---------------------------------------------------------------------------
/// What `str::to_lowercase` returns for the given characters.
pub uninterp spec fn unicode_lowercase(s: Seq<char>) -> Seq<char>;

/// `str::to_lowercase`: claimed to be a function of its input, and, for
/// ASCII text, to give what `to_ascii_lowercase` gives (std documents
/// `to_lowercase` as lowercasing ASCII characters as well as the others, by
/// the Unicode lowercase mapping, which maps `A`..`Z` to `a`..`z` and
/// every other ASCII character to itself).
#[verifier::external_body]
pub(crate) fn to_lowercase(s: &str) -> (r: String)
    ensures
        r@ == unicode_lowercase(s@),
        is_ascii_text(s@) ==> r@ == ascii_lower(s@),
{
    s.to_lowercase()
}

// ---------------------------------------------------------------------------
// percent_encoding
// ---------------------------------------------------------------------------
/// What `percent_decode_str(..).decode_utf8_lossy()` returns for a path.
pub uninterp spec fn percent_decoded(path: Seq<char>) -> Seq<char>;

/// `percent_encoding::percent_decode_str` followed by its
/// `decode_utf8_lossy`: claimed only to be a function of the path.
#[verifier::external_body]
pub(crate) fn decode_path(path: &str) -> (r: String)
    ensures
        r@ == percent_decoded(path@),
{
    percent_encoding::percent_decode_str(path).decode_utf8_lossy().into_owned()
}

// ---------------------------------------------------------------------------
// mime_guess
// ---------------------------------------------------------------------------
/// The first MIME type `mime_guess` associates with a path's extension.
pub uninterp spec fn mime_guess_first(path: Seq<char>) -> Option<Seq<char>>;

/// `mime_guess::from_path(..).first_raw()`: claimed only to be a function
/// of the path.
#[verifier::external_body]
pub(crate) fn guess_mime(path: &str) -> (r: Option<String>)
    ensures
        match r {
            Some(m) => mime_guess_first(path@) == Some(m@),
            None => mime_guess_first(path@) is None,
        },
{
    mime_guess::from_path(path).first_raw().map(|m| m.to_string())
}

} // verus!
