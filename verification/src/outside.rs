//! The calls into outside crates, each behind a trusted item whose contract states what the
//! crate's documentation and source promise.
use std::io::Read;

use vstd::prelude::*;

use crate::text::{all_digits, is_digit_char};

verus! {

/// `rand::rngs::ThreadRng`, the thread-local random generator.
#[verifier::external_type_specification]
#[verifier::external_body]
pub struct ExThreadRng(rand::rngs::ThreadRng);

/// `chrono_tz::Tz`, a time zone of the compiled-in tz database.
#[verifier::external_type_specification]
#[verifier::external_body]
pub struct ExTz(chrono_tz::Tz);

/// `rand::rng()`: a handle to the thread-local generator. Nothing is promised of it; rand panics
/// here when the operating system's random source cannot seed the generator, which this contract
/// leaves unsaid.
#[verifier::external_body]
pub(crate) fn thread_rng() -> rand::rngs::ThreadRng {
    rand::rng()
}

/// `Rng::random::<u8>()`: a uniformly random byte; any byte may come back.
#[verifier::external_body]
pub(crate) fn random_byte(rng: &mut rand::rngs::ThreadRng) -> u8 {
    rand::Rng::random::<u8>(rng)
}

/// `Rng::random_range(0..bound)` on `u32`: a random value below `bound`. rand panics on an empty
/// range, so `bound` must be positive.
#[verifier::external_body]
pub(crate) fn random_below(rng: &mut rand::rngs::ThreadRng, bound: u32) -> (r: u32)
    requires
        bound > 0,
    ensures
        r < bound,
{
    rand::Rng::random_range(rng, 0..bound)
}

/// The year as chrono's `%Y` writes it: four or more digits, with a sign in front (and then at
/// least four digits) for a year before 0 or after 9999.
pub open spec fn is_year_text(y: Seq<char>) -> bool {
    ||| (y.len() >= 4 && all_digits(y))
    ||| (y.len() >= 5 && (y[0] == '+' || y[0] == '-') && all_digits(y.drop_first()))
}

/// A date as chrono's `%Y-%m-%d` writes it: the year, `-`, two digits, `-`, two digits.
pub open spec fn is_date_text(d: Seq<char>) -> bool {
    &&& d.len() >= 10
    &&& is_year_text(d.take(d.len() - 6))
    &&& d[d.len() - 6] == '-'
    &&& d[d.len() - 3] == '-'
    &&& is_digit_char(d[d.len() - 5]) && is_digit_char(d[d.len() - 4])
    &&& is_digit_char(d[d.len() - 2]) && is_digit_char(d[d.len() - 1])
}

/// A time of day as chrono's `%H:%M` writes it: two digits, `:`, two digits.
pub open spec fn is_time_text(t: Seq<char>) -> bool {
    &&& t.len() == 5
    &&& t[2] == ':'
    &&& is_digit_char(t[0]) && is_digit_char(t[1]) && is_digit_char(t[3]) && is_digit_char(t[4])
}

/// The date (`%Y-%m-%d`) and time of day (`%H:%M`) of a Unix timestamp in a time zone, as chrono
/// writes them, or `None` when chrono cannot represent the timestamp.
pub uninterp spec fn local_time_text(timestamp: i64, tz: chrono_tz::Tz) -> Option<(Seq<char>, Seq<char>)>;

/// `DateTime::from_timestamp(timestamp, 0)`, moved into `tz` with `with_timezone` and written
/// with `format` as `%Y-%m-%d` and `%H:%M`. The result is named by `local_time_text`; besides,
/// the texts have the shapes that chrono's `%Y`, `%m`, `%d`, `%H` and `%M` write (zero-padded
/// numbers; the year with a sign outside 0 to 9999).
#[verifier::external_body]
pub(crate) fn local_day_and_time(timestamp: i64, tz: &chrono_tz::Tz) -> (r: Option<(String, String)>)
    ensures
        match r {
            Some(p) => local_time_text(timestamp, *tz) == Some((p.0@, p.1@)) && is_date_text(p.0@)
                && is_time_text(p.1@),
            None => local_time_text(timestamp, *tz) is None,
        },
{
    match chrono::DateTime::from_timestamp(timestamp, 0) {
        Some(utc) => {
            let local = utc.with_timezone(tz);
            Some((local.format("%Y-%m-%d").to_string(), local.format("%H:%M").to_string()))
        },
        None => None,
    }
}

/// The time zone of the compiled-in tz database with this IANA name, if there is one.
pub uninterp spec fn timezone_by_name(name: Seq<char>) -> Option<chrono_tz::Tz>;

/// `<chrono_tz::Tz as FromStr>::from_str`: looks the name up in the compiled-in tz database;
/// `None` when the name is unknown.
#[verifier::external_body]
pub(crate) fn parse_timezone(name: &str) -> (tz: Option<chrono_tz::Tz>)
    ensures
        tz == timezone_by_name(name@),
{
    name.parse::<chrono_tz::Tz>().ok()
}

/// `Utc::now()` moved into `tz` and written as `%Y-%m-%d` and `%H:%M`; it depends on the clock,
/// so only the shapes of the two texts are stated.
#[verifier::external_body]
pub(crate) fn local_day_and_time_now(tz: &chrono_tz::Tz) -> (r: (String, String))
    ensures
        is_date_text(r.0@),
        is_time_text(r.1@),
{
    let local = chrono::Utc::now().with_timezone(tz);
    (local.format("%Y-%m-%d").to_string(), local.format("%H:%M").to_string())
}

/// What a gzip decoder yields for `data`: the decompressed bytes of its gzip stream, or `None`
/// when the stream is not valid gzip.
pub uninterp spec fn gunzip_result(data: Seq<u8>) -> Option<Seq<u8>>;

/// `flate2::read::GzDecoder::new(data)` read to the end with `Read::read_to_end`.
#[verifier::external_body]
pub(crate) fn gunzip(data: &[u8]) -> (r: Option<Vec<u8>>)
    ensures
        r is Some == gunzip_result(data@) is Some,
        r matches Some(v) ==> v@ == gunzip_result(data@)->0,
{
    let mut decoder = flate2::read::GzDecoder::new(data);
    let mut out: Vec<u8> = Vec::new();
    match decoder.read_to_end(&mut out) {
        Ok(_) => Some(out),
        Err(_) => None,
    }
}

/// Whether `data` is one JSON value by `serde_json`'s grammar.
pub uninterp spec fn json_valid(data: Seq<u8>) -> bool;

/// `serde_json::from_slice::<serde_json::Value>(data)` succeeds.
#[verifier::external_body]
pub(crate) fn is_json(data: &[u8]) -> (b: bool)
    ensures
        b == json_valid(data@),
{
    serde_json::from_slice::<serde_json::Value>(data).is_ok()
}

} // verus!
