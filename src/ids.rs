//! Generated identifiers and timestamps, through the uuid and chrono crates.
use vstd::prelude::*;

verus! {

/// The lower-case hexadecimal digit for `d` in `0..16`.
pub open spec fn hex_digit(d: int) -> char {
    seq!['0', '1', '2', '3', '4', '5', '6', '7', '8', '9', 'a', 'b', 'c', 'd', 'e', 'f'][d]
}

/// Sixteen to the power `n`.
pub open spec fn pow16(n: nat) -> int
    decreases n,
{
    if n == 0 {
        1
    } else {
        16 * pow16((n - 1) as nat)
    }
}

/// The `j`-th of the 32 hexadecimal digits of `v`, the most significant first.
pub open spec fn nibble(v: u128, j: int) -> int {
    (v as int / pow16((31 - j) as nat)) % 16
}

/// The character at position `i` of the hyphenated form of `v`.
pub open spec fn uuid_char(v: u128, i: int) -> char {
    if i == 8 || i == 13 || i == 18 || i == 23 {
        '-'
    } else if i < 8 {
        hex_digit(nibble(v, i))
    } else if i < 13 {
        hex_digit(nibble(v, i - 1))
    } else if i < 18 {
        hex_digit(nibble(v, i - 2))
    } else if i < 23 {
        hex_digit(nibble(v, i - 3))
    } else {
        hex_digit(nibble(v, i - 4))
    }
}

/// The hyphenated lower-case text of the UUID whose bits are `v`, such as
/// `67e55044-10b1-426f-9247-bb680e5fe0c8`.
pub open spec fn uuid_text(v: u128) -> Seq<char> {
    Seq::new(36, |i: int| uuid_char(v, i))
}

/// The RFC 3339 text of the UTC instant `secs` seconds and `nanos` nanoseconds
/// after the Unix epoch, as chrono writes it.
pub uninterp spec fn rfc3339_text(secs: int, nanos: int) -> Seq<char>;

/// The last second of the year 9999, counted from the Unix epoch.
pub const LAST_SECOND_OF_9999: i64 = 253402300799;

/// Relies on uuid's `Uuid::from_u128` and its `Display`, which writes the
/// hyphenated lower-case form.
#[verifier::external_body]
pub(crate) fn uuid_string(v: u128) -> (r: String)
    ensures
        r@ == uuid_text(v),
{
    uuid::Uuid::from_u128(v).to_string()
}

/// Relies on uuid's `Uuid::new_v4`: a random UUID, handed back as its bits.
#[verifier::external_body]
pub(crate) fn random_uuid() -> (r: u128) {
    uuid::Uuid::new_v4().as_u128()
}

/// Relies on chrono's `From<SystemTime> for DateTime<Utc>`: the clock's
/// current instant as seconds since the Unix epoch (negative before it) and
/// sub-second nanoseconds.
#[verifier::external_body]
pub(crate) fn utc_now() -> (r: (i64, u32))
    ensures
        r.1 < 1_000_000_000,
{
    let now: chrono::DateTime<chrono::Utc> = std::time::SystemTime::now().into();
    (now.timestamp(), now.timestamp_subsec_nanos())
}

/// Relies on chrono's `DateTime::from_timestamp` and `DateTime::to_rfc3339`:
/// the instant's RFC 3339 text, or `None` for an instant without a calendar
/// date. Every instant from the epoch to the end of the year 9999 has one.
#[verifier::external_body]
pub(crate) fn rfc3339_at(secs: i64, nanos: u32) -> (r: Option<String>)
    ensures
        r matches Some(t) ==> t@ == rfc3339_text(secs as int, nanos as int),
        0 <= secs <= LAST_SECOND_OF_9999 && nanos < 1_000_000_000 ==> r is Some,
{
    match chrono::DateTime::from_timestamp(secs, nanos) {
        Some(d) => Some(d.to_rfc3339()),
        None => None,
    }
}

} // verus!
