use vstd::prelude::*;

verus! {

/// The text chrono produces for a Unix timestamp under the fixed pattern
/// `%Y-%m-%d %H:%M:%S UTC`; a function of the timestamp alone.
pub uninterp spec fn utc_display_of(t: u64) -> Seq<char>;

/// Relies on `uuid::Uuid::new_v4` and the hyphenated `Display` form of
/// `uuid::Uuid`: a freshly drawn random 128-bit identifier, rendered as
/// 32 hexadecimal digits and 4 hyphens, 36 characters in all.
#[verifier::external_body]
pub(crate) fn fresh_id() -> (r: String)
    ensures
        r@.len() == 36,
{
    uuid::Uuid::new_v4().to_string()
}

/// Relies on `chrono::Utc::now` and `DateTime::timestamp`: the current
/// wall-clock time in Unix seconds. Nothing is promised of the value.
#[verifier::external_body]
pub(crate) fn now_unix() -> (r: u64)
{
    chrono::Utc::now().timestamp() as u64
}

/// Relies on `chrono::DateTime::from_timestamp` and `DateTime::format`
/// with the pattern `%Y-%m-%d %H:%M:%S UTC`: the rendering is determined
/// by the timestamp alone (UTC, no locale or zone input).
#[verifier::external_body]
pub(crate) fn format_utc(t: u64) -> (r: String)
    ensures
        r@ == utc_display_of(t),
{
    match chrono::DateTime::<chrono::Utc>::from_timestamp(t as i64, 0) {
        Some(d) => d.format("%Y-%m-%d %H:%M:%S UTC").to_string(),
        None => String::new(),
    }
}

} // verus!
