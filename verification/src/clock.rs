use vstd::prelude::*;

verus! {

/// A byte that may stand in a JSON string without escaping: printable
/// ASCII other than the quote and the backslash.
pub open spec fn json_plain(b: u8) -> bool {
    0x20 <= b && b < 0x7f && b != 0x22 && b != 0x5c
}

/// Relies on chrono: `Utc.timestamp_opt` accepts exactly chrono's
/// representable range and returns `None` beyond it; for an accepted
/// instant, `with_timezone(&Local)` selects the local offset (its error
/// paths need timestamps outside that range) and
/// `DateTime::to_rfc3339` formats an RFC 3339 date-time string such as
/// `1996-12-19T16:39:57-08:00` — at least 25 bytes of printable ASCII
/// that hold no quote and no backslash. A clock before the epoch or
/// out of range gives the constant epoch string instead of a panic.
/// Nothing is claimed about the instant itself.
#[verifier::external_body]
pub(crate) fn now_rfc3339() -> (r: Vec<u8>)
    ensures
        r@.len() >= 25,
        forall|i: int| 0 <= i < r@.len() ==> json_plain(#[trigger] r@[i]),
{
    let (sec, nsec) = match std::time::SystemTime::now().duration_since(std::time::UNIX_EPOCH) {
        Ok(d) => (i64::try_from(d.as_secs()).unwrap_or(i64::MAX), d.subsec_nanos()),
        Err(e) => (i64::try_from(e.duration().as_secs()).unwrap_or(i64::MAX).saturating_neg(), 0),
    };
    match chrono::TimeZone::timestamp_opt(&chrono::Utc, sec, nsec) {
        chrono::LocalResult::Single(dt) => {
            dt.with_timezone(&chrono::Local).to_rfc3339().into_bytes()
        }
        _ => "1970-01-01T00:00:00+00:00".as_bytes().to_vec(),
    }
}

} // verus!
