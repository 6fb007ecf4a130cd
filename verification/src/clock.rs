use vstd::prelude::*;

use crate::codec::is_pad;

verus! {

/// What every commit timestamp satisfies: non-empty, ends in `'Z'`, and
/// holds no comma, line feed, space or NUL anywhere — so a timestamp field
/// passes through encoding, splitting and trimming unchanged.
pub open spec fn timestamp_wf(ts: Seq<u8>) -> bool {
    &&& ts.len() >= 1
    &&& ts.last() == 90
    &&& forall|i: int|
        0 <= i < ts.len() ==> (#[trigger] ts[i]) != 44 && ts[i] != 10 && !is_pad(ts[i])
}

/// Relies on chrono's `DateTime<Utc>` formatting of the current system time
/// with `%Y-%m-%dT%H:%M:%S%.6fZ`: the output is digit bytes and the
/// literals `-`, `T`, `:`, `.` and a final `Z` — never a comma, a space, a
/// NUL or a line feed. chrono confines years to six digits and `%.6f` to
/// exactly six fractional digits, so the text is at most 30 bytes. Nothing
/// more is assumed; the value depends on the clock.
#[verifier::external_body]
pub(crate) fn now_rfc3339() -> (r: Vec<u8>)
    ensures
        timestamp_wf(r@),
        r@.len() <= 30,
{
    let now = std::time::SystemTime::now();
    let text = chrono::DateTime::<chrono::Utc>::from(now).format("%Y-%m-%dT%H:%M:%S%.6fZ").to_string();
    text.into_bytes()
}

} // verus!
