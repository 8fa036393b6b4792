use vstd::prelude::*;

verus! {

/// Relies on chrono::Utc::now: the wall clock, read as unix seconds. The
/// clock can move arbitrarily between calls, so nothing is promised of the
/// result; callers state what holds for every value handed back.
#[verifier::external_body]
pub(crate) fn now_unix() -> i64 {
    chrono::Utc::now().timestamp()
}

} // verus!
