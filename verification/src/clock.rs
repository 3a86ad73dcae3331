use vstd::prelude::*;

verus! {

/// `chrono::Utc::now` and `DateTime::timestamp`: the time of the call, in
/// whole seconds since the Unix epoch. Nothing is claimed of the number: every
/// call may give another. `Utc::now` gives up where the system clock stands
/// before 1970.
#[verifier::external_body]
pub(crate) fn current_timestamp() -> (now: i64) {
    chrono::Utc::now().timestamp()
}

} // verus!
