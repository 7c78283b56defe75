use vstd::prelude::*;

verus! {

/// The wall clock, `std::time::SystemTime::now`, as milliseconds since the Unix
/// epoch; zero where the clock stands before the epoch. Nothing is claimed of
/// the number: two readings may come in any order.
#[verifier::external_body]
pub(crate) fn now_millis() -> (now: u64)
{
    match std::time::SystemTime::now().duration_since(std::time::UNIX_EPOCH) {
        Ok(elapsed) => elapsed.as_millis() as u64,
        Err(_) => 0,
    }
}

} // verus!
