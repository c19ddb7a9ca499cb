use rand::Rng;
use vstd::prelude::*;

verus! {

/// Relies on rand's `thread_rng().gen::<u64>()`: a value drawn from the thread-local
/// generator. Nothing is known of the value, so nothing is promised.
#[verifier::external_body]
pub(crate) fn random_order_id() -> (r: u64) {
    rand::thread_rng().gen::<u64>()
}

} // verus!
