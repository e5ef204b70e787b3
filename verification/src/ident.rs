use vstd::prelude::*;

verus! {

/// A 128-bit identifier: the value of a UUID as a big-endian integer.
pub type Id = u128;

/// Draws a new identifier through `uuid::Uuid::now_v7` and converts it with
/// `Uuid::as_u128`. Nothing is claimed of the value that comes back: callers test it
/// against the identifiers already in use.
///
/// `Uuid::now_v7` panics where the system clock stands before the Unix epoch, or the
/// system has no random numbers to give.
#[verifier::external_body]
pub(crate) fn fresh_id() -> Id {
    uuid::Uuid::now_v7().as_u128()
}

/// Draws `n` new identifiers.
pub(crate) fn fresh_ids(n: usize) -> (ids: Vec<Id>)
    ensures
        ids.len() == n,
{
    let mut ids: Vec<Id> = Vec::new();
    while ids.len() < n
        invariant
            ids.len() <= n,
        decreases n - ids.len(),
    {
        ids.push(fresh_id());
    }
    ids
}

} // verus!
