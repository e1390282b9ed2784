//! Identifier allocation: a random candidate drawn from a bounded range,
//! retried a bounded number of times against the live store, and inserted
//! atomically with the uniqueness check.

use vstd::prelude::*;
use rand::Rng;
use crate::error::CoreError;
use crate::pasta::Pasta;
use crate::store::{PastaStore, has_id};

verus! {

/// Size of the identifier space candidates are drawn from.
pub const ID_RANGE: u64 = 65536;

/// Relies on rand::rngs::ThreadRng via rand::thread_rng and
/// rand::Rng::gen::<u64> for a fresh random draw; nothing is promised of
/// the value.
#[verifier::external_body]
fn random_u64() -> u64 {
    rand::thread_rng().gen::<u64>()
}

/// Allocates a fresh identifier for `p` and inserts the record, in one
/// operation against the store, so the uniqueness check and the insert
/// cannot be split by another writer. Draws up to `attempts` random
/// candidates; when all of them collide with live records the identifier
/// space is treated as exhausted and the store is left unchanged. A
/// capacity failure can only come from collisions: given at least one
/// attempt and an identifier space with no live identifier at all, the
/// first draw succeeds, whatever value it is.
pub fn create_pasta(store: &mut PastaStore, p: Pasta, attempts: u64) -> (r: Result<
    u64,
    CoreError,
>)
    requires
        old(store).wf(),
    ensures
        final(store).wf(),
        r matches Ok(id) ==> !has_id(old(store)@, id) && id < ID_RANGE
            && final(store)@ == old(store)@.push(Pasta { id, ..p }),
        r is Err ==> r == Err::<u64, CoreError>(CoreError::Capacity)
            && final(store)@ == old(store)@,
        attempts > 0 && (forall|id: u64| id < ID_RANGE ==> !has_id(old(store)@, id))
            ==> r is Ok,
{
    let mut tries: u64 = 0;
    while tries < attempts
        invariant
            store.wf(),
            store@ == old(store)@,
            tries > 0 ==> exists|id: u64| id < ID_RANGE && has_id(old(store)@, id),
        decreases attempts - tries,
    {
        let candidate = random_u64() % ID_RANGE;
        let mut record = p.clone();
        record.id = candidate;
        proof {
            assert(record == (Pasta { id: candidate, ..p }));
            assert(candidate < ID_RANGE);
        }
        if store.insert(record) {
            return Ok(candidate);
        }
        proof {
            assert(has_id(old(store)@, candidate));
        }
        tries += 1;
    }
    Err(CoreError::Capacity)
}

} // verus!
