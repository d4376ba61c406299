//! A small entity/component runtime: an entity store with keyed component
//! lookup, a transform scene graph kept as an arena, a typed event bus with
//! consume-once semantics, and a cooperative scheduler of timed tasks.
use vstd::prelude::*;
use vstd::string::StrSliceExecFns;

pub mod destiny_rift;
pub mod eonforge;
pub mod forged_object;
pub mod forged_store;
pub mod forged_trait;
pub mod lost_realm;
pub mod lost_lands_fault;
pub mod soul_thread;
pub mod transform;

verus! {

/// Compares two strings character by character.
pub(crate) fn same_text(a: &str, b: &str) -> (r: bool)
    ensures
        r == (a@ == b@),
{
    let n = a.unicode_len();
    if n != b.unicode_len() {
        return false;
    }
    let mut i: usize = 0;
    while i < n
        invariant
            n == a@.len(),
            n == b@.len(),
            i <= n,
            forall|j: int| 0 <= j < i ==> a@[j] == b@[j],
        decreases n - i,
    {
        if a.get_char(i) != b.get_char(i) {
            return false;
        }
        i += 1;
    }
    assert(a@ =~= b@);
    true
}

/// Reflective type identity: every component and event names its concrete
/// type by a stable key.
pub trait EtherealFlow {
    /// The type key of this value: the same for every value of one concrete
    /// type, and different between concrete types that share a world.
    spec fn key(&self) -> u64;

    fn kind(&self) -> (r: u64)
        ensures
            r == self.key(),
    ;
}

} // verus!
