use vstd::prelude::*;

use crossbeam::epoch::Guard;

verus! {

/// A log sequence number.
pub type Lsn = i64;

/// The epoch guard of crossbeam, carried through opaque.
#[verifier::external_type_specification]
#[verifier::external_body]
pub struct ExGuard(crossbeam::epoch::Guard);

/// Relies on crossbeam::epoch::pin: pins the current thread to the epoch
/// collector, so that memory retired from now on is not freed while the
/// returned guard lives.
#[verifier::external_body]
fn pin_thread() -> (r: Guard) {
    crossbeam::epoch::pin()
}

/// Relies on crossbeam::epoch::Guard::defer: `bytes` is dropped only once no
/// thread that was pinned before this call can still read it.
#[verifier::external_body]
pub(crate) fn defer_release(guard: &Guard, bytes: Vec<u8>) {
    guard.defer(move || bytes);
}

/// A handle to an ongoing page-cache transaction: state removed from a shared
/// structure is not destroyed until every reader that may see it is done.
pub struct Tx {
    pub guard: Guard,
    pub ts: Lsn,
}

impl Tx {
    /// A transaction with timestamp `ts`, holding a fresh reclamation guard.
    pub fn new(ts: Lsn) -> (r: Self)
        ensures
            r.ts == ts,
    {
        Tx { guard: pin_thread(), ts }
    }
}

} // verus!
