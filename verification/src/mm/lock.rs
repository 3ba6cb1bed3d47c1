//! Locks of the `spin` crate that the library carries or tries.
use std::sync::Arc;
use vstd::prelude::*;

verus! {

/// How a lock of `spin` waits; never looked into.
#[verifier::external_type_specification]
#[verifier::external_body]
pub struct ExSpin(spin::relax::Spin);

/// The read-write lock of `spin`, carried but never looked into.
#[verifier::external_type_specification]
#[verifier::external_body]
#[verifier::reject_recursive_types(T)]
#[verifier::reject_recursive_types(R)]
pub struct ExRwLock<T: ?Sized, R>(spin::rwlock::RwLock<T, R>);

/// The mutex of `spin`.
#[verifier::external_type_specification]
#[verifier::external_body]
#[verifier::reject_recursive_types(T)]
#[verifier::reject_recursive_types(R)]
pub struct ExMutex<T: ?Sized, R>(spin::mutex::Mutex<T, R>);

/// Proof that a mutex of `spin` is held; it is released when this goes.
#[verifier::external_type_specification]
#[verifier::external_body]
#[verifier::reject_recursive_types(T)]
pub struct ExMutexGuard<'a, T: 'a + ?Sized>(spin::mutex::MutexGuard<'a, T>);

/// A new lock for an address space: `spin::RwLock::new`.  Nothing is claimed of it.
#[verifier::external_body]
pub(crate) fn new_rw_lock() -> (r: spin::RwLock<()>) {
    spin::RwLock::new(())
}

/// Another handle on the same lock: `Arc::clone`, which makes a pointer to the same
/// allocation, so that the two stand for one lock.
#[verifier::external_body]
pub(crate) fn share_rw_lock(lock: &Arc<spin::RwLock<()>>) -> (r: Arc<spin::RwLock<()>>)
    ensures
        r == *lock,
{
    Arc::clone(lock)
}

/// Takes a mutex without waiting: `spin::Mutex::try_lock`.  Whether it succeeds depends
/// on who holds the mutex at that moment, so nothing is claimed of the outcome.
#[verifier::external_body]
pub(crate) fn try_lock(lock: &spin::Mutex<()>) -> (r: Option<spin::MutexGuard<'_, ()>>) {
    lock.try_lock()
}

} // verus!
