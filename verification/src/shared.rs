//! A store that is shared between threads: a lock around it, and access while the lock is
//! held.

use crate::model::StoreModel;
use crate::store::Store;
use std::ops::DerefMut;
use std::sync::MutexGuard;
use vstd::prelude::*;

verus! {

/// A mutual exclusion lock around a value.
#[verifier::external_type_specification]
#[verifier::external_body]
#[verifier::reject_recursive_types(T)]
pub struct ExMutex<T: ?Sized>(std::sync::Mutex<T>);

/// Exclusive access to the value in a lock, until it is dropped.
#[verifier::external_type_specification]
#[verifier::external_body]
#[verifier::reject_recursive_types(T)]
pub struct ExMutexGuard<'a, T: ?Sized + 'a>(std::sync::MutexGuard<'a, T>);

/// What locking gives when a thread panicked while it held the lock.
#[verifier::external_type_specification]
#[verifier::external_body]
#[verifier::reject_recursive_types(T)]
pub struct ExPoisonError<T>(std::sync::PoisonError<T>);

/// `std::sync::Mutex::lock` waits until the lock is free and takes it. Nothing is claimed
/// of the result: what the lock holds, and whether it is poisoned, rests on what the other
/// threads did.
/// A thread that already holds the lock must not take it again: the call may not return.
pub assume_specification<T: ?Sized>[ std::sync::Mutex::<T>::lock ](
    mutex: &std::sync::Mutex<T>,
) -> std::sync::LockResult<std::sync::MutexGuard<'_, T>>;

/// `std::sync::PoisonError::into_inner` hands out the access that the error carries.
/// Nothing is claimed of it, as nothing is known of what the other threads left there.
pub assume_specification<T>[ std::sync::PoisonError::<T>::into_inner ](
    poisoned: std::sync::PoisonError<T>,
) -> T;

/// The contents of the store that a guard gives access to.
pub uninterp spec fn guarded(guard: MutexGuard<'_, Store>) -> StoreModel;

/// `std::sync::MutexGuard` dereferences to the store in the lock: the reference shows what
/// the guard gives access to, and what is written through it is there afterwards.
#[verifier::external_body]
pub(crate) fn store_in<'a>(guard: &'a mut MutexGuard<'_, Store>) -> (store: &'a mut Store)
    ensures
        store@ == guarded(*old(guard)),
        guarded(*final(guard)) == final(store)@,
{
    guard.deref_mut()
}

} // verus!
