//! Exclusive-access guarding of shared session state. A lock left
//! inconsistent by a panic in an earlier critical section is surfaced to
//! the caller as a recoverable error message, never a crash.

use vstd::prelude::*;
use vstd::string::StringExecFns;

use std::sync::Mutex;
use std::sync::MutexGuard;

verus! {

#[verifier::external_type_specification]
#[verifier::external_body]
#[verifier::reject_recursive_types(T)]
pub struct ExMutex<T: ?Sized>(Mutex<T>);

#[verifier::external_type_specification]
#[verifier::external_body]
#[verifier::reject_recursive_types(T)]
pub struct ExMutexGuard<'a, T: ?Sized + 'a>(MutexGuard<'a, T>);

/// Relies on `std::sync::Mutex::lock`: it blocks until the lock is held
/// and yields the guard, or reports that the lock was poisoned by a panic
/// in an earlier holder. Which of the two happens depends on the run, so
/// nothing more can be promised of the outcome.
#[verifier::external_body]
fn mutex_lock<'a, T>(m: &'a Mutex<T>) -> (r: Option<MutexGuard<'a, T>>) {
    m.lock().ok()
}

/// Acquire `mutex` for exclusive access, turning a poisoned lock into the
/// recoverable error message `err`.
pub fn lock_mutex<'a, T>(mutex: &'a Mutex<T>, err: &'static str) -> (r: Result<
    MutexGuard<'a, T>,
    String,
>)
    ensures
        r matches Err(m) ==> m@ == err@,
{
    match mutex_lock(mutex) {
        Some(g) => Ok(g),
        None => Err(String::from_str(err)),
    }
}

} // verus!
