//! The locks of the standard library and of `parking_lot`, and the process-seeded
//! hasher, as the caches use them.
use std::hash::{BuildHasher, Hash, RandomState};
use std::sync::{Mutex, MutexGuard, PoisonError};
use vstd::prelude::*;

verus! {

#[verifier::external_type_specification]
#[verifier::external_body]
#[verifier::reject_recursive_types(T)]
pub struct ExMutex<T: ?Sized>(Mutex<T>);

#[verifier::external_type_specification]
#[verifier::external_body]
#[verifier::reject_recursive_types(T)]
pub struct ExMutexGuard<'a, T: ?Sized + 'a>(MutexGuard<'a, T>);

/// `std::sync::Mutex::new`: an unlocked mutex around `value`. Nothing is claimed of
/// the result; what the lock holds is only read back through a guard.
#[verifier::external_body]
pub(crate) fn mutex_new<T>(value: T) -> Mutex<T> {
    Mutex::new(value)
}

/// `std::sync::Mutex::lock`: blocks until this thread holds the lock. A lock that a
/// panicking thread left poisoned is taken over as it is (`PoisonError::into_inner`).
#[verifier::external_body]
pub(crate) fn mutex_lock<T>(mutex: &Mutex<T>) -> MutexGuard<'_, T> {
    mutex.lock().unwrap_or_else(PoisonError::into_inner)
}

/// `Deref` of `std::sync::MutexGuard`: the value under the held lock, for reading.
/// Nothing is claimed of it beyond what its type guarantees.
#[verifier::external_body]
pub(crate) fn mutex_ref<'a, 'b, T>(guard: &'a MutexGuard<'b, T>) -> &'a T {
    &*guard
}

/// `DerefMut` of `std::sync::MutexGuard`: the value under the held lock, for writing.
/// It is the value that `Deref` (`mutex_ref`) shows through the same guard; nothing
/// more is claimed of it.
#[verifier::external_body]
pub(crate) fn mutex_value<'a, 'b, T>(guard: &'a mut MutexGuard<'b, T>) -> (value: &'a mut T)
    ensures
        call_ensures(mutex_ref::<T>, (&*old(guard),), &*value),
{
    &mut *guard
}

#[verifier::external_type_specification]
#[verifier::external_body]
pub struct ExRawRwLock(parking_lot::RawRwLock);

#[verifier::external_type_specification]
#[verifier::external_body]
pub struct ExRawMutex(parking_lot::RawMutex);

#[verifier::external_type_specification]
#[verifier::external_body]
#[verifier::reject_recursive_types(R)]
#[verifier::reject_recursive_types(T)]
pub struct ExLockApiRwLock<R, T: ?Sized>(parking_lot::lock_api::RwLock<R, T>);

#[verifier::external_type_specification]
#[verifier::external_body]
#[verifier::reject_recursive_types(R)]
#[verifier::reject_recursive_types(T)]
pub struct ExLockApiMutex<R, T: ?Sized>(parking_lot::lock_api::Mutex<R, T>);

/// Holds a `parking_lot::RwLockReadGuard`, whose type Verus does not take (its lock
/// parameter is bounded by a trait of `lock_api`). The lock is shared while it lives.
#[verifier::external_body]
#[verifier::reject_recursive_types(T)]
pub struct ReadGuard<'a, T> {
    guard: parking_lot::RwLockReadGuard<'a, T>,
}

/// Holds a `parking_lot::RwLockWriteGuard`; the lock is held alone while it lives.
#[verifier::external_body]
#[verifier::reject_recursive_types(T)]
pub struct WriteGuard<'a, T> {
    guard: parking_lot::RwLockWriteGuard<'a, T>,
}

/// Holds a `parking_lot::MutexGuard`; the mutex is held while it lives.
#[verifier::external_body]
#[verifier::reject_recursive_types(T)]
pub struct PlMutexGuard<'a, T> {
    guard: parking_lot::MutexGuard<'a, T>,
}

/// `parking_lot::RwLock::new`: an unlocked reader-writer lock around `value`. Nothing
/// is claimed of the result; what the lock holds is only read back through a guard.
#[verifier::external_body]
pub(crate) fn rwlock_new<T>(value: T) -> parking_lot::RwLock<T> {
    parking_lot::RwLock::new(value)
}

/// `parking_lot::RwLock::read`: blocks until this thread shares the lock with readers only.
#[verifier::external_body]
pub(crate) fn rwlock_read<T>(lock: &parking_lot::RwLock<T>) -> ReadGuard<'_, T> {
    ReadGuard { guard: lock.read() }
}

/// `parking_lot::RwLock::write`: blocks until this thread holds the lock alone.
#[verifier::external_body]
pub(crate) fn rwlock_write<T>(lock: &parking_lot::RwLock<T>) -> WriteGuard<'_, T> {
    WriteGuard { guard: lock.write() }
}

/// `Deref` of `parking_lot::RwLockReadGuard`: the value under the shared lock. Nothing
/// is claimed of it beyond what its type guarantees.
#[verifier::external_body]
pub(crate) fn read_value<'a, 'b, T>(guard: &'a ReadGuard<'b, T>) -> &'a T {
    &*guard.guard
}

/// `DerefMut` of `parking_lot::RwLockWriteGuard`: the value under the held lock.
/// Nothing is claimed of it beyond what its type guarantees.
#[verifier::external_body]
pub(crate) fn write_value<'a, 'b, T>(guard: &'a mut WriteGuard<'b, T>) -> &'a mut T {
    &mut *guard.guard
}

/// `parking_lot::Mutex::new`: an unlocked mutex around `value`. Nothing is claimed of
/// the result; what the mutex holds is only read back through a guard.
#[verifier::external_body]
pub(crate) fn pl_mutex_new<T>(value: T) -> parking_lot::Mutex<T> {
    parking_lot::Mutex::new(value)
}

/// `parking_lot::Mutex::lock`: blocks until this thread holds the mutex.
#[verifier::external_body]
pub(crate) fn pl_mutex_lock<T>(mutex: &parking_lot::Mutex<T>) -> PlMutexGuard<'_, T> {
    PlMutexGuard { guard: mutex.lock() }
}

/// `Deref` of `parking_lot::MutexGuard`: the value under the held mutex, for reading.
/// Nothing is claimed of it beyond what its type guarantees.
#[verifier::external_body]
pub(crate) fn pl_mutex_ref<'a, 'b, T>(guard: &'a PlMutexGuard<'b, T>) -> &'a T {
    &*guard.guard
}

/// `DerefMut` of `parking_lot::MutexGuard`: the value under the held mutex. Nothing is
/// claimed of it beyond what its type guarantees.
#[verifier::external_body]
pub(crate) fn pl_mutex_value<'a, 'b, T>(guard: &'a mut PlMutexGuard<'b, T>) -> &'a mut T {
    &mut *guard.guard
}

/// `std::hash::RandomState::new`: a hasher builder with keys drawn at random for this
/// process. Nothing is claimed of it.
#[verifier::external_body]
pub(crate) fn random_state_new() -> RandomState {
    RandomState::new()
}

/// `BuildHasher::hash_one` on a `RandomState`: the hash of `key` under the builder's
/// random keys. It depends on those keys, so nothing is claimed of it.
#[verifier::external_body]
pub(crate) fn hash_key<Key: Hash>(builder: &RandomState, key: &Key) -> u64 {
    builder.hash_one(key)
}

/// `v` is a value that reading `mutex` can give: `mutex_lock` gave a guard of it, and
/// `mutex_ref` gave `v` through that guard. Only the calls are named; what the mutex
/// holds depends on the threads that used it before.
pub closed spec fn mutex_gives<T>(mutex: &Mutex<T>, v: T) -> bool {
    exists|g: MutexGuard<'_, T>|
        #![trigger call_ensures(mutex_lock::<T>, (mutex,), g)]
        call_ensures(mutex_lock::<T>, (mutex,), g) && call_ensures(mutex_ref::<T>, (&g,), &v)
}

/// `v` is a value that a shared read of `lock` can give: `rwlock_read` gave a guard of
/// it, and `read_value` gave `v` through that guard. Only the calls are named; what the
/// lock holds depends on the threads that used it before.
pub closed spec fn read_gives<T>(lock: &parking_lot::RwLock<T>, v: T) -> bool {
    exists|g: ReadGuard<'_, T>|
        #![trigger call_ensures(rwlock_read::<T>, (lock,), g)]
        call_ensures(rwlock_read::<T>, (lock,), g) && call_ensures(read_value::<T>, (&g,), &v)
}

/// `v` is a value that reading `mutex` can give: `pl_mutex_lock` gave a guard of it, and
/// `pl_mutex_ref` gave `v` through that guard. Only the calls are named; what the mutex
/// holds depends on the threads that used it before.
pub closed spec fn pl_mutex_gives<T>(mutex: &parking_lot::Mutex<T>, v: T) -> bool {
    exists|g: PlMutexGuard<'_, T>|
        #![trigger call_ensures(pl_mutex_lock::<T>, (mutex,), g)]
        call_ensures(pl_mutex_lock::<T>, (mutex,), g) && call_ensures(pl_mutex_ref::<T>, (&g,), &v)
}

/// A guard that `mutex_lock` gave, read through `mutex_ref`, shows a value that
/// reading the mutex can give.
pub(crate) proof fn lemma_mutex_gives<T>(mutex: &Mutex<T>, g: MutexGuard<'_, T>, v: &T)
    requires
        call_ensures(mutex_lock::<T>, (mutex,), g),
        call_ensures(mutex_ref::<T>, (&g,), v),
    ensures
        mutex_gives(mutex, *v),
{
}

/// A guard that `rwlock_read` gave, read through `read_value`, shows a value that a
/// shared read of the lock can give.
pub(crate) proof fn lemma_read_gives<T>(lock: &parking_lot::RwLock<T>, g: ReadGuard<'_, T>, v: &T)
    requires
        call_ensures(rwlock_read::<T>, (lock,), g),
        call_ensures(read_value::<T>, (&g,), v),
    ensures
        read_gives(lock, *v),
{
}

/// A guard that `pl_mutex_lock` gave, read through `pl_mutex_ref`, shows a value that
/// reading the mutex can give.
pub(crate) proof fn lemma_pl_mutex_gives<T>(mutex: &parking_lot::Mutex<T>, g: PlMutexGuard<'_, T>, v: &T)
    requires
        call_ensures(pl_mutex_lock::<T>, (mutex,), g),
        call_ensures(pl_mutex_ref::<T>, (&g,), v),
    ensures
        pl_mutex_gives(mutex, *v),
{
}

/// `value` is the reference that `write_value` handed out through a guard that
/// `rwlock_write` gave for `lock`: what is written through it is what the guard holds.
pub(crate) open spec fn write_hands_out<T>(lock: &parking_lot::RwLock<T>, value: &mut T) -> bool {
    exists|g: WriteGuard<'_, T>, m: &mut WriteGuard<'_, T>|
        #![trigger call_ensures(rwlock_write::<T>, (lock,), g), call_ensures(write_value::<T>, (m,), value)]
        call_ensures(rwlock_write::<T>, (lock,), g) && *m == g && call_ensures(write_value::<T>, (m,), value)
}

/// `value` is the reference that `mutex_value` handed out through a guard that
/// `mutex_lock` gave for `mutex`: what is written through it is what the guard holds.
pub(crate) open spec fn mutex_hands_out<T>(mutex: &Mutex<T>, value: &mut T) -> bool {
    exists|g: MutexGuard<'_, T>, m: &mut MutexGuard<'_, T>|
        #![trigger call_ensures(mutex_lock::<T>, (mutex,), g), call_ensures(mutex_value::<T>, (m,), value)]
        call_ensures(mutex_lock::<T>, (mutex,), g) && *m == g && call_ensures(mutex_value::<T>, (m,), value)
}

/// `value` is the reference that `pl_mutex_value` handed out through a guard that
/// `pl_mutex_lock` gave for `mutex`: what is written through it is what the guard holds.
pub(crate) open spec fn pl_mutex_hands_out<T>(mutex: &parking_lot::Mutex<T>, value: &mut T) -> bool {
    exists|g: PlMutexGuard<'_, T>, m: &mut PlMutexGuard<'_, T>|
        #![trigger call_ensures(pl_mutex_lock::<T>, (mutex,), g), call_ensures(pl_mutex_value::<T>, (m,), value)]
        call_ensures(pl_mutex_lock::<T>, (mutex,), g) && *m == g && call_ensures(pl_mutex_value::<T>, (m,), value)
}

/// Through one guard that `pl_mutex_lock` gave for `mutex`, `pl_mutex_ref` showed `seen`,
/// and then `pl_mutex_value` handed out `value` for writing.
pub(crate) open spec fn pl_mutex_reads_then_hands_out<T>(
    mutex: &parking_lot::Mutex<T>,
    seen: T,
    value: &mut T,
) -> bool {
    exists|g: PlMutexGuard<'_, T>, m: &mut PlMutexGuard<'_, T>|
        #![trigger call_ensures(pl_mutex_lock::<T>, (mutex,), g), call_ensures(pl_mutex_value::<T>, (m,), value)]
        call_ensures(pl_mutex_lock::<T>, (mutex,), g) && call_ensures(pl_mutex_ref::<T>, (&g,), &seen)
            && *m == g && call_ensures(pl_mutex_value::<T>, (m,), value)
}

} // verus!
