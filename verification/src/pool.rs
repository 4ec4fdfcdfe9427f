//! The shared, caller-facing pool: one [`Store`] behind a reader-writer lock,
//! together with the [`Reusable`] guard that hands an object back to its
//! origin sub-pool when it goes out of scope.
//!
//! Every query takes a shared read lock and every structural mutation takes
//! the exclusive write lock, so concurrent operations serialize against one
//! coarse lock; the lock's invariant keeps the store well formed and its
//! configuration fixed. What a caller observes between two operations may be
//! changed by other threads at any moment, so the exact functional behaviour
//! is stated on [`Store`], whose operations run under the lock.

use vstd::prelude::*;
use vstd::rwlock::{RwLock, RwLockPredicate};

use crate::store::Store;

verus! {

pub const DEFAULT_POOL_INDEXES: usize = 32;

pub const DEFAULT_SINGLE_POOL_SIZE: usize = 8;

pub const DEFAULT_EXPIRATION_MILLIS: u64 = 300000;

/// What may sit inside the pool's lock: a well-formed store carrying exactly
/// the configuration the pool was built with.
pub struct StorePred {
    pub max_pool_indexes: usize,
    pub max_single_pool_size: usize,
    pub expiration: u64,
}

impl<T> RwLockPredicate<Store<T>> for StorePred {
    open spec fn inv(self, s: Store<T>) -> bool {
        &&& s.wf()
        &&& s.max_indexes() == self.max_pool_indexes
        &&& s.max_single() == self.max_single_pool_size
        &&& s.expiration_ms() == self.expiration
    }
}

/// Relies on std::time::SystemTime::now and its distance from the Unix epoch:
/// the pool's clock, read in milliseconds and truncated to 64 bits. Nothing is
/// assumed of the reading; every consumer takes the instant as arbitrary.
#[verifier::external_body]
fn now_millis() -> u64 {
    match std::time::SystemTime::now().duration_since(std::time::UNIX_EPOCH) {
        Ok(d) => d.as_millis() as u64,
        Err(_) => 0,
    }
}

/// A thread-safe, keyed object pool.
///
/// Objects live in independent sub-pools named by text keys; each sub-pool is
/// a bounded stack of entries that expire a configured number of milliseconds
/// after first construction. A pool is meant to be shared — typically behind a
/// reference-counted handle — and all its operations take `&self`.
pub struct Pool<T> {
    objects: RwLock<Store<T>, StorePred>,
}

impl<T> Pool<T> {
    /// The maximum number of distinct index keys resident at once.
    pub closed spec fn max_indexes(&self) -> int {
        self.objects.pred().max_pool_indexes as int
    }

    /// The bound on the size of each sub-pool.
    pub closed spec fn max_single(&self) -> int {
        self.objects.pred().max_single_pool_size as int
    }

    /// The expiration allowance in milliseconds.
    pub closed spec fn expiration_ms(&self) -> u64 {
        self.objects.pred().expiration
    }

    pub fn new(max_pool_indexes: usize, max_single_pool_size: usize, expiration: u64) -> (p: Pool<
        T,
    >)
        requires
            max_pool_indexes >= 1,
            max_single_pool_size >= 1,
        ensures
            p.max_indexes() == max_pool_indexes,
            p.max_single() == max_single_pool_size,
            p.expiration_ms() == expiration,
    {
        let store = Store::new(max_pool_indexes, max_single_pool_size, expiration);
        let objects = RwLock::new(
            store,
            Ghost(StorePred { max_pool_indexes, max_single_pool_size, expiration }),
        );
        Pool { objects }
    }

    /// The zero-configuration pool: 32 indexes of 8 entries each, expiring
    /// 300 seconds after creation.
    pub fn default() -> (p: Pool<T>)
        ensures
            p.max_indexes() == DEFAULT_POOL_INDEXES,
            p.max_single() == DEFAULT_SINGLE_POOL_SIZE,
            p.expiration_ms() == DEFAULT_EXPIRATION_MILLIS,
    {
        Pool::new(DEFAULT_POOL_INDEXES, DEFAULT_SINGLE_POOL_SIZE, DEFAULT_EXPIRATION_MILLIS)
    }

    /// How many distinct index keys are currently resident. The count is a
    /// snapshot: other threads may change it at any moment.
    pub fn size(&self) -> usize {
        let handle = self.objects.acquire_read();
        let n = handle.borrow().size();
        handle.release_read();
        n
    }

    /// How many live entries currently stand under `item`; 0 when the key is
    /// absent. A snapshot, like [`Self::size`].
    pub fn len(&self, item: &str) -> usize {
        let handle = self.objects.acquire_read();
        let n = handle.borrow().len(item);
        handle.release_read();
        n
    }

    /// Whether the pool already holds its maximum number of distinct keys.
    pub fn is_full(&self) -> bool {
        let handle = self.objects.acquire_read();
        let r = handle.borrow().is_full();
        handle.release_read();
        r
    }

    /// The return path: inserts `object` under `item` as an entry created at
    /// `start_time`, evicting a whole index first if the pool is full.
    fn attach_time(&self, item: &str, start_time: u64, object: T) {
        let (mut store, handle) = self.objects.acquire_write();
        store.attach_at(item, start_time, object);
        handle.release_write(store);
    }

    /// Inserts `object` as a new entry created now into the sub-pool for
    /// `item`, creating the sub-pool if absent. When the pool is already full
    /// of distinct keys, the key sorting lexicographically first is evicted in
    /// its entirety beforehand.
    pub fn attach(&self, item: &str, object: T) {
        self.attach_time(item, now_millis(), object);
    }

    /// Attempts to pop the most recent live entry for `item`: absence — an
    /// unknown key, an empty sub-pool, or an expired top entry — is an
    /// ordinary outcome, not an error.
    pub fn try_pull(&self, item: &str) -> (r: Option<Reusable<'_, T>>)
        ensures
            r matches Some(g) ==> g.is_owning() && g.key() == item@ && g.origin() == *self,
    {
        let now = now_millis();
        let (mut store, handle) = self.objects.acquire_write();
        let res = store.try_pull_at(item, now);
        handle.release_write(store);
        match res {
            Some((obj, ts)) => Some(Reusable::new(self, item.to_owned(), ts, obj)),
            None => None,
        }
    }

    /// Hands back a live object for `item`. On a miss, `fallback` is invoked
    /// once per slot of a full sub-pool batch, every result is attached under
    /// `item`, and the retrieval is retried; the guard returned always owns a
    /// live object for `item`.
    pub fn pull<F: Fn() -> T>(&self, item: &str, fallback: F) -> (r: Reusable<'_, T>)
        requires
            call_requires(fallback, ()),
        ensures
            r.is_owning(),
            r.key() == item@,
            r.origin() == *self,
    {
        let now = now_millis();
        let (mut store, handle) = self.objects.acquire_write();
        let (obj, ts) = store.pull_at(item, now, fallback);
        handle.release_write(store);
        Reusable::new(self, item.to_owned(), ts, obj)
    }
}

/// The handle for one pulled object: temporary exclusive ownership with
/// automatic return.
///
/// A guard owns its object from creation until either its scope ends — the
/// object then returns to its origin sub-pool as a fresh entry carrying the
/// guard's original creation time — or [`Reusable::detach`] consumes it,
/// after which the guard performs no pool interaction at all.
pub struct Reusable<'a, T> {
    item: String,
    pool: &'a Pool<T>,
    data: Option<T>,
    start_time: u64,
}

impl<'a, T> Reusable<'a, T> {
    /// Whether the guard still holds its object. Every guard a caller can
    /// observe does: detachment consumes the guard.
    pub closed spec fn is_owning(&self) -> bool {
        self.data is Some
    }

    /// The wrapped object.
    pub closed spec fn object(&self) -> T {
        self.data.unwrap()
    }

    /// The index key the object belongs to.
    pub closed spec fn key(&self) -> Seq<char> {
        self.item@
    }

    /// The object's original creation time, in milliseconds.
    pub closed spec fn created(&self) -> u64 {
        self.start_time
    }

    /// The pool the object came from and returns to.
    pub closed spec fn origin(&self) -> Pool<T> {
        *self.pool
    }

    pub fn new(pool: &'a Pool<T>, item: String, start_time: u64, object: T) -> (g: Self)
        ensures
            g.is_owning(),
            g.object() == object,
            g.key() == item@,
            g.created() == start_time,
            g.origin() == *pool,
    {
        Reusable { item, pool, data: Some(object), start_time }
    }

    /// Permanently transfers the object out of pool bookkeeping, handing the
    /// caller the object and a reference to its origin pool. The automatic
    /// return that scope exit would trigger is suppressed: this is the
    /// guard's one consuming transition.
    pub fn detach(self) -> (r: (&'a Pool<T>, T))
        requires
            self.is_owning(),
        ensures
            *r.0 == self.origin(),
            r.1 == self.object(),
    {
        let mut this = self;
        let object = this.data.take().unwrap();
        (this.pool, object)
    }

    /// Read access to the wrapped object, without copying.
    pub fn get(&self) -> (r: &T)
        requires
            self.is_owning(),
        ensures
            *r == self.object(),
    {
        self.data.as_ref().unwrap()
    }

    /// Write access: replaces the wrapped object, handing the old one back.
    /// The creation time is untouched — the expiration clock keeps ticking.
    pub fn replace(&mut self, object: T) -> (r: T)
        requires
            old(self).is_owning(),
        ensures
            final(self).is_owning(),
            r == old(self).object(),
            final(self).object() == object,
            final(self).key() == old(self).key(),
            final(self).created() == old(self).created(),
            final(self).origin() == old(self).origin(),
    {
        let r = self.data.take().unwrap();
        self.data = Some(object);
        r
    }

    /// The return path: hands the object, if still held, back to the origin
    /// sub-pool as a new entry carrying the original creation time, and
    /// leaves the guard inert.
    fn give_back(&mut self)
        ensures
            !final(self).is_owning(),
    {
        match self.data.take() {
            None => {},
            Some(object) => {
                self.pool.attach_time(self.item.as_str(), self.start_time, object);
            },
        }
    }
}

impl<'a, T> Drop for Reusable<'a, T> {
    /// Relies on Rust's drop glue: leaving scope without a detach hands the
    /// object back through the verified return path. The body stands outside
    /// verification because a destructor may not take the pool lock under
    /// Verus's unwind rules; it does nothing but call `give_back`.
    #[verifier::external_body]
    fn drop(&mut self)
        opens_invariants none
        no_unwind
    {
        self.give_back();
    }
}

} // verus!
