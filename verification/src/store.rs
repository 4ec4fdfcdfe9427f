//! The sequential pool engine: a bounded, expiring, indexed store of entries.
//!
//! A [`Store`] is a sorted association of index keys to sub-pools, each
//! sub-pool a stack of entries. All behaviour is stated against the store's
//! view: a sequence of `(key, entries)` pairs sorted by [`key_lt`], each entry
//! the pair of its object and its creation time. Time enters every operation
//! as an explicit `now` argument in milliseconds, so the engine is fully
//! deterministic; the locked facade in [`crate::pool`] supplies the clock.

use vstd::prelude::*;

use crate::entry::{is_expired, Inner};
use crate::order::{key_lt, lemma_key_lt_irreflexive, lemma_key_lt_transitive, str_compare};

verus! {

/// The entries of one index, oldest first: the view of one sub-pool.
pub type Shelf<T> = Seq<(T, u64)>;

/// The view of a whole store: its indexes in ascending key order.
pub type StoreModel<T> = Seq<(Seq<char>, Seq<(T, u64)>)>;

/// The keys of the model are strictly ascending, hence unique.
pub open spec fn keys_sorted<T>(m: StoreModel<T>) -> bool {
    forall|i: int, j: int| 0 <= i < j < m.len() ==> key_lt(m[i].0, m[j].0)
}

/// Whether some index of the model carries the key `k`.
pub open spec fn has_key<T>(m: StoreModel<T>, k: Seq<char>) -> bool {
    exists|i: int| 0 <= i < m.len() && m[i].0 == k
}

/// The position of the index carrying `k`, meaningful when `has_key` holds.
pub open spec fn key_index<T>(m: StoreModel<T>, k: Seq<char>) -> int {
    choose|i: int| 0 <= i < m.len() && m[i].0 == k
}

/// The entries stored under `k`: empty when the key is absent.
pub open spec fn entries_of<T>(m: StoreModel<T>, k: Seq<char>) -> Shelf<T> {
    if has_key(m, k) {
        m[key_index(m, k)].1
    } else {
        Seq::empty()
    }
}

/// How many live entries stand under `k`: 0 when the key is absent.
pub open spec fn length_of<T>(m: StoreModel<T>, k: Seq<char>) -> int {
    entries_of(m, k).len() as int
}

/// The overflow trim a retrieval applies first: when a sub-pool stands over
/// its bound, the single most recent entry is discarded.
pub open spec fn trimmed<T>(es: Shelf<T>, max_single: int) -> Shelf<T> {
    if es.len() > max_single {
        es.drop_last()
    } else {
        es
    }
}

/// What a retrieval at `now` hands back from a sub-pool holding `es`: the most
/// recent entry after the trim, unless the sub-pool is empty or that entry has
/// expired.
pub open spec fn retrieve_result<T>(
    es: Shelf<T>,
    max_single: int,
    expiration: u64,
    now: u64,
) -> Option<(T, u64)> {
    let t = trimmed(es, max_single);
    if t.len() > 0 && !is_expired(t.last().1, expiration, now) {
        Some(t.last())
    } else {
        None
    }
}

/// What stays stored after a retrieval attempt: the trim and then the pop both
/// take effect whether or not the popped entry was handed back.
pub open spec fn retrieve_rest<T>(es: Shelf<T>, max_single: int) -> Shelf<T> {
    let t = trimmed(es, max_single);
    if t.len() > 0 {
        t.drop_last()
    } else {
        t
    }
}

/// The eviction step an attach applies first: when the store is full of
/// distinct keys, the whole sub-pool of the lexicographically first key is
/// discarded — unless that key is the empty string, the one key the eviction
/// scan cannot name, in which case nothing is removed.
pub open spec fn evicted<T>(m: StoreModel<T>, max_indexes: int) -> StoreModel<T> {
    if m.len() >= max_indexes && m[0].0.len() > 0 {
        m.drop_first()
    } else {
        m
    }
}

/// Law: a key that was never attached holds nothing, and retrieval under it
/// reports absence, at any time and under any configuration.
pub proof fn lemma_never_attached<T>(
    m: StoreModel<T>,
    k: Seq<char>,
    max_single: int,
    expiration: u64,
    now: u64,
)
    requires
        !has_key(m, k),
        max_single >= 1,
    ensures
        length_of(m, k) == 0,
        retrieve_result(entries_of(m, k), max_single, expiration, now) is None,
{
}

/// Law: an object attached under a key becomes the next entry retrieved under
/// that key, with its original creation time, as long as the sub-pool stays
/// within its bound and the entry is still live; what stood before is exactly
/// what stays stored afterwards.
pub proof fn lemma_attach_then_retrieve<T>(
    es: Shelf<T>,
    obj: T,
    ts: u64,
    max_single: int,
    expiration: u64,
    now: u64,
)
    requires
        es.len() + 1 <= max_single,
        !is_expired(ts, expiration, now),
    ensures
        retrieve_result(es.push((obj, ts)), max_single, expiration, now) == Some((obj, ts)),
        retrieve_rest(es.push((obj, ts)), max_single) == es,
{
    assert(es.push((obj, ts)).drop_last() =~= es);
}

/// Law: a sub-pool all of whose entries have expired never hands one out.
pub proof fn lemma_expired_not_returned<T>(
    es: Shelf<T>,
    max_single: int,
    expiration: u64,
    now: u64,
)
    requires
        max_single >= 1,
        forall|i: int| 0 <= i < es.len() ==> is_expired((#[trigger] es[i]).1, expiration, now),
    ensures
        retrieve_result(es, max_single, expiration, now) is None,
{
    let t = trimmed(es, max_single);
    if t.len() > 0 {
        assert(t.last() == es[t.len() - 1]);
    }
}

/// Law: when eviction strikes, what goes is the whole sub-pool of the
/// lexicographically first key, which is the minimum of all resident keys —
/// recency plays no part.
pub proof fn lemma_eviction_takes_minimum<T>(m: StoreModel<T>, max_indexes: int)
    requires
        keys_sorted(m),
        max_indexes >= 1,
        m.len() >= max_indexes,
        m[0].0.len() > 0,
    ensures
        evicted(m, max_indexes) == m.drop_first(),
        forall|j: int| 1 <= j < m.len() ==> key_lt(m[0].0, #[trigger] m[j].0),
{
}

/// Any position carrying `k` in a sorted model is the position `key_index`
/// names: sorted keys are unique.
pub proof fn lemma_key_index_of<T>(m: StoreModel<T>, k: Seq<char>, i: int)
    requires
        keys_sorted(m),
        0 <= i < m.len(),
        m[i].0 == k,
    ensures
        has_key(m, k),
        key_index(m, k) == i,
{
    assert(has_key(m, k));
    let j = key_index(m, k);
    if j != i {
        lemma_key_lt_irreflexive(k);
    }
}

/// Replacing the entries at one position leaves every other key untouched.
proof fn lemma_update_entries<T>(m: StoreModel<T>, m2: StoreModel<T>, i: int, es: Shelf<T>)
    requires
        keys_sorted(m),
        0 <= i < m.len(),
        m2 == m.update(i, (m[i].0, es)),
    ensures
        keys_sorted(m2),
        m2.len() == m.len(),
        has_key(m2, m[i].0),
        entries_of(m2, m[i].0) == es,
        forall|k: Seq<char>| #[trigger] has_key(m2, k) == has_key(m, k),
        forall|k: Seq<char>| k != m[i].0 ==> #[trigger] entries_of(m2, k) == entries_of(m, k),
{
    assert(forall|j: int| 0 <= j < m.len() ==> #[trigger] m2[j].0 == m[j].0);
    lemma_key_index_of(m2, m[i].0, i);
    assert forall|k: Seq<char>| #[trigger] has_key(m2, k) == has_key(m, k) by {
        if has_key(m, k) {
            let w = key_index(m, k);
            assert(m2[w].0 == k);
        }
        if has_key(m2, k) {
            let w = key_index(m2, k);
            assert(m[w].0 == k);
        }
    }
    assert forall|k: Seq<char>| k != m[i].0 implies #[trigger] entries_of(m2, k) == entries_of(
        m,
        k,
    ) by {
        if has_key(m, k) {
            let w = key_index(m, k);
            assert(w != i);
            lemma_key_index_of(m2, k, w);
            assert(entries_of(m2, k) == m2[w].1);
        }
    }
}

/// Inserting a fresh key at its sorted position leaves every other key
/// untouched and keeps the keys sorted.
proof fn lemma_insert_key<T>(
    m: StoreModel<T>,
    m2: StoreModel<T>,
    pos: int,
    k: Seq<char>,
    es: Shelf<T>,
)
    requires
        keys_sorted(m),
        0 <= pos <= m.len(),
        forall|j: int| 0 <= j < pos ==> key_lt(#[trigger] m[j].0, k),
        forall|j: int| pos <= j < m.len() ==> key_lt(k, #[trigger] m[j].0),
        m2 == m.insert(pos, (k, es)),
    ensures
        keys_sorted(m2),
        m2.len() == m.len() + 1,
        !has_key(m, k),
        has_key(m2, k),
        entries_of(m2, k) == es,
        forall|kk: Seq<char>| kk != k ==> #[trigger] has_key(m2, kk) == has_key(m, kk),
        forall|kk: Seq<char>| kk != k ==> #[trigger] entries_of(m2, kk) == entries_of(m, kk),
{
    assert(forall|j: int| 0 <= j < pos ==> #[trigger] m2[j] == m[j]);
    assert(m2[pos] == (k, es));
    assert(forall|j: int| pos < j < m2.len() ==> #[trigger] m2[j] == m[j - 1]);
    assert forall|i: int, j: int| 0 <= i < j < m2.len() implies key_lt(
        #[trigger] m2[i].0,
        #[trigger] m2[j].0,
    ) by {
        if i == pos {
            assert(key_lt(k, m[j - 1].0));
        } else if j == pos {
            assert(key_lt(m[i].0, k));
        } else if i < pos && j > pos {
            lemma_key_lt_transitive(m[i].0, k, m[j - 1].0);
        }
    }
    assert forall|j: int| 0 <= j < m.len() implies #[trigger] m[j].0 != k by {
        if m[j].0 == k {
            lemma_key_lt_irreflexive(k);
        }
    }
    lemma_key_index_of(m2, k, pos);
    assert forall|kk: Seq<char>| kk != k implies #[trigger] has_key(m2, kk) == has_key(m, kk) by {
        if has_key(m, kk) {
            let w = key_index(m, kk);
            if w < pos {
                assert(m2[w].0 == kk);
            } else {
                assert(m2[w + 1].0 == kk);
            }
        }
        if has_key(m2, kk) {
            let w = key_index(m2, kk);
            if w < pos {
                assert(m[w].0 == kk);
            } else {
                assert(m[w - 1].0 == kk);
            }
        }
    }
    assert forall|kk: Seq<char>| kk != k implies #[trigger] entries_of(m2, kk) == entries_of(
        m,
        kk,
    ) by {
        if has_key(m, kk) {
            let w = key_index(m, kk);
            if w < pos {
                lemma_key_index_of(m2, kk, w);
            } else {
                lemma_key_index_of(m2, kk, w + 1);
            }
        }
    }
}

/// Mapping a pushed entry commutes with taking the sub-pool view.
proof fn lemma_shelf_model_push<T>(es: Seq<Inner<T>>, e: Inner<T>)
    ensures
        shelf_model(es.push(e)) == shelf_model(es).push(e@),
{
    assert(shelf_model(es.push(e)) =~= shelf_model(es).push(e@));
}

/// The eviction step either leaves a key's entries alone or, when that very
/// key is the one evicted, empties them; it never reorders the rest.
pub proof fn lemma_evicted_entries<T>(m: StoreModel<T>, max_indexes: int, k: Seq<char>)
    requires
        keys_sorted(m),
        max_indexes >= 1,
    ensures
        keys_sorted(evicted(m, max_indexes)),
        evicted(m, max_indexes).len() <= m.len(),
        entries_of(evicted(m, max_indexes), k) == entries_of(m, k) || entries_of(
            evicted(m, max_indexes),
            k,
        ) == Seq::<(T, u64)>::empty(),
{
    let m2 = evicted(m, max_indexes);
    if m.len() >= max_indexes && m[0].0.len() > 0 {
        assert(forall|j: int| 0 <= j < m2.len() ==> #[trigger] m2[j] == m[j + 1]);
        if has_key(m2, k) {
            let w = key_index(m2, k);
            assert(m2[w].0 == k);
            lemma_key_index_of(m, k, w + 1);
            lemma_key_index_of(m2, k, w);
            assert(entries_of(m2, k) == entries_of(m, k));
        } else {
            assert(entries_of(m2, k) =~= Seq::<(T, u64)>::empty());
        }
    }
}

/// Dropping the most recent entry commutes with taking the sub-pool view.
proof fn lemma_shelf_model_drop_last<T>(es: Seq<Inner<T>>)
    requires
        es.len() > 0,
    ensures
        shelf_model(es.drop_last()) == shelf_model(es).drop_last(),
{
    assert(shelf_model(es.drop_last()) =~= shelf_model(es).drop_last());
}

/// The sorted, bounded, expiring pool engine.
///
/// Configuration is fixed at construction: `max_pool_indexes` bounds how many
/// distinct keys are resident, `max_single_pool_size` bounds each sub-pool,
/// and `expiration` is the allowance, in milliseconds, after which an entry
/// counts as dead.
pub struct Store<T> {
    max_pool_indexes: usize,
    max_single_pool_size: usize,
    expiration: u64,
    buckets: Vec<(String, Vec<Inner<T>>)>,
}

/// The view of one sub-pool vector.
pub open spec fn shelf_model<T>(es: Seq<Inner<T>>) -> Shelf<T> {
    es.map_values(|e: Inner<T>| e@)
}

impl<T> View for Store<T> {
    type V = StoreModel<T>;

    closed spec fn view(&self) -> StoreModel<T> {
        self.buckets@.map_values(|b: (String, Vec<Inner<T>>)| (b.0@, shelf_model(b.1@)))
    }
}

impl<T> Store<T> {
    pub closed spec fn max_indexes(&self) -> int {
        self.max_pool_indexes as int
    }

    pub closed spec fn max_single(&self) -> int {
        self.max_single_pool_size as int
    }

    pub closed spec fn expiration_ms(&self) -> u64 {
        self.expiration
    }

    /// Well-formedness: the keys are strictly sorted and the bounds positive.
    pub open spec fn wf(&self) -> bool {
        &&& keys_sorted(self@)
        &&& self.max_indexes() >= 1
        &&& self.max_single() >= 1
    }

    /// A store's configuration never changes after construction.
    pub open spec fn same_config(&self, other: &Self) -> bool {
        &&& self.max_indexes() == other.max_indexes()
        &&& self.max_single() == other.max_single()
        &&& self.expiration_ms() == other.expiration_ms()
    }

    pub fn new(max_pool_indexes: usize, max_single_pool_size: usize, expiration: u64) -> (s: Self)
        requires
            max_pool_indexes >= 1,
            max_single_pool_size >= 1,
        ensures
            s.wf(),
            s@.len() == 0,
            s.max_indexes() == max_pool_indexes,
            s.max_single() == max_single_pool_size,
            s.expiration_ms() == expiration,
    {
        Store { max_pool_indexes, max_single_pool_size, expiration, buckets: Vec::new() }
    }

    /// How many distinct index keys are currently resident.
    pub fn size(&self) -> (n: usize)
        ensures
            n == self@.len(),
    {
        self.buckets.len()
    }

    /// How many live entries stand under `item`: 0 when the key is absent.
    pub fn len(&self, item: &str) -> (n: usize)
        requires
            self.wf(),
        ensures
            n == length_of(self@, item@),
    {
        let (pos, found) = self.find_slot(item);
        if found {
            self.buckets[pos].1.len()
        } else {
            0
        }
    }

    /// Whether the store already holds its maximum number of distinct keys.
    pub fn is_full(&self) -> (r: bool)
        ensures
            r == (self@.len() >= self.max_indexes()),
    {
        self.buckets.len() >= self.max_pool_indexes
    }

    /// Locates `item` among the sorted keys: either its position, or the
    /// position where it would have to be inserted to keep the keys sorted.
    fn find_slot(&self, item: &str) -> (r: (usize, bool))
        requires
            self.wf(),
        ensures
            ({
                let (pos, found) = r;
                &&& pos <= self@.len()
                &&& found ==> pos < self@.len() && self@[pos as int].0 == item@ && has_key(
                    self@,
                    item@,
                ) && key_index(self@, item@) == pos
                &&& !found ==> !has_key(self@, item@) && (forall|j: int|
                    0 <= j < pos ==> key_lt(#[trigger] self@[j].0, item@)) && (forall|j: int|
                    pos <= j < self@.len() ==> key_lt(item@, #[trigger] self@[j].0))
            }),
    {
        let n = self.buckets.len();
        let mut i: usize = 0;
        while i < n
            invariant
                self.wf(),
                0 <= i <= n,
                n == self@.len(),
                forall|j: int| 0 <= j < i ==> key_lt(#[trigger] self@[j].0, item@),
            decreases n - i,
        {
            let o = str_compare(self.buckets[i].0.as_str(), item);
            if o == 0 {
                proof {
                    lemma_key_index_of(self@, item@, i as int);
                }
                return (i, true);
            }
            if o == 1 {
                proof {
                    assert forall|j: int| i <= j < self@.len() implies key_lt(
                        item@,
                        #[trigger] self@[j].0,
                    ) by {
                        if j > i {
                            lemma_key_lt_transitive(item@, self@[i as int].0, self@[j].0);
                        }
                    }
                    assert forall|j: int| 0 <= j < self@.len() implies self@[j].0 != item@ by {
                        if self@[j].0 == item@ {
                            lemma_key_lt_irreflexive(item@);
                        }
                    }
                }
                return (i, false);
            }
            i = i + 1;
        }
        proof {
            assert forall|j: int| 0 <= j < self@.len() implies self@[j].0 != item@ by {
                if self@[j].0 == item@ {
                    lemma_key_lt_irreflexive(item@);
                }
            }
        }
        (n, false)
    }

    /// The capacity policy: when the store is full of distinct keys, the whole
    /// sub-pool of the key that sorts first is discarded — not the least
    /// recently used one. The one key the scan cannot name is the empty
    /// string: a full store whose first key is empty is left over capacity.
    pub fn expunge_oldest(&mut self)
        requires
            old(self).wf(),
        ensures
            final(self).wf(),
            final(self).same_config(old(self)),
            final(self)@ == evicted(old(self)@, old(self).max_indexes()),
    {
        if !self.is_full() {
            return ;
        }
        if !self.buckets[0].0.as_str().is_empty() {
            let _ = self.buckets.remove(0);
            proof {
                assert(self@ =~~= old(self)@.drop_first());
                assert(self@ == evicted(old(self)@, old(self).max_indexes()));
            }
        }
    }

    /// Inserts `object` as a new entry created at `start_time` into the
    /// sub-pool for `item`, creating that sub-pool if it is absent, after
    /// applying the eviction step. The new entry always becomes the most
    /// recent one under `item`.
    ///
    /// The capacity law stands in the last two clauses: attaching a fresh key
    /// to a store that is not full grows the key count by one, and a store
    /// that was within capacity stays within capacity unless its first key is
    /// the unevictable empty string.
    pub fn attach_at(&mut self, item: &str, start_time: u64, object: T)
        requires
            old(self).wf(),
        ensures
            final(self).wf(),
            final(self).same_config(old(self)),
            has_key(final(self)@, item@),
            entries_of(final(self)@, item@) == entries_of(
                evicted(old(self)@, old(self).max_indexes()),
                item@,
            ).push((object, start_time)),
            forall|k: Seq<char>|
                k != item@ ==> #[trigger] has_key(final(self)@, k) == has_key(
                    evicted(old(self)@, old(self).max_indexes()),
                    k,
                ),
            forall|k: Seq<char>|
                k != item@ ==> #[trigger] entries_of(final(self)@, k) == entries_of(
                    evicted(old(self)@, old(self).max_indexes()),
                    k,
                ),
            final(self)@.len() == evicted(old(self)@, old(self).max_indexes()).len() + (if has_key(
                evicted(old(self)@, old(self).max_indexes()),
                item@,
            ) {
                0int
            } else {
                1int
            }),
            old(self)@.len() < old(self).max_indexes() && !has_key(old(self)@, item@)
                ==> final(self)@.len() == old(self)@.len() + 1,
            old(self)@.len() <= old(self).max_indexes() && (old(self)@.len()
                < old(self).max_indexes() || old(self)@[0].0.len() > 0) ==> final(self)@.len()
                <= old(self).max_indexes(),
    {
        self.expunge_oldest();
        let ghost mid = self@;
        let (pos, found) = self.find_slot(item);
        if found {
            let mut b = self.buckets.remove(pos);
            let ghost before = b.1@;
            let e = Inner::new(object, start_time);
            let ghost ge = e;
            b.1.push(e);
            self.buckets.insert(pos, b);
            proof {
                lemma_shelf_model_push(before, ge);
                assert(self@ =~~= mid.update(
                    pos as int,
                    (item@, mid[pos as int].1.push((object, start_time))),
                ));
                lemma_update_entries(
                    mid,
                    self@,
                    pos as int,
                    mid[pos as int].1.push((object, start_time)),
                );
            }
        } else {
            let mut es: Vec<Inner<T>> = Vec::new();
            es.push(Inner::new(object, start_time));
            self.buckets.insert(pos, (item.to_owned(), es));
            proof {
                assert(shelf_model(es@) =~= Seq::<(T, u64)>::empty().push((object, start_time)));
                assert(self@ =~~= mid.insert(
                    pos as int,
                    (item@, Seq::<(T, u64)>::empty().push((object, start_time))),
                ));
                lemma_insert_key(
                    mid,
                    self@,
                    pos as int,
                    item@,
                    Seq::<(T, u64)>::empty().push((object, start_time)),
                );
                assert(entries_of(mid, item@) =~= Seq::<(T, u64)>::empty());
            }
        }
    }

    /// Attempts to pop the most recent live entry for `item` at time `now`.
    ///
    /// When the sub-pool stands over its bound, the single most recent entry
    /// is first discarded. The pop then removes the top entry in any case; it
    /// is handed back only when it has not expired, so an expired top entry is
    /// silently discarded and the attempt reports absence. An absent key or an
    /// empty sub-pool also report absence; the key itself is never removed.
    pub fn try_pull_at(&mut self, item: &str, now: u64) -> (r: Option<(T, u64)>)
        requires
            old(self).wf(),
        ensures
            final(self).wf(),
            final(self).same_config(old(self)),
            final(self)@.len() == old(self)@.len(),
            forall|k: Seq<char>| #[trigger] has_key(final(self)@, k) == has_key(old(self)@, k),
            entries_of(final(self)@, item@) == retrieve_rest(
                entries_of(old(self)@, item@),
                old(self).max_single(),
            ),
            forall|k: Seq<char>|
                k != item@ ==> #[trigger] entries_of(final(self)@, k) == entries_of(old(self)@, k),
            r == retrieve_result(
                entries_of(old(self)@, item@),
                old(self).max_single(),
                old(self).expiration_ms(),
                now,
            ),
    {
        let (pos, found) = self.find_slot(item);
        if !found {
            proof {
                assert(entries_of(self@, item@) =~= retrieve_rest(
                    entries_of(self@, item@),
                    self.max_single(),
                ));
            }
            return None;
        }
        let mut b = self.buckets.remove(pos);
        let ghost es0 = shelf_model(b.1@);
        if b.1.len() > self.max_single_pool_size {
            let ghost whole = b.1@;
            let _ = b.1.pop();
            proof {
                lemma_shelf_model_drop_last(whole);
            }
        }
        let ghost es1 = shelf_model(b.1@);
        proof {
            assert(es1 == trimmed(es0, old(self).max_single()));
        }
        let ghost pre = b.1@;
        let popped = b.1.pop();
        proof {
            if pre.len() > 0 {
                lemma_shelf_model_drop_last(pre);
            }
        }
        let r = match popped {
            None => None,
            Some(e) => {
                proof {
                    assert(e@ == es1.last());
                }
                if e.expired(self.expiration, now) {
                    None
                } else {
                    let st = e.start_time();
                    Some((e.into_object(), st))
                }
            },
        };
        let ghost rest = shelf_model(b.1@);
        self.buckets.insert(pos, b);
        proof {
            assert(self@ =~~= old(self)@.update(pos as int, (item@, rest)));
            lemma_update_entries(old(self)@, self@, pos as int, rest);
            assert(rest =~= retrieve_rest(es0, old(self).max_single()));
        }
        r
    }

    /// Whether an entry could have been handed out by `pull_at`: it was either
    /// freshly constructed at `now` by the fallback, or already stored under
    /// the key beforehand.
    pub open spec fn pulled_from<F: Fn() -> T>(
        e: (T, u64),
        before: Shelf<T>,
        fallback: F,
        now: u64,
    ) -> bool {
        (call_ensures(fallback, (), e.0) && e.1 == now) || (exists|w: int|
            0 <= w < before.len() && before[w] == e)
    }

    /// Retrieves a live entry for `item` at `now`, or synthesizes one.
    ///
    /// On a hit this is exactly [`Self::try_pull_at`]. On a miss the fallback
    /// constructor is invoked `max_single_pool_size` times, each result
    /// attached under `item` at `now`, and the retrieval is retried once; in
    /// the rare case that the retry still misses, one more fresh object is
    /// handed out directly. Either way the entry handed back is live and came
    /// from the store or from the fallback.
    ///
    /// The batch law stands in the last clause: a pull on an empty store
    /// (with room for at least two keys) leaves exactly one key holding
    /// `max_single_pool_size - 1` fresh entries and hands back an object the
    /// fallback constructed.
    pub fn pull_at<F: Fn() -> T>(&mut self, item: &str, now: u64, fallback: F) -> (r: (T, u64))
        requires
            old(self).wf(),
            call_requires(fallback, ()),
        ensures
            final(self).wf(),
            final(self).same_config(old(self)),
            !is_expired(r.1, old(self).expiration_ms(), now),
            Self::pulled_from(r, entries_of(old(self)@, item@), fallback, now),
            retrieve_result(
                entries_of(old(self)@, item@),
                old(self).max_single(),
                old(self).expiration_ms(),
                now,
            ) is Some ==> Some(r) == retrieve_result(
                entries_of(old(self)@, item@),
                old(self).max_single(),
                old(self).expiration_ms(),
                now,
            ) && entries_of(final(self)@, item@) == retrieve_rest(
                entries_of(old(self)@, item@),
                old(self).max_single(),
            ) && final(self)@.len() == old(self)@.len() && (forall|k: Seq<char>|
                k != item@ ==> #[trigger] entries_of(final(self)@, k) == entries_of(
                    old(self)@,
                    k,
                )),
            old(self)@.len() == 0 && old(self).max_indexes() >= 2 ==> length_of(
                final(self)@,
                item@,
            ) == old(self).max_single() - 1 && call_ensures(fallback, (), r.0) && r.1 == now
                && final(self)@.len() == 1,
    {
        let ghost g_old = entries_of(old(self)@, item@);
        let ghost g_max_single = old(self).max_single();
        let ghost g_max_indexes = old(self).max_indexes();
        let ghost g_exp = old(self).expiration_ms();
        let ghost from_empty = old(self)@.len() == 0 && old(self).max_indexes() >= 2;
        proof {
            if old(self)@.len() == 0 {
                assert(!has_key(old(self)@, item@));
                assert(g_old =~= Seq::<(T, u64)>::empty());
            }
        }
        let first = self.try_pull_at(item, now);
        match first {
            Some(x) => {
                proof {
                    let t = trimmed(g_old, g_max_single);
                    assert(x == t.last());
                    if g_old.len() > g_max_single {
                        assert(t[t.len() - 1] == g_old[t.len() - 1]);
                    }
                    assert(exists|w: int| 0 <= w < g_old.len() && g_old[w] == x);
                }
                x
            },
            None => {
                let mut i: usize = 0;
                let n = self.max_single_pool_size;
                proof {
                    assert(forall|j: int|
                        0 <= j < entries_of(self@, item@).len()
                            ==> #[trigger] entries_of(self@, item@)[j] == trimmed(
                            g_old,
                            g_max_single,
                        )[j]);
                }
                while i < n
                    invariant
                        self.wf(),
                        self.max_single() == g_max_single,
                        self.max_indexes() == g_max_indexes,
                        self.expiration_ms() == g_exp,
                        n == g_max_single,
                        0 <= i <= n,
                        call_requires(fallback, ()),
                        i >= 1 ==> has_key(self@, item@) && entries_of(self@, item@).len() >= 1
                            && entries_of(self@, item@).last().1 == now && call_ensures(
                            fallback,
                            (),
                            entries_of(self@, item@).last().0,
                        ),
                        forall|j: int|
                            0 <= j < entries_of(self@, item@).len() ==> Self::pulled_from(
                                #[trigger] entries_of(self@, item@)[j],
                                g_old,
                                fallback,
                                now,
                            ),
                        from_empty ==> g_max_indexes >= 2 && g_old.len() == 0 && self@.len() == (if i
                            == 0 {
                            0int
                        } else {
                            1int
                        }) && entries_of(self@, item@).len() == i,
                    decreases n - i,
                {
                    let ghost mid = self@;
                    let obj = fallback();
                    self.attach_at(item, now, obj);
                    proof {
                        lemma_evicted_entries(mid, g_max_indexes, item@);
                        assert(entries_of(self@, item@).last() == (obj, now));
                        assert(forall|j: int|
                            0 <= j < entries_of(self@, item@).len() - 1
                                ==> #[trigger] entries_of(self@, item@)[j] == entries_of(
                                evicted(mid, g_max_indexes),
                                item@,
                            )[j]);
                        if from_empty {
                            assert(mid.len() < g_max_indexes);
                            assert(evicted(mid, g_max_indexes) == mid);
                        }
                    }
                    i = i + 1;
                }
                let ghost cur = entries_of(self@, item@);
                let second = self.try_pull_at(item, now);
                match second {
                    Some(x) => {
                        proof {
                            let t = trimmed(cur, g_max_single);
                            assert(x == t.last());
                            if cur.len() > g_max_single {
                                assert(t[t.len() - 1] == cur[t.len() - 1]);
                            }
                            assert(exists|w: int| 0 <= w < cur.len() && cur[w] == x);
                            if from_empty {
                                assert(cur.len() == g_max_single);
                                assert(t == cur);
                                assert(x == (cur.last().0, cur.last().1));
                            }
                        }
                        x
                    },
                    None => {
                        proof {
                            if from_empty {
                                assert(cur.len() == g_max_single);
                                assert(trimmed(cur, g_max_single) == cur);
                                assert(!is_expired(cur.last().1, g_exp, now));
                                assert(false);
                            }
                        }
                        let obj = fallback();
                        (obj, now)
                    },
                }
            },
        }
    }
}

} // verus!
