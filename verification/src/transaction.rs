//! Transaction states and strict collection-level two-phase locking.
//!
//! A transaction is active until it commits or rolls back; both outcomes
//! are final. An active transaction may hold shared locks, which coexist,
//! and exclusive locks, which exclude every other transaction. Every lock a
//! transaction holds is released when it finishes.
use std::collections::{BTreeMap, BTreeSet};
use vstd::prelude::*;

use crate::error::{error_detail, NovaError, Result};
use crate::text::{debug_text, decimal, push_decimal, push_str, str_debug, str_eq};
use crate::wal::{LogRecord, RecordView};

verus! {

/// Observable transaction lifecycle state.
#[derive(Debug, Clone, Copy, PartialEq, Eq)]
pub enum TransactionStatus {
    Active,
    Committed,
    RolledBack,
}

/// The `Debug` text of a status: its variant's name.
pub open spec fn status_name(s: TransactionStatus) -> Seq<char> {
    match s {
        TransactionStatus::Active => "Active"@,
        TransactionStatus::Committed => "Committed"@,
        TransactionStatus::RolledBack => "RolledBack"@,
    }
}

/// The readers and the writer of one collection.
struct CollectionLock {
    name: String,
    readers: BTreeSet<u64>,
    writer: Option<u64>,
}

/// Transaction coordinator: the next id to hand out, the state of every
/// transaction begun, and the lock held on each collection.
pub struct TransactionManager {
    next_id: u64,
    statuses: BTreeMap<u64, TransactionStatus>,
    locks: Vec<CollectionLock>,
}

/// The index of the lock entry of a collection, if any.
spec fn lock_entry(locks: Seq<CollectionLock>, collection: Seq<char>) -> Option<int> {
    if exists|i: int| 0 <= i < locks.len() && (#[trigger] locks[i]).name@ == collection {
        Some(choose|i: int| 0 <= i < locks.len() && (#[trigger] locks[i]).name@ == collection)
    } else {
        None
    }
}

/// The readers recorded for a collection.
spec fn readers_in(locks: Seq<CollectionLock>, collection: Seq<char>) -> Set<u64> {
    match lock_entry(locks, collection) {
        Some(i) => locks[i].readers@,
        None => Set::empty(),
    }
}

/// The writer recorded for a collection.
spec fn writer_in(locks: Seq<CollectionLock>, collection: Seq<char>) -> Option<u64> {
    match lock_entry(locks, collection) {
        Some(i) => locks[i].writer,
        None => None,
    }
}

/// A writer with one transaction's exclusive lock released.
pub open spec fn without_writer(w: Option<u64>, id: u64) -> Option<u64> {
    if w == Some(id) {
        None
    } else {
        w
    }
}

/// Lock entries name distinct collections, their reader sets are finite,
/// and each entry is held by someone.
spec fn locks_ok(locks: Seq<CollectionLock>) -> bool {
    &&& forall|i: int, j: int|
        0 <= i < j < locks.len() ==> (#[trigger] locks[i]).name@ != (#[trigger] locks[j]).name@
    &&& forall|i: int| 0 <= i < locks.len() ==> (#[trigger] locks[i]).readers@.finite()
    &&& forall|i: int|
        0 <= i < locks.len() ==> !(#[trigger] locks[i]).readers@.is_empty() || locks[i].writer is Some
}

impl TransactionManager {
    /// The id the next transaction will get.
    pub closed spec fn next_id_view(self) -> u64 {
        self.next_id
    }

    /// The state of every transaction begun.
    pub closed spec fn statuses_view(self) -> Map<u64, TransactionStatus> {
        self.statuses@
    }

    /// The transactions holding a shared lock on a collection.
    pub closed spec fn readers(self, collection: Seq<char>) -> Set<u64> {
        readers_in(self.locks@, collection)
    }

    /// The transaction holding the exclusive lock on a collection, if any.
    pub closed spec fn writer(self, collection: Seq<char>) -> Option<u64> {
        writer_in(self.locks@, collection)
    }

    /// Whether a transaction is active.
    pub open spec fn is_active(self, id: u64) -> bool {
        self.statuses_view().contains_key(id) && self.statuses_view()[id] == TransactionStatus::Active
    }

    /// The invariant: every id handed out is below the next one; only
    /// active transactions hold locks; a collection's exclusive lock
    /// excludes every other transaction.
    pub closed spec fn wf(self) -> bool {
        &&& locks_ok(self.locks@)
        &&& forall|id: u64| #[trigger] self.statuses@.contains_key(id) ==> id < self.next_id
        &&& forall|c: Seq<char>, id: u64| #[trigger] self.readers(c).contains(id) ==> self.is_active(id)
        &&& forall|c: Seq<char>| #[trigger] self.writer(c) is Some ==> self.is_active(self.writer(c)->0)
        &&& forall|c: Seq<char>, id: u64|
            #[trigger] self.readers(c).contains(id) && self.writer(c) is Some ==> id == self.writer(c)->0
    }

    /// A coordinator with no transactions, handing out ids from `next_id`.
    pub fn new(next_id: u64) -> (r: Self)
        ensures
            r.wf(),
            r.next_id_view() == next_id,
            r.statuses_view() == Map::<u64, TransactionStatus>::empty(),
            forall|c: Seq<char>| r.readers(c) == Set::<u64>::empty() && r.writer(c) is None,
    {
        let r = TransactionManager { next_id, statuses: BTreeMap::new(), locks: Vec::new() };
        r
    }
}

/// The message for an unknown transaction.
pub open spec fn unknown_detail(id: u64) -> Seq<char> {
    "transaction "@ + decimal(id as nat)
}

/// The message for a transaction that is no longer active.
pub open spec fn inactive_detail(id: u64, status: TransactionStatus) -> Seq<char> {
    "transaction "@ + decimal(id as nat) + " is "@ + status_name(status)
}

/// The message for a lock that another transaction holds.
pub open spec fn conflict_detail(collection: Seq<char>) -> Seq<char> {
    "lock conflict on collection "@ + str_debug(collection)
}

/// The message for an exhausted id space.
pub open spec fn overflow_detail() -> Seq<char> {
    "transaction id overflow"@
}

/// The error `ensure_active` reports for a transaction, if any.
pub open spec fn activity_error(statuses: Map<u64, TransactionStatus>, id: u64, e: NovaError) -> bool {
    if !statuses.contains_key(id) {
        e is NotFound && error_detail(e) == unknown_detail(id)
    } else {
        e is InvalidState && error_detail(e) == inactive_detail(id, statuses[id])
    }
}

fn unknown_error(id: u64) -> (e: NovaError)
    ensures
        e is NotFound && error_detail(e) == unknown_detail(id),
{
    let mut m = String::new();
    push_str(&mut m, "transaction ");
    push_decimal(&mut m, id as u128);
    NovaError::NotFound(m)
}

fn inactive_error(id: u64, status: TransactionStatus) -> (e: NovaError)
    ensures
        e is InvalidState && error_detail(e) == inactive_detail(id, status),
{
    let mut m = String::new();
    push_str(&mut m, "transaction ");
    push_decimal(&mut m, id as u128);
    push_str(&mut m, " is ");
    match status {
        TransactionStatus::Active => push_str(&mut m, "Active"),
        TransactionStatus::Committed => push_str(&mut m, "Committed"),
        TransactionStatus::RolledBack => push_str(&mut m, "RolledBack"),
    }
    NovaError::InvalidState(m)
}

fn conflict_error(collection: &str) -> (e: NovaError)
    ensures
        e is InvalidState && error_detail(e) == conflict_detail(collection@),
{
    let mut m = String::new();
    push_str(&mut m, "lock conflict on collection ");
    let quoted = debug_text(collection);
    push_str(&mut m, quoted.as_str());
    NovaError::InvalidState(m)
}

impl TransactionManager {
    /// The id the next transaction will get.
    pub fn next_id(&self) -> (r: u64)
        ensures
            r == self.next_id_view(),
    {
        self.next_id
    }

    /// A known transaction's state.
    pub fn status(&self, id: u64) -> (r: Result<TransactionStatus>)
        requires
            self.wf(),
        ensures
            self.statuses_view().contains_key(id) ==> r == Ok::<TransactionStatus, NovaError>(
                self.statuses_view()[id],
            ),
            !self.statuses_view().contains_key(id) ==> (r matches Err(e) && e is NotFound && error_detail(e)
                == unknown_detail(id)),
    {
        match self.statuses.get(&id) {
            Some(s) => Ok(*s),
            None => Err(unknown_error(id)),
        }
    }

    /// Succeeds exactly for an active transaction; otherwise names why not.
    pub fn ensure_active(&self, id: u64) -> (r: Result<()>)
        requires
            self.wf(),
        ensures
            r is Ok <==> self.is_active(id),
            r matches Err(e) ==> activity_error(self.statuses_view(), id, e),
    {
        match self.statuses.get(&id) {
            Some(s) => match s {
                TransactionStatus::Active => Ok(()),
                _ => Err(inactive_error(id, *s)),
            },
            None => Err(unknown_error(id)),
        }
    }

    /// The position of a collection's lock entry.
    fn find(&self, collection: &str) -> (r: Option<usize>)
        requires
            self.wf(),
        ensures
            match r {
                Some(i) => i < self.locks@.len() && lock_entry(self.locks@, collection@) == Some(i as int),
                None => lock_entry(self.locks@, collection@) is None,
            },
    {
        let mut i: usize = 0;
        while i < self.locks.len()
            invariant
                i <= self.locks@.len(),
                self.wf(),
                forall|j: int| 0 <= j < i ==> (#[trigger] self.locks@[j]).name@ != collection@,
            decreases self.locks@.len() - i,
        {
            if str_eq(self.locks[i].name.as_str(), collection) {
                proof {
                    lemma_entry_at(self.locks@, collection@, i as int);
                }
                return Some(i);
            }
            i = i + 1;
        }
        None
    }
}

/// With distinct names, the entry of a collection is the one index that
/// bears its name.
proof fn lemma_entry_at(locks: Seq<CollectionLock>, collection: Seq<char>, i: int)
    requires
        forall|a: int, b: int| 0 <= a < b < locks.len() ==> (#[trigger] locks[a]).name@ != (#[trigger] locks[b]).name@,
        0 <= i < locks.len(),
        locks[i].name@ == collection,
    ensures
        lock_entry(locks, collection) == Some(i),
{
    let k = lock_entry(locks, collection)->0;
    assert(locks[i].name@ == collection);
    if k != i {
        if k < i {
            assert(locks[k].name@ != locks[i].name@);
        } else {
            assert(locks[i].name@ != locks[k].name@);
        }
    }
}

/// Replacing an entry by one of the same name keeps every lookup.
proof fn lemma_entry_update(locks: Seq<CollectionLock>, i: int, e: CollectionLock, collection: Seq<char>)
    requires
        locks_ok(locks),
        0 <= i < locks.len(),
        e.name@ == locks[i].name@,
    ensures
        lock_entry(locks.update(i, e), collection) == lock_entry(locks, collection),
{
    let after = locks.update(i, e);
    assert forall|a: int, b: int| 0 <= a < b < after.len() implies (#[trigger] after[a]).name@ != (
    #[trigger] after[b]).name@ by {
        assert(after[a].name@ == locks[a].name@);
        assert(after[b].name@ == locks[b].name@);
    }
    if exists|j: int| 0 <= j < locks.len() && (#[trigger] locks[j]).name@ == collection {
        let j = choose|j: int| 0 <= j < locks.len() && (#[trigger] locks[j]).name@ == collection;
        lemma_entry_at(locks, collection, j);
        assert(after[j].name@ == collection);
        lemma_entry_at(after, collection, j);
    } else {
        assert forall|j: int| 0 <= j < after.len() implies (#[trigger] after[j]).name@ != collection by {
            assert(after[j].name@ == locks[j].name@);
        }
    }
}

/// Appending an entry for a collection without one adds just that lookup.
proof fn lemma_entry_push(locks: Seq<CollectionLock>, e: CollectionLock, collection: Seq<char>)
    requires
        locks_ok(locks),
        lock_entry(locks, e.name@) is None,
    ensures
        lock_entry(locks.push(e), collection) == if collection == e.name@ {
            Some(locks.len() as int)
        } else {
            lock_entry(locks, collection)
        },
        forall|a: int, b: int|
            0 <= a < b < locks.push(e).len() ==> (#[trigger] locks.push(e)[a]).name@ != (
            #[trigger] locks.push(e)[b]).name@,
{
    let after = locks.push(e);
    assert forall|a: int, b: int| 0 <= a < b < after.len() implies (#[trigger] after[a]).name@ != (
    #[trigger] after[b]).name@ by {
        if b == locks.len() {
            assert(after[a] == locks[a]);
            if locks[a].name@ == e.name@ {
                assert(exists|j: int| 0 <= j < locks.len() && (#[trigger] locks[j]).name@ == e.name@);
            }
        } else {
            assert(after[a] == locks[a]);
            assert(after[b] == locks[b]);
        }
    }
    if collection == e.name@ {
        lemma_entry_at(after, collection, locks.len() as int);
    } else if exists|j: int| 0 <= j < locks.len() && (#[trigger] locks[j]).name@ == collection {
        let j = choose|j: int| 0 <= j < locks.len() && (#[trigger] locks[j]).name@ == collection;
        lemma_entry_at(locks, collection, j);
        assert(after[j] == locks[j]);
        lemma_entry_at(after, collection, j);
    } else {
        assert forall|j: int| 0 <= j < after.len() implies (#[trigger] after[j]).name@ != collection by {
            if j < locks.len() {
                assert(after[j] == locks[j]);
            }
        }
    }
}

/// A prefix of well-formed entries is well formed, and holds no entry
/// named like the next one.
proof fn lemma_prefix(locks: Seq<CollectionLock>, k: int)
    requires
        locks_ok(locks),
        0 <= k < locks.len(),
    ensures
        locks_ok(locks.take(k)),
        lock_entry(locks.take(k), locks[k].name@) is None,
{
    let p = locks.take(k);
    assert forall|a: int, b: int| 0 <= a < b < p.len() implies (#[trigger] p[a]).name@ != (#[trigger] p[b]).name@ by {
        assert(p[a] == locks[a]);
        assert(p[b] == locks[b]);
    }
    assert forall|a: int| 0 <= a < p.len() implies (#[trigger] p[a]).readers@.finite() by {
        assert(p[a] == locks[a]);
    }
    assert forall|a: int| 0 <= a < p.len() implies !(#[trigger] p[a]).readers@.is_empty() || p[a].writer is Some by {
        assert(p[a] == locks[a]);
    }
    assert forall|a: int| 0 <= a < p.len() implies (#[trigger] p[a]).name@ != locks[k].name@ by {
        assert(p[a] == locks[a]);
    }
}

/// No entries, no locks.
proof fn lemma_no_entries(collection: Seq<char>)
    ensures
        readers_in(Seq::<CollectionLock>::empty(), collection) == Set::<u64>::empty(),
        writer_in(Seq::<CollectionLock>::empty(), collection) is None,
{
}

/// The entries with one transaction's locks released; entries left with
/// no holder are dropped.
fn release_locks(locks: Vec<CollectionLock>, id: u64) -> (r: Vec<CollectionLock>)
    requires
        locks_ok(locks@),
    ensures
        locks_ok(r@),
        forall|c: Seq<char>|
            #[trigger] readers_in(r@, c) == readers_in(locks@, c).remove(id) && writer_in(r@, c)
                == without_writer(writer_in(locks@, c), id),
{
    let ghost orig = locks@;
    let mut rest = locks;
    let mut kept: Vec<CollectionLock> = Vec::new();
    let ghost mut k: int = 0;
    proof {
        assert forall|c: Seq<char>|
            #[trigger] readers_in(kept@, c) == readers_in(orig.take(0), c).remove(id) && writer_in(kept@, c)
                == without_writer(writer_in(orig.take(0), c), id) by {
            assert(orig.take(0) =~= Seq::<CollectionLock>::empty());
            assert(kept@ =~= Seq::<CollectionLock>::empty());
            lemma_no_entries(c);
            assert(Set::<u64>::empty().remove(id) =~= Set::<u64>::empty());
        }
    }
    while rest.len() > 0
        invariant
            locks_ok(orig),
            0 <= k <= orig.len(),
            rest@ == orig.subrange(k, orig.len() as int),
            locks_ok(kept@),
            forall|i: int|
                0 <= i < kept@.len() ==> exists|j: int| 0 <= j < k && orig[j].name@ == (#[trigger] kept@[i]).name@,
            forall|c: Seq<char>|
                #[trigger] readers_in(kept@, c) == readers_in(orig.take(k), c).remove(id) && writer_in(kept@, c)
                    == without_writer(writer_in(orig.take(k), c), id),
        decreases rest@.len(),
    {
        let mut entry = rest.remove(0);
        proof {
            assert(entry == orig[k]);
            lemma_prefix(orig, k);
            assert(orig.take(k + 1) =~= orig.take(k).push(entry));
        }
        let ghost before = kept@;
        entry.readers.remove(&id);
        let released = match entry.writer {
            Some(w) => w == id,
            None => false,
        };
        if released {
            entry.writer = None;
        }
        let empty = entry.readers.is_empty() && entry.writer.is_none();
        proof {
            assert forall|j: int| 0 <= j < before.len() implies (#[trigger] before[j]).name@ != entry.name@ by {
                let w = choose|w: int| 0 <= w < k && orig[w].name@ == before[j].name@;
                assert(orig[w].name@ != orig[k].name@);
            }
        }
        if !empty {
            kept.push(entry);
            proof {
                assert(lock_entry(before, entry.name@) is None);
                assert forall|c: Seq<char>|
                    #[trigger] readers_in(kept@, c) == readers_in(orig.take(k + 1), c).remove(id) && writer_in(kept@, c)
                        == without_writer(writer_in(orig.take(k + 1), c), id) by {
                    lemma_entry_push(before, entry, c);
                    lemma_entry_push(orig.take(k), orig[k], c);
                    assert(readers_in(before, c) == readers_in(orig.take(k), c).remove(id));
                    if c == entry.name@ {
                        assert(readers_in(kept@, c) =~= readers_in(orig.take(k + 1), c).remove(id));
                    }
                }
                assert(kept@.last() == entry);
                assert(entry.readers@.finite());
                assert forall|a: int| 0 <= a < kept@.len() implies (#[trigger] kept@[a]).readers@.finite() && (
                !kept@[a].readers@.is_empty() || kept@[a].writer is Some) by {
                    if a < before.len() {
                        assert(kept@[a] == before[a]);
                    }
                }
                lemma_entry_push(before, entry, entry.name@);
                assert forall|i: int|
                    0 <= i < kept@.len() implies exists|j: int| 0 <= j < k + 1 && orig[j].name@ == (#[trigger] kept@[i]).name@ by {
                    if i == before.len() {
                        assert(orig[k].name@ == kept@[i].name@);
                    } else {
                        assert(kept@[i] == before[i]);
                    }
                }
            }
        } else {
            proof {
                assert(lock_entry(before, entry.name@) is None);
                assert forall|c: Seq<char>|
                    #[trigger] readers_in(kept@, c) == readers_in(orig.take(k + 1), c).remove(id) && writer_in(kept@, c)
                        == without_writer(writer_in(orig.take(k + 1), c), id) by {
                    lemma_entry_push(orig.take(k), orig[k], c);
                    assert(readers_in(kept@, c) == readers_in(orig.take(k), c).remove(id));
                    if c == entry.name@ {
                        assert(readers_in(kept@, c) =~= readers_in(orig.take(k + 1), c).remove(id));
                    }
                }
            }
        }
        assert(forall|c: Seq<char>|
            #[trigger] readers_in(kept@, c) == readers_in(orig.take(k + 1), c).remove(id) && writer_in(kept@, c)
                == without_writer(writer_in(orig.take(k + 1), c), id));
        proof {
            let k0 = k;
            k = k + 1;
            assert(orig.take(k) == orig.take(k0 + 1));
        }
    }
    proof {
        assert(orig.take(k) =~= orig);
    }
    kept
}

impl TransactionManager {
    /// Acquires, or re-enters, a shared lock on a collection for an active
    /// transaction. Fails when the transaction is not active or another
    /// transaction holds the collection's exclusive lock; nothing changes
    /// then.
    pub fn acquire_shared(&mut self, id: u64, collection: &str) -> (r: Result<()>)
        requires
            old(self).wf(),
        ensures
            final(self).wf(),
            final(self).next_id_view() == old(self).next_id_view(),
            final(self).statuses_view() == old(self).statuses_view(),
            r is Ok <==> old(self).is_active(id) && (old(self).writer(collection@) is None
                || old(self).writer(collection@) == Some(id)),
            r matches Err(e) ==> if old(self).is_active(id) {
                e is InvalidState && error_detail(e) == conflict_detail(collection@)
            } else {
                activity_error(old(self).statuses_view(), id, e)
            },
            final(self).readers(collection@) == if r is Ok {
                old(self).readers(collection@).insert(id)
            } else {
                old(self).readers(collection@)
            },
            final(self).writer(collection@) == old(self).writer(collection@),
            forall|c: Seq<char>|
                c != collection@ ==> #[trigger] final(self).readers(c) == old(self).readers(c)
                    && final(self).writer(c) == old(self).writer(c),
    {
        match self.ensure_active(id) {
            Ok(()) => {},
            Err(e) => {
                return Err(e);
            },
        }
        let ghost before = *self;
        match self.find(collection) {
            Some(i) => {
                assert(self.writer(collection@) == self.locks@[i as int].writer);
                match self.locks[i].writer {
                    Some(w) => {
                        if w != id {
                            return Err(conflict_error(collection));
                        }
                    },
                    None => {},
                }
                let mut entry = self.locks.remove(i);
                entry.readers.insert(id);
                self.locks.insert(i, entry);
                proof {
                    assert(self.locks@ =~= before.locks@.update(i as int, entry));
                    assert forall|c: Seq<char>| #[trigger] lock_entry(self.locks@, c) == lock_entry(before.locks@, c) by {
                        lemma_entry_update(before.locks@, i as int, entry, c);
                    }
                    assert(self.readers(collection@) =~= before.readers(collection@).insert(id));
                    before.lemma_shared_added(*self, collection@, id);
                }
            },
            None => {
                let mut readers = BTreeSet::new();
                readers.insert(id);
                let entry = CollectionLock { name: collection.to_owned(), readers, writer: None };
                self.locks.push(entry);
                proof {
                    assert forall|c: Seq<char>| #[trigger] lock_entry(self.locks@, c) == if c == collection@ {
                        Some(before.locks@.len() as int)
                    } else {
                        lock_entry(before.locks@, c)
                    } by {
                        lemma_entry_push(before.locks@, entry, c);
                    }
                    lemma_entry_push(before.locks@, entry, collection@);
                    assert(self.readers(collection@) =~= before.readers(collection@).insert(id));
                    before.lemma_shared_added(*self, collection@, id);
                }
            },
        }
        Ok(())
    }

    /// Acquires, or upgrades to, the exclusive lock on a collection for an
    /// active transaction: its shared lock there, if any, gives way to the
    /// exclusive one. Fails when the transaction is not active or another
    /// transaction holds a lock on the collection; nothing changes then.
    pub fn acquire_exclusive(&mut self, id: u64, collection: &str) -> (r: Result<()>)
        requires
            old(self).wf(),
        ensures
            final(self).wf(),
            final(self).next_id_view() == old(self).next_id_view(),
            final(self).statuses_view() == old(self).statuses_view(),
            r is Ok <==> old(self).is_active(id)
                && (forall|x: u64| #[trigger] old(self).readers(collection@).contains(x) ==> x == id)
                && (old(self).writer(collection@) is None || old(self).writer(collection@) == Some(id)),
            r matches Err(e) ==> if old(self).is_active(id) {
                e is InvalidState && error_detail(e) == conflict_detail(collection@)
            } else {
                activity_error(old(self).statuses_view(), id, e)
            },
            r is Ok ==> final(self).readers(collection@) == Set::<u64>::empty()
                && final(self).writer(collection@) == Some(id),
            r is Err ==> final(self).readers(collection@) == old(self).readers(collection@)
                && final(self).writer(collection@) == old(self).writer(collection@),
            forall|c: Seq<char>|
                c != collection@ ==> #[trigger] final(self).readers(c) == old(self).readers(c)
                    && final(self).writer(c) == old(self).writer(c),
    {
        match self.ensure_active(id) {
            Ok(()) => {},
            Err(e) => {
                return Err(e);
            },
        }
        let ghost before = *self;
        match self.find(collection) {
            Some(i) => {
                assert(self.writer(collection@) == self.locks@[i as int].writer);
                assert(self.readers(collection@) == self.locks@[i as int].readers@);
                let n = self.locks[i].readers.len();
                let holds = self.locks[i].readers.contains(&id);
                proof {
                    let rs = self.locks@[i as int].readers@;
                    if n == 0 {
                        rs.lemma_len0_is_empty();
                    }
                    if n == 1 && holds {
                        rs.remove(id).lemma_len0_is_empty();
                        assert forall|x: u64| #[trigger] rs.contains(x) implies x == id by {
                            if x != id {
                                assert(rs.remove(id).contains(x));
                            }
                        }
                    }
                    if n > 1 || (n == 1 && !holds) {
                        if forall|x: u64| #[trigger] rs.contains(x) ==> x == id {
                            vstd::set_lib::lemma_len_subset(rs, set![id]);
                            assert(rs.len() <= 1);
                            if n == 1 {
                                assert(rs.len() != 0);
                                rs.lemma_len0_is_empty();
                            }
                        }
                    }
                }
                let foreign_reader = n > 1 || (n == 1 && !holds);
                let foreign_writer = match self.locks[i].writer {
                    Some(w) => w != id,
                    None => false,
                };
                if foreign_reader || foreign_writer {
                    return Err(conflict_error(collection));
                }
                let mut entry = self.locks.remove(i);
                entry.readers.remove(&id);
                entry.writer = Some(id);
                self.locks.insert(i, entry);
                proof {
                    assert(self.locks@ =~= before.locks@.update(i as int, entry));
                    assert forall|c: Seq<char>| #[trigger] lock_entry(self.locks@, c) == lock_entry(before.locks@, c) by {
                        lemma_entry_update(before.locks@, i as int, entry, c);
                    }
                    assert(self.readers(collection@) =~= Set::<u64>::empty());
                    self.lemma_one_lock_changed(before, collection@);
                }
            },
            None => {
                let entry = CollectionLock { name: collection.to_owned(), readers: BTreeSet::new(), writer: Some(id) };
                self.locks.push(entry);
                proof {
                    assert forall|c: Seq<char>| #[trigger] lock_entry(self.locks@, c) == if c == collection@ {
                        Some(before.locks@.len() as int)
                    } else {
                        lock_entry(before.locks@, c)
                    } by {
                        lemma_entry_push(before.locks@, entry, c);
                    }
                    lemma_entry_push(before.locks@, entry, collection@);
                    assert(self.readers(collection@) =~= Set::<u64>::empty());
                    self.lemma_one_lock_changed(before, collection@);
                }
            },
        }
        Ok(())
    }

    /// Finishes an active transaction with a final state and releases every
    /// lock it holds.
    fn finish(&mut self, id: u64, outcome: TransactionStatus) -> (r: Result<()>)
        requires
            old(self).wf(),
            outcome != TransactionStatus::Active,
        ensures
            final(self).wf(),
            final(self).next_id_view() == old(self).next_id_view(),
            r is Ok <==> old(self).is_active(id),
            r matches Err(e) ==> activity_error(old(self).statuses_view(), id, e),
            final(self).statuses_view() == if r is Ok {
                old(self).statuses_view().insert(id, outcome)
            } else {
                old(self).statuses_view()
            },
            forall|c: Seq<char>|
                #[trigger] final(self).readers(c) == (if r is Ok {
                    old(self).readers(c).remove(id)
                } else {
                    old(self).readers(c)
                }) && final(self).writer(c) == if r is Ok {
                    without_writer(old(self).writer(c), id)
                } else {
                    old(self).writer(c)
                },
    {
        match self.ensure_active(id) {
            Ok(()) => {},
            Err(e) => {
                return Err(e);
            },
        }
        let ghost before = *self;
        self.statuses.insert(id, outcome);
        let mut taken: Vec<CollectionLock> = Vec::new();
        std::mem::swap(&mut taken, &mut self.locks);
        self.locks = release_locks(taken, id);
        proof {
            assert forall|c: Seq<char>, x: u64| #[trigger] self.readers(c).contains(x) implies self.is_active(x) by {
                assert(before.readers(c).contains(x));
            }
            assert forall|c: Seq<char>| #[trigger] self.writer(c) is Some implies self.is_active(self.writer(c)->0) by {
                assert(self.readers(c) == before.readers(c).remove(id));
                assert(before.writer(c) is Some);
            }
            assert forall|c: Seq<char>, x: u64|
                #[trigger] self.readers(c).contains(x) && self.writer(c) is Some implies x == self.writer(c)->0 by {
                assert(before.readers(c).contains(x));
            }
        }
        Ok(())
    }

    /// Commits an active transaction, releasing every lock it holds. The
    /// caller makes the commit durable first.
    pub fn commit(&mut self, id: u64) -> (r: Result<()>)
        requires
            old(self).wf(),
        ensures
            final(self).wf(),
            final(self).next_id_view() == old(self).next_id_view(),
            r is Ok <==> old(self).is_active(id),
            r matches Err(e) ==> activity_error(old(self).statuses_view(), id, e),
            final(self).statuses_view() == if r is Ok {
                old(self).statuses_view().insert(id, TransactionStatus::Committed)
            } else {
                old(self).statuses_view()
            },
            forall|c: Seq<char>|
                #[trigger] final(self).readers(c) == (if r is Ok {
                    old(self).readers(c).remove(id)
                } else {
                    old(self).readers(c)
                }) && final(self).writer(c) == if r is Ok {
                    without_writer(old(self).writer(c), id)
                } else {
                    old(self).writer(c)
                },
    {
        self.finish(id, TransactionStatus::Committed)
    }

    /// Rolls back an active transaction, releasing every lock it holds. The
    /// caller makes the rollback durable first.
    pub fn rollback(&mut self, id: u64) -> (r: Result<()>)
        requires
            old(self).wf(),
        ensures
            final(self).wf(),
            final(self).next_id_view() == old(self).next_id_view(),
            r is Ok <==> old(self).is_active(id),
            r matches Err(e) ==> activity_error(old(self).statuses_view(), id, e),
            final(self).statuses_view() == if r is Ok {
                old(self).statuses_view().insert(id, TransactionStatus::RolledBack)
            } else {
                old(self).statuses_view()
            },
            forall|c: Seq<char>|
                #[trigger] final(self).readers(c) == (if r is Ok {
                    old(self).readers(c).remove(id)
                } else {
                    old(self).readers(c)
                }) && final(self).writer(c) == if r is Ok {
                    without_writer(old(self).writer(c), id)
                } else {
                    old(self).writer(c)
                },
    {
        self.finish(id, TransactionStatus::RolledBack)
    }

    /// Adding an active reader where no other transaction writes keeps the
    /// invariant.
    proof fn lemma_shared_added(self, after: Self, collection: Seq<char>, id: u64)
        requires
            self.wf(),
            locks_ok(after.locks@),
            after.next_id == self.next_id,
            after.statuses@ == self.statuses@,
            self.is_active(id),
            self.writer(collection) is None || self.writer(collection) == Some(id),
            after.readers(collection) == self.readers(collection).insert(id),
            after.writer(collection) == self.writer(collection),
            forall|c: Seq<char>|
                c != collection ==> #[trigger] after.readers(c) == self.readers(c) && after.writer(c) == self.writer(c),
        ensures
            after.wf(),
    {
        assert forall|x: u64| #[trigger] after.readers(collection).contains(x) implies after.is_active(x) by {
            if x != id {
                assert(self.readers(collection).contains(x));
            }
        }
        assert forall|x: u64|
            #[trigger] after.readers(collection).contains(x) && after.writer(collection) is Some implies x
                == after.writer(collection)->0 by {
            if x != id {
                assert(self.readers(collection).contains(x));
            }
        }
        after.lemma_one_lock_changed(self, collection);
    }

    /// A change to one collection's lock that keeps it held by active
    /// transactions only, and its writer alone, keeps the invariant.
    proof fn lemma_one_lock_changed(self, before: Self, collection: Seq<char>)
        requires
            before.wf(),
            locks_ok(self.locks@),
            self.next_id == before.next_id,
            self.statuses@ == before.statuses@,
            forall|x: u64| #[trigger] self.readers(collection).contains(x) ==> self.is_active(x),
            self.writer(collection) is Some ==> self.is_active(self.writer(collection)->0),
            forall|x: u64|
                #[trigger] self.readers(collection).contains(x) && self.writer(collection) is Some ==> x
                    == self.writer(collection)->0,
            forall|c: Seq<char>|
                c != collection ==> #[trigger] self.readers(c) == before.readers(c) && self.writer(c) == before.writer(c),
        ensures
            self.wf(),
    {
        assert forall|c: Seq<char>, x: u64| #[trigger] self.readers(c).contains(x) implies self.is_active(x) by {
            if c != collection {
                assert(before.readers(c).contains(x));
            }
        }
        assert forall|c: Seq<char>| #[trigger] self.writer(c) is Some implies self.is_active(self.writer(c)->0) by {
            if c != collection {
                assert(self.readers(c) == before.readers(c));
                assert(before.writer(c) is Some);
            }
        }
        assert forall|c: Seq<char>, x: u64|
            #[trigger] self.readers(c).contains(x) && self.writer(c) is Some implies x == self.writer(c)->0 by {
            if c != collection {
                assert(before.readers(c).contains(x));
            }
        }
    }
}

/// The largest transaction id among records, or 0 when there are none.
pub open spec fn max_transaction(records: Seq<RecordView>) -> u64
    decreases records.len(),
{
    if records.len() == 0 {
        0
    } else {
        let rest = max_transaction(records.drop_last());
        if records.last().transaction_id > rest {
            records.last().transaction_id
        } else {
            rest
        }
    }
}

fn overflow_error() -> (e: NovaError)
    ensures
        e is InvalidState && error_detail(e) == overflow_detail(),
{
    let mut m = String::new();
    push_str(&mut m, "transaction id overflow");
    NovaError::InvalidState(m)
}

impl TransactionManager {
    /// A coordinator resuming after a log: ids start above every id the
    /// log records. Fails when that id space is exhausted.
    pub fn resume(records: &Vec<LogRecord>) -> (r: Result<Self>)
        ensures
            match r {
                Ok(m) => max_transaction(records@.map_values(|x: LogRecord| x@)) < u64::MAX && m.wf()
                    && m.next_id_view() == max_transaction(records@.map_values(|x: LogRecord| x@)) + 1
                    && m.statuses_view() == Map::<u64, TransactionStatus>::empty() && forall|c: Seq<char>|
                    #[trigger] m.readers(c) == Set::<u64>::empty() && m.writer(c) is None,
                Err(e) => max_transaction(records@.map_values(|x: LogRecord| x@)) == u64::MAX && e is InvalidState
                    && error_detail(e) == overflow_detail(),
            },
    {
        let ghost views = records@.map_values(|x: LogRecord| x@);
        let mut highest: u64 = 0;
        let mut i: usize = 0;
        while i < records.len()
            invariant
                i <= records@.len(),
                views == records@.map_values(|x: LogRecord| x@),
                highest == max_transaction(views.take(i as int)),
            decreases records@.len() - i,
        {
            proof {
                assert(views.take(i + 1).drop_last() =~= views.take(i as int));
            }
            if records[i].transaction_id > highest {
                highest = records[i].transaction_id;
            }
            i = i + 1;
        }
        proof {
            assert(views.take(i as int) =~= views);
        }
        if highest == u64::MAX {
            return Err(overflow_error());
        }
        Ok(TransactionManager::new(highest + 1))
    }

    /// Hands out the next transaction id. Fails, changing nothing, when
    /// the id space is exhausted.
    pub fn reserve_id(&mut self) -> (r: Result<u64>)
        requires
            old(self).wf(),
        ensures
            final(self).wf(),
            final(self).statuses_view() == old(self).statuses_view(),
            forall|c: Seq<char>|
                #[trigger] final(self).readers(c) == old(self).readers(c) && final(self).writer(c) == old(self).writer(c),
            r is Ok <==> old(self).next_id_view() < u64::MAX,
            r matches Ok(id) ==> id == old(self).next_id_view() && final(self).next_id_view() == id + 1,
            r matches Err(e) ==> e is InvalidState && error_detail(e) == overflow_detail() && final(self).next_id_view()
                == old(self).next_id_view(),
    {
        if self.next_id == u64::MAX {
            return Err(overflow_error());
        }
        let id = self.next_id;
        let ghost before = *self;
        self.next_id = id + 1;
        proof {
            assert forall|c: Seq<char>, x: u64| #[trigger] self.readers(c).contains(x) implies self.is_active(x) by {
                assert(before.readers(c).contains(x));
            }
            assert forall|c: Seq<char>| #[trigger] self.writer(c) is Some implies self.is_active(self.writer(c)->0) by {
                assert(self.readers(c) == before.readers(c));
                assert(before.writer(c) is Some);
            }
            assert forall|c: Seq<char>, x: u64|
                #[trigger] self.readers(c).contains(x) && self.writer(c) is Some implies x == self.writer(c)->0 by {
                assert(before.readers(c).contains(x));
            }
        }
        Ok(id)
    }

    /// Marks a handed-out id, not yet begun, as an active transaction.
    pub fn activate(&mut self, id: u64)
        requires
            old(self).wf(),
            id < old(self).next_id_view(),
            !old(self).statuses_view().contains_key(id),
        ensures
            final(self).wf(),
            final(self).next_id_view() == old(self).next_id_view(),
            final(self).statuses_view() == old(self).statuses_view().insert(id, TransactionStatus::Active),
            forall|c: Seq<char>|
                #[trigger] final(self).readers(c) == old(self).readers(c) && final(self).writer(c) == old(self).writer(c),
    {
        let ghost before = *self;
        self.statuses.insert(id, TransactionStatus::Active);
        proof {
            assert forall|c: Seq<char>, x: u64| #[trigger] self.readers(c).contains(x) implies self.is_active(x) by {
                assert(before.readers(c).contains(x));
            }
            assert forall|c: Seq<char>| #[trigger] self.writer(c) is Some implies self.is_active(self.writer(c)->0) by {
                assert(self.readers(c) == before.readers(c));
                assert(before.writer(c) is Some);
            }
            assert forall|c: Seq<char>, x: u64|
                #[trigger] self.readers(c).contains(x) && self.writer(c) is Some implies x == self.writer(c)->0 by {
                assert(before.readers(c).contains(x));
            }
        }
    }

    /// Begins a new active transaction with the next id. Fails, changing
    /// nothing, when the id space is exhausted.
    pub fn begin(&mut self) -> (r: Result<u64>)
        requires
            old(self).wf(),
        ensures
            final(self).wf(),
            forall|c: Seq<char>|
                #[trigger] final(self).readers(c) == old(self).readers(c) && final(self).writer(c) == old(self).writer(c),
            r is Ok <==> old(self).next_id_view() < u64::MAX,
            r matches Ok(id) ==> id == old(self).next_id_view() && final(self).next_id_view() == id + 1
                && !old(self).statuses_view().contains_key(id)
                && final(self).statuses_view() == old(self).statuses_view().insert(id, TransactionStatus::Active),
            r matches Err(e) ==> e is InvalidState && error_detail(e) == overflow_detail() && final(self).next_id_view()
                == old(self).next_id_view() && final(self).statuses_view() == old(self).statuses_view(),
    {
        let id = match self.reserve_id() {
            Ok(id) => id,
            Err(e) => {
                return Err(e);
            },
        };
        self.activate(id);
        Ok(id)
    }
}

/// Strict locking: while a transaction holds a collection's exclusive
/// lock, no other transaction holds any lock on it.
pub proof fn law_exclusive_lock_excludes_others(m: TransactionManager, collection: Seq<char>, other: u64)
    requires
        m.wf(),
        m.writer(collection) is Some,
        other != m.writer(collection)->0,
    ensures
        !m.readers(collection).contains(other),
{
}

/// Only active transactions hold locks: committing or rolling back
/// releases them all.
pub proof fn law_locks_belong_to_active_transactions(m: TransactionManager, collection: Seq<char>, id: u64)
    requires
        m.wf(),
        m.readers(collection).contains(id) || m.writer(collection) == Some(id),
    ensures
        m.is_active(id),
{
}

/// Every transaction begun has an id below the next one, so ids are never
/// handed out twice.
pub proof fn law_ids_are_fresh(m: TransactionManager, id: u64)
    requires
        m.wf(),
        m.statuses_view().contains_key(id),
    ensures
        id < m.next_id_view(),
{
}

} // verus!
