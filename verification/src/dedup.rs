//! Duplicate detection: operations with one fingerprint are one movement,
//! and all but the first of them are marked as duplicates.

use std::collections::HashMap;
use vstd::prelude::*;
use crate::diagnostics::Diagnostic;
use crate::fingerprint::{prefix_of, Fingerprint};
use crate::operations::{ids_ascend, views_of, Operation, OperationView, Status, TransactionStore};

verus! {

broadcast use vstd::std_specs::hash::group_hash_axioms;

/// Whether the operation at `i` repeats another: it has a fingerprint, and
/// an operation with a smaller identifier has the same.
pub open spec fn is_repeat(operations: Seq<OperationView>, i: int) -> bool {
    operations[i].fingerprint() is Some && exists|j: int|
        0 <= j < operations.len() && (#[trigger] operations[j]).id < operations[i].id
            && operations[j].fingerprint() == operations[i].fingerprint()
}

/// The store after duplicate detection: every repeat has the status
/// `Duplicate`, and nothing else has changed.
pub open spec fn refreshed(operations: Seq<OperationView>) -> Seq<OperationView> {
    Seq::new(
        operations.len(),
        |i: int|
            if is_repeat(operations, i) {
                operations[i].with_status(Status::Duplicate)
            } else {
                operations[i]
            },
    )
}

/// Whether duplicate detection changes the status of the operation at `i`.
pub open spec fn turns_duplicate(operations: Seq<OperationView>, i: int) -> bool {
    is_repeat(operations, i) && operations[i].status != Status::Duplicate
}

/// How many of the first `n` operations change their status.
pub open spec fn count_turning(operations: Seq<OperationView>, n: int) -> nat
    decreases n,
{
    if n <= 0 {
        0
    } else {
        count_turning(operations, n - 1) + if turns_duplicate(operations, n - 1) {
            1nat
        } else {
            0nat
        }
    }
}

/// How many operations duplicate detection gives the status `Duplicate`.
/// Those that have it already do not count.
pub open spec fn duplicates_refreshed(operations: Seq<OperationView>) -> nat {
    count_turning(operations, operations.len() as int)
}

/// The diagnostics for those of the first `n` operations that have no
/// fingerprint, in the order of the store.
pub open spec fn unreadable(operations: Seq<OperationView>, n: int) -> Seq<Diagnostic>
    decreases n,
{
    if n <= 0 {
        Seq::empty()
    } else if operations[n - 1].fingerprint() is None {
        unreadable(operations, n - 1).push(
            Diagnostic::UnreadableOperation { id: operations[n - 1].id },
        )
    } else {
        unreadable(operations, n - 1)
    }
}

/// The fingerprint of each operation.
pub open spec fn fingerprints(operations: Seq<OperationView>) -> Seq<Option<Seq<u8>>> {
    Seq::new(operations.len(), |i: int| operations[i].fingerprint())
}

/// In a store whose identifiers grow, a repeat is an operation whose
/// fingerprint stands earlier in the store.
proof fn lemma_repeat_by_position(operations: Seq<OperationView>, i: int)
    requires
        ids_ascend(operations),
        0 <= i < operations.len(),
    ensures
        is_repeat(operations, i) <==> operations[i].fingerprint() is Some && seen_before(
            fingerprints(operations),
            i,
            operations[i].fingerprint()->0,
        ),
{
    let prints = fingerprints(operations);
    let key = operations[i].fingerprint();
    if is_repeat(operations, i) {
        let j = choose|j: int|
            0 <= j < operations.len() && (#[trigger] operations[j]).id < operations[i].id
                && operations[j].fingerprint() == key;
        if j > i {
            assert(operations[i].id < operations[j].id);
        }
        assert(prints[j] == Some(key->0));
    }
    if key is Some && seen_before(prints, i, key->0) {
        let j = choose|j: int| 0 <= j < i && #[trigger] prints[j] == Some(key->0);
        assert(operations[j].id < operations[i].id);
    }
}

/// Duplicate detection leaves identifiers and fingerprints as they are.
proof fn lemma_refreshed_keeps_fields(operations: Seq<OperationView>)
    ensures
        refreshed(operations).len() == operations.len(),
        forall|i: int|
            0 <= i < operations.len() ==> {
                &&& (#[trigger] refreshed(operations)[i]).id == operations[i].id
                &&& refreshed(operations)[i].fingerprint() == operations[i].fingerprint()
                &&& refreshed(operations)[i].tags == operations[i].tags
            },
        ids_ascend(operations) ==> ids_ascend(refreshed(operations)),
{
}

/// Running duplicate detection a second time finds nothing to do: no
/// status changes, and the count is zero.
pub proof fn lemma_refresh_idempotent(operations: Seq<OperationView>)
    ensures
        refreshed(refreshed(operations)) == refreshed(operations),
        duplicates_refreshed(refreshed(operations)) == 0,
{
    let once = refreshed(operations);
    lemma_refreshed_keeps_fields(operations);
    assert forall|i: int| 0 <= i < operations.len() implies is_repeat(once, i) == is_repeat(
        operations,
        i,
    ) by {
        if is_repeat(operations, i) {
            let j = choose|j: int|
                0 <= j < operations.len() && (#[trigger] operations[j]).id < operations[i].id
                    && operations[j].fingerprint() == operations[i].fingerprint();
            assert(once[j].id < once[i].id);
        }
        if is_repeat(once, i) {
            let j = choose|j: int|
                0 <= j < once.len() && (#[trigger] once[j]).id < once[i].id && once[j].fingerprint()
                    == once[i].fingerprint();
            assert(operations[j].id < operations[i].id);
        }
    }
    assert(refreshed(once) =~= once);
    lemma_none_turning(once, once.len() as int);
}

proof fn lemma_none_turning(operations: Seq<OperationView>, n: int)
    requires
        n <= operations.len(),
        forall|i: int| 0 <= i < operations.len() ==> !turns_duplicate(operations, i),
    ensures
        count_turning(operations, n) == 0,
    decreases n,
{
    if n > 0 {
        lemma_none_turning(operations, n - 1);
    }
}

/// After duplicate detection, of two operations with one fingerprint the
/// one with the greater identifier is a duplicate.
pub proof fn lemma_later_member_is_duplicate(operations: Seq<OperationView>, i: int, j: int)
    requires
        0 <= i < operations.len(),
        0 <= j < operations.len(),
        operations[i].fingerprint() is Some,
        operations[i].fingerprint() == operations[j].fingerprint(),
        operations[j].id < operations[i].id,
    ensures
        refreshed(operations)[i].status == Status::Duplicate,
{
}

/// The operation with the least identifier among those with its
/// fingerprint is left as it was, whatever its status.
pub proof fn lemma_canonical_member_is_kept(operations: Seq<OperationView>, i: int)
    requires
        0 <= i < operations.len(),
        forall|j: int|
            0 <= j < operations.len() && (#[trigger] operations[j]).fingerprint()
                == operations[i].fingerprint() ==> operations[i].id <= operations[j].id,
    ensures
        refreshed(operations)[i] == operations[i],
{
}

/// Whether `key` is the fingerprint of one of the first `i` operations.
pub open spec fn seen_before(prints: Seq<Option<Seq<u8>>>, i: int, key: Seq<u8>) -> bool {
    exists|j: int| 0 <= j < i && #[trigger] prints[j] == Some(key)
}

spec fn key_views(keys: Seq<Option<Fingerprint>>) -> Seq<Option<Seq<u8>>> {
    Seq::new(
        keys.len(),
        |i: int|
            match keys[i] {
                Some(key) => Some(key@),
                None => None,
            },
    )
}

spec fn bucket_has(bucket: Seq<usize>, prints: Seq<Option<Seq<u8>>>, key: Seq<u8>) -> bool {
    exists|t: int|
        0 <= t < bucket.len() && (#[trigger] bucket[t]) < prints.len() && prints[bucket[t] as int]
            == Some(key)
}

/// The places of the fingerprints seen so far, found by the first bytes of
/// a fingerprint.
struct KeyIndex {
    buckets: HashMap<u64, Vec<usize>>,
}

impl KeyIndex {
    /// The index holds places among the first `i` only, each under the
    /// first bytes of its fingerprint, and for each fingerprint among the
    /// first `i` one place that has it.
    spec fn covers(&self, prints: Seq<Option<Seq<u8>>>, i: int) -> bool {
        &&& forall|p: u64, t: int|
            self.buckets@.contains_key(p) && 0 <= t < self.buckets@[p]@.len() ==> {
                let at = #[trigger] self.buckets@[p]@[t];
                at < i && at < prints.len() && prints[at as int] is Some && prefix_of(
                    prints[at as int]->0,
                ) == p
            }
        &&& forall|j: int|
            0 <= j < i && (#[trigger] prints[j]) is Some ==> self.buckets@.contains_key(
                prefix_of(prints[j]->0),
            ) && bucket_has(self.buckets@[prefix_of(prints[j]->0)]@, prints, prints[j]->0)
    }

    fn new(Ghost(prints): Ghost<Seq<Option<Seq<u8>>>>) -> (index: KeyIndex)
        ensures
            index.covers(prints, 0),
    {
        KeyIndex { buckets: HashMap::new() }
    }

    /// Whether `key` was seen among the first `i` fingerprints.
    fn knows(&self, keys: &Vec<Option<Fingerprint>>, Ghost(i): Ghost<int>, key: &Fingerprint) -> (b:
        bool)
        requires
            self.covers(key_views(keys@), i),
            0 <= i <= keys.len(),
        ensures
            b == seen_before(key_views(keys@), i, key@),
    {
        let ghost prints = key_views(keys@);
        let p = key.prefix();
        match self.buckets.get(&p) {
            None => {
                assert(!seen_before(prints, i, key@)) by {
                    if seen_before(prints, i, key@) {
                        let j = choose|j: int| 0 <= j < i && #[trigger] prints[j] == Some(key@);
                        assert(self.buckets@.contains_key(prefix_of(prints[j]->0)));
                    }
                }
                false
            },
            Some(bucket) => {
                assert(self.buckets@.contains_key(p) && self.buckets@[p] == *bucket);
                let mut t: usize = 0;
                while t < bucket.len()
                    invariant
                        t <= bucket.len(),
                        prints == key_views(keys@),
                        0 <= i <= keys.len(),
                        self.covers(prints, i),
                        self.buckets@.contains_key(p),
                        self.buckets@[p] == *bucket,
                        forall|u: int|
                            0 <= u < t ==> (#[trigger] bucket[u]) < prints.len()
                                && prints[bucket[u] as int] != Some(key@),
                    decreases bucket.len() - t,
                {
                    let at = bucket[t];
                    assert(at == self.buckets@[p]@[t as int]);
                    assert(at < i);
                    match &keys[at] {
                        Some(other) => {
                            if other == key {
                                assert(prints[at as int] == Some(key@));
                                return true;
                            }
                        },
                        None => {},
                    }
                    t += 1;
                }
                assert(!seen_before(prints, i, key@)) by {
                    if seen_before(prints, i, key@) {
                        let j = choose|j: int| 0 <= j < i && #[trigger] prints[j] == Some(key@);
                        assert(bucket_has(bucket@, prints, prints[j]->0));
                    }
                }
                false
            },
        }
    }

    /// Takes the fingerprint at `i` into the index.
    fn learn(&mut self, keys: &Vec<Option<Fingerprint>>, i: usize)
        requires
            old(self).covers(key_views(keys@), i as int),
            i < keys.len(),
            keys[i as int] is Some,
        ensures
            final(self).covers(key_views(keys@), i + 1),
    {
        let ghost prints = key_views(keys@);
        let key = keys[i].unwrap();
        let p = key.prefix();
        assert(prints[i as int] == Some(key@));
        let mut bucket: Vec<usize> = match self.buckets.remove(&p) {
            Some(found) => found,
            None => Vec::new(),
        };
        let ghost earlier = bucket@;
        bucket.push(i);
        let ghost later = bucket@;
        self.buckets.insert(p, bucket);
        proof {
            let was = old(self).buckets@;
            let now = self.buckets@;
            assert(now == was.remove(p).insert(p, bucket));
            assert(was.contains_key(p) ==> was[p]@ == earlier);
            assert forall|q: u64, t: int| now.contains_key(q) && 0 <= t < now[q]@.len() implies {
                let at = #[trigger] now[q]@[t];
                at < i + 1 && at < prints.len() && prints[at as int] is Some && prefix_of(
                    prints[at as int]->0,
                ) == q
            } by {
                if q == p {
                    if t < earlier.len() {
                        assert(later[t] == earlier[t]);
                        assert(was[p]@[t] == earlier[t]);
                    }
                } else {
                    assert(was.contains_key(q) && was[q] == now[q]);
                    assert(was[q]@[t] == now[q]@[t]);
                }
            }
            assert forall|j: int| 0 <= j < i + 1 && (#[trigger] prints[j]) is Some implies now.contains_key(
                prefix_of(prints[j]->0),
            ) && bucket_has(now[prefix_of(prints[j]->0)]@, prints, prints[j]->0) by {
                let q = prefix_of(prints[j]->0);
                if j == i {
                    assert(later[earlier.len() as int] == i);
                    assert(bucket_has(later, prints, prints[j]->0));
                } else if q == p {
                    assert(bucket_has(earlier, prints, prints[j]->0));
                    let t = choose|t: int|
                        0 <= t < earlier.len() && (#[trigger] earlier[t]) < prints.len()
                            && prints[earlier[t] as int] == Some(prints[j]->0);
                    assert(later[t] == earlier[t]);
                    assert(bucket_has(later, prints, prints[j]->0));
                } else {
                    assert(was[q] == now[q]);
                }
            }
        }
    }

    /// An index that covers the first `i` fingerprints covers one more where
    /// that one is missing or was seen before.
    proof fn lemma_covers_next(&self, prints: Seq<Option<Seq<u8>>>, i: int)
        requires
            self.covers(prints, i),
            0 <= i < prints.len(),
            prints[i] is None || seen_before(prints, i, prints[i]->0),
        ensures
            self.covers(prints, i + 1),
    {
        assert forall|j: int| 0 <= j < i + 1 && (#[trigger] prints[j]) is Some implies self.buckets@.contains_key(
            prefix_of(prints[j]->0),
        ) && bucket_has(self.buckets@[prefix_of(prints[j]->0)]@, prints, prints[j]->0) by {
            if j == i {
                let k = choose|k: int| 0 <= k < i && #[trigger] prints[k] == Some(prints[i]->0);
                assert(prints[k] is Some);
            }
        }
    }
}

/// Computes the fingerprint of each operation and puts a diagnostic on
/// record for each that has none.
fn read_keys(operations: &Vec<Operation>, log: &mut Vec<Diagnostic>) -> (keys: Vec<
    Option<Fingerprint>,
>)
    ensures
        keys.len() == operations.len(),
        key_views(keys@) == fingerprints(views_of(operations@)),
        final(log)@ == old(log)@ + unreadable(views_of(operations@), operations.len() as int),
{
    let ghost views = views_of(operations@);
    let mut keys: Vec<Option<Fingerprint>> = Vec::new();
    let mut i: usize = 0;
    proof {
        assert(log@ =~= old(log)@ + unreadable(views, 0));
    }
    while i < operations.len()
        invariant
            i <= operations.len(),
            views == views_of(operations@),
            keys.len() == i,
            forall|j: int| 0 <= j < i ==> #[trigger] key_views(keys@)[j] == views[j].fingerprint(),
            log@ == old(log)@ + unreadable(views, i as int),
        decreases operations.len() - i,
    {
        let ghost read = key_views(keys@);
        let key = operations[i].fingerprint();
        assert(views[i as int] == operations[i as int]@);
        if key.is_none() {
            log.push(Diagnostic::UnreadableOperation { id: operations[i].id() });
        }
        keys.push(key);
        i += 1;
        proof {
            assert(log@ =~= old(log)@ + unreadable(views, i as int));
            assert forall|j: int| 0 <= j < i implies #[trigger] key_views(keys@)[j]
                == views[j].fingerprint() by {
                if j < i - 1 {
                    assert(key_views(keys@)[j] == read[j]);
                }
            }
        }
    }
    assert(key_views(keys@) =~= fingerprints(views));
    keys
}

/// Detects duplicates. Operations are grouped by fingerprint; in each
/// group the one with the least identifier is left alone and every other
/// gets the status `Duplicate`. An operation whose day or amount cannot be
/// read belongs to no group, and a diagnostic for it is put on record.
/// Returns how many operations changed their status.
pub fn refresh_statuses_with_hashes(store: &mut TransactionStore, log: &mut Vec<Diagnostic>) -> (n:
    usize)
    ensures
        final(store)@ == refreshed(old(store)@),
        n == duplicates_refreshed(old(store)@),
        final(log)@ == old(log)@ + unreadable(old(store)@, old(store)@.len() as int),
        final(store).tag_lists() == old(store).tag_lists(),
{
    proof {
        use_type_invariant(&*store);
    }
    let ghost before = store@;
    let ghost lists = store.tag_lists();
    let mut operations: Vec<Operation> = Vec::new();
    std::mem::swap(&mut store.operations, &mut operations);
    let keys = read_keys(&operations, log);
    let ghost prints = key_views(keys@);
    let mut index = KeyIndex::new(Ghost(prints));
    let total = operations.len();
    let mut count: usize = 0;
    let mut i: usize = 0;
    while i < total
        invariant
            i <= total,
            total == operations.len(),
            total == keys.len(),
            total == before.len(),
            total == lists.len(),
            prints == key_views(keys@),
            prints == fingerprints(before),
            ids_ascend(before),
            index.covers(prints, i as int),
            count == count_turning(before, i as int),
            count <= i,
            forall|j: int| 0 <= j < i ==> (#[trigger] operations[j])@ == refreshed(before)[j],
            forall|j: int| i <= j < total ==> (#[trigger] operations[j])@ == before[j],
            forall|j: int| 0 <= j < total ==> (#[trigger] operations[j]).tag_list() == lists[j],
        decreases total - i,
    {
        proof {
            lemma_repeat_by_position(before, i as int);
            assert(prints[i as int] == before[i as int].fingerprint());
        }
        match keys[i] {
            Some(key) => {
                if index.knows(&keys, Ghost(i as int), &key) {
                    if operations[i].status() != Status::Duplicate {
                        operations[i].mark_duplicate();
                        count += 1;
                    }
                    proof {
                        index.lemma_covers_next(prints, i as int);
                    }
                } else {
                    index.learn(&keys, i);
                }
            },
            None => {
                proof {
                    index.lemma_covers_next(prints, i as int);
                }
            },
        }
        i += 1;
    }
    proof {
        lemma_refreshed_keeps_fields(before);
        assert(views_of(operations@) =~= refreshed(before));
    }
    store.operations = operations;
    assert(store.tag_lists() =~= lists);
    count
}

} // verus!
