//! Stored operations and the store that holds them.

use vstd::prelude::*;
use crate::amount::{amount_of_text, parse_amount};
use crate::date::{date_of_text, parse_date};
use crate::fingerprint::{fingerprint, fingerprint_of, Fingerprint};
use crate::tag_list::{contains_all_tags, contains_tag, insert_tags};
use crate::text::normalized;

verus! {

/// Where an operation stands: newly imported, confirmed by the user, or
/// recognised as the repetition of another operation.
#[derive(Clone, Copy, Debug, PartialEq, Eq, Structural)]
pub enum Status {
    Pending,
    Confirmed,
    Duplicate,
}

/// A record as an import hands it over: the day and the amount are still
/// text, as the imported file wrote them.
pub struct RawRecord {
    pub account_id: u32,
    pub date: String,
    pub amount: String,
    pub label: String,
}

/// A record as contracts speak of it.
pub struct RecordView {
    pub account_id: u32,
    pub date: Seq<char>,
    pub amount: Seq<char>,
    pub label: Seq<char>,
}

impl View for RawRecord {
    type V = RecordView;

    open spec fn view(&self) -> RecordView {
        RecordView {
            account_id: self.account_id,
            date: self.date@,
            amount: self.amount@,
            label: self.label@,
        }
    }
}

/// The fingerprint of the movement that four stored fields describe, or
/// nothing where the day or the amount cannot be read.
pub open spec fn movement_fingerprint(
    account_id: u32,
    date: Seq<char>,
    amount: Seq<char>,
    label: Seq<char>,
) -> Option<Seq<u8>> {
    match (date_of_text(date), amount_of_text(amount)) {
        (Some(day), Some(units)) => Some(fingerprint_of(account_id, day, units, label)),
        _ => None,
    }
}

impl RecordView {
    pub open spec fn fingerprint(self) -> Option<Seq<u8>> {
        movement_fingerprint(self.account_id, self.date, self.amount, self.label)
    }
}

/// Two records of one movement have one fingerprint, however the files they
/// came from wrote the day, the amount and the label: it is enough that the
/// account is the same, that the two texts for the day denote the same day,
/// the two texts for the amount the same amount, and that the labels have
/// the same canonical form.
pub proof fn lemma_same_movement_same_fingerprint(a: RecordView, b: RecordView)
    requires
        a.account_id == b.account_id,
        date_of_text(a.date) == date_of_text(b.date),
        amount_of_text(a.amount) == amount_of_text(b.amount),
        normalized(a.label) == normalized(b.label),
    ensures
        a.fingerprint() == b.fingerprint(),
{
}

/// An operation as contracts speak of it. Its tags are a set.
pub struct OperationView {
    pub id: u32,
    pub account_id: u32,
    pub date: Seq<char>,
    pub amount: Seq<char>,
    pub label: Seq<char>,
    pub status: Status,
    pub tags: Set<u32>,
}

impl OperationView {
    /// The fingerprint of the operation. It is derived from the other
    /// fields and cannot be set.
    pub open spec fn fingerprint(self) -> Option<Seq<u8>> {
        movement_fingerprint(self.account_id, self.date, self.amount, self.label)
    }

    /// The operation with another status.
    pub open spec fn with_status(self, status: Status) -> OperationView {
        OperationView { status, ..self }
    }

    /// The operation with more tags.
    pub open spec fn with_more_tags(self, tags: Set<u32>) -> OperationView {
        OperationView { tags: self.tags.union(tags), ..self }
    }
}

/// A stored bank transaction.
pub struct Operation {
    id: u32,
    account_id: u32,
    date: String,
    amount: String,
    label: String,
    status: Status,
    tags: Vec<u32>,
}

impl View for Operation {
    type V = OperationView;

    closed spec fn view(&self) -> OperationView {
        OperationView {
            id: self.id,
            account_id: self.account_id,
            date: self.date@,
            amount: self.amount@,
            label: self.label@,
            status: self.status,
            tags: self.tags@.to_set(),
        }
    }
}

impl Operation {
    #[verifier::type_invariant]
    spec fn tags_are_a_set(self) -> bool {
        self.tags@.no_duplicates()
    }

    /// The tags in the order in which the operation received them.
    pub closed spec fn tag_list(self) -> Seq<u32> {
        self.tags@
    }

    /// An operation with the given identifier, fields, status and tags. A tag
    /// given twice is held once.
    pub fn new(id: u32, record: RawRecord, status: Status, tags: Vec<u32>) -> (op: Operation)
        ensures
            op@ == (OperationView {
                id,
                account_id: record@.account_id,
                date: record@.date,
                amount: record@.amount,
                label: record@.label,
                status,
                tags: tags@.to_set(),
            }),
    {
        let mut held: Vec<u32> = Vec::new();
        insert_tags(&mut held, &tags);
        assert(held@.to_set() =~= tags@.to_set());
        Operation {
            id,
            account_id: record.account_id,
            date: record.date,
            amount: record.amount,
            label: record.label,
            status,
            tags: held,
        }
    }

    pub fn id(&self) -> (id: u32)
        ensures
            id == self@.id,
    {
        self.id
    }

    pub fn account_id(&self) -> (id: u32)
        ensures
            id == self@.account_id,
    {
        self.account_id
    }

    pub fn date(&self) -> (text: &str)
        ensures
            text@ == self@.date,
    {
        self.date.as_str()
    }

    pub fn amount(&self) -> (text: &str)
        ensures
            text@ == self@.amount,
    {
        self.amount.as_str()
    }

    pub fn label(&self) -> (text: &str)
        ensures
            text@ == self@.label,
    {
        self.label.as_str()
    }

    pub fn status(&self) -> (status: Status)
        ensures
            status == self@.status,
    {
        self.status
    }

    /// The tags, each once, in the order in which they came.
    pub fn tags(&self) -> (tags: &Vec<u32>)
        ensures
            tags@ == self.tag_list(),
            tags@.no_duplicates(),
            tags@.to_set() == self@.tags,
    {
        proof {
            use_type_invariant(self);
        }
        &self.tags
    }

    pub fn has_tag(&self, tag: u32) -> (b: bool)
        ensures
            b == self@.tags.contains(tag),
    {
        contains_tag(&self.tags, tag)
    }

    /// Whether the operation has every one of the given tags.
    pub fn has_all_tags(&self, tags: &Vec<u32>) -> (b: bool)
        ensures
            b == tags@.to_set().subset_of(self@.tags),
    {
        contains_all_tags(&self.tags, tags)
    }

    /// Computes the fingerprint, or nothing where the day or the amount
    /// cannot be read.
    pub fn fingerprint(&self) -> (r: Option<Fingerprint>)
        ensures
            match r {
                Some(key) => self@.fingerprint() == Some(key@),
                None => self@.fingerprint() is None,
            },
    {
        let day = parse_date(self.date.as_str());
        let units = parse_amount(self.amount.as_str());
        match (day, units) {
            (Some(d), Some(u)) => Some(fingerprint(self.account_id, d, u, self.label.as_str())),
            _ => None,
        }
    }

    /// Gives the operation the status `Duplicate`.
    pub(crate) fn mark_duplicate(&mut self)
        ensures
            final(self)@ == old(self)@.with_status(Status::Duplicate),
            final(self).tag_list() == old(self).tag_list(),
    {
        proof {
            use_type_invariant(&*self);
        }
        self.status = Status::Duplicate;
    }

    /// Adds the tags that the operation lacks.
    pub(crate) fn add_tags(&mut self, extra: &Vec<u32>)
        ensures
            final(self)@ == old(self)@.with_more_tags(extra@.to_set()),
            old(self).tag_list().is_prefix_of(final(self).tag_list()),
            extra@.to_set().subset_of(old(self)@.tags) ==> final(self).tag_list() == old(
                self,
            ).tag_list(),
    {
        proof {
            use_type_invariant(&*self);
        }
        let mut tags: Vec<u32> = Vec::new();
        std::mem::swap(&mut self.tags, &mut tags);
        insert_tags(&mut tags, extra);
        self.tags = tags;
    }
}

/// The operations as contracts speak of them.
pub open spec fn views_of(operations: Seq<Operation>) -> Seq<OperationView> {
    operations.map_values(|op: Operation| op@)
}

/// The records as contracts speak of them.
pub open spec fn records_of(records: Seq<RawRecord>) -> Seq<RecordView> {
    records.map_values(|record: RawRecord| record@)
}

/// Whether the identifiers grow from each operation to the next.
pub open spec fn ids_ascend(operations: Seq<OperationView>) -> bool {
    forall|i: int, j: int|
        0 <= i < j < operations.len() ==> (#[trigger] operations[i]).id
            < (#[trigger] operations[j]).id
}

/// The greatest identifier in use, or zero for an empty store.
pub open spec fn last_id(operations: Seq<OperationView>) -> int {
    if operations.len() == 0 {
        0
    } else {
        operations.last().id as int
    }
}

/// The operations that a batch of records becomes: identifiers count up
/// from `base`, the status is `Pending`, and there are no tags.
pub open spec fn inserted(base: int, records: Seq<RecordView>) -> Seq<OperationView> {
    Seq::new(
        records.len(),
        |k: int|
            OperationView {
                id: (base + 1 + k) as u32,
                account_id: records[k].account_id,
                date: records[k].date,
                amount: records[k].amount,
                label: records[k].label,
                status: Status::Pending,
                tags: Set::empty(),
            },
    )
}

/// Why a store turned a request down.
#[derive(Clone, Copy, Debug, PartialEq, Eq, Structural)]
pub enum StoreError {
    /// The batch needs more identifiers than are left.
    IdentifiersExhausted,
}

/// The operations of the ledger, in the order of their identifiers.
pub struct TransactionStore {
    pub(crate) operations: Vec<Operation>,
}

impl View for TransactionStore {
    type V = Seq<OperationView>;

    open(crate) spec fn view(&self) -> Seq<OperationView> {
        views_of(self.operations@)
    }
}

impl TransactionStore {
    #[verifier::type_invariant]
    pub(crate) open(crate) spec fn in_order(self) -> bool {
        ids_ascend(views_of(self.operations@))
    }

    /// The operations in the order in which each received its tags.
    pub open(crate) spec fn tag_lists(self) -> Seq<Seq<u32>> {
        self.operations@.map_values(|op: Operation| op.tag_list())
    }

    /// An empty store: no operations, and so no tag lists.
    pub fn new() -> (store: TransactionStore)
        ensures
            store@ == Seq::<OperationView>::empty(),
            store.tag_lists() == Seq::<Seq<u32>>::empty(),
    {
        let store = TransactionStore { operations: Vec::new() };
        assert(store@ =~= Seq::<OperationView>::empty());
        assert(store.tag_lists() =~= Seq::<Seq<u32>>::empty());
        store
    }

    /// A store of the given operations, where their identifiers grow from
    /// each to the next; nothing otherwise.
    pub fn from_operations(operations: Vec<Operation>) -> (r: Option<TransactionStore>)
        ensures
            match r {
                Some(store) => store@ == views_of(operations@) && ids_ascend(store@),
                None => !ids_ascend(views_of(operations@)),
            },
    {
        let ghost views = views_of(operations@);
        let mut i: usize = 1;
        while i < operations.len()
            invariant
                1 <= i,
                views == views_of(operations@),
                forall|j: int| 0 < j < i && j < operations.len() ==> (#[trigger] views[j - 1]).id
                    < views[j].id,
            decreases operations.len() - i,
        {
            if operations[i - 1].id() >= operations[i].id() {
                assert(views[i - 1].id >= views[i as int].id);
                return None;
            }
            i += 1;
        }
        proof {
            lemma_neighbours_ascend(views);
        }
        Some(TransactionStore { operations })
    }

    /// The number of operations.
    pub fn len(&self) -> (n: usize)
        ensures
            n == self@.len(),
    {
        self.operations.len()
    }

    /// The operations, in the order of their identifiers.
    pub fn operations(&self) -> (operations: &Vec<Operation>)
        ensures
            views_of(operations@) == self@,
            operations@.map_values(|op: Operation| op.tag_list()) == self.tag_lists(),
            ids_ascend(self@),
    {
        proof {
            use_type_invariant(self);
        }
        &self.operations
    }

    /// Takes a batch of records into the store. Each becomes an operation
    /// with the next identifier, in the order of the batch. A batch that
    /// needs more identifiers than are left changes nothing.
    pub fn insert_all(&mut self, batch: Vec<RawRecord>) -> (r: Result<(), StoreError>)
        ensures
            match r {
                Ok(_) => {
                    &&& last_id(old(self)@) + batch.len() <= u32::MAX
                    &&& final(self)@ == old(self)@ + inserted(
                        last_id(old(self)@),
                        records_of(batch@),
                    )
                    &&& old(self).tag_lists().is_prefix_of(final(self).tag_lists())
                },
                Err(e) => {
                    &&& e == StoreError::IdentifiersExhausted
                    &&& last_id(old(self)@) + batch.len() > u32::MAX
                    &&& final(self)@ == old(self)@
                    &&& final(self).tag_lists() == old(self).tag_lists()
                },
            },
            ids_ascend(final(self)@),
    {
        proof {
            use_type_invariant(&*self);
        }
        let n = self.operations.len();
        let base: u32 = if n == 0 {
            0
        } else {
            self.operations[n - 1].id()
        };
        if (batch.len() as u128) + (base as u128) > (u32::MAX as u128) {
            return Err(StoreError::IdentifiersExhausted);
        }
        let ghost before = self@;
        let ghost lists = self.tag_lists();
        let ghost records = records_of(batch@);
        let mut operations: Vec<Operation> = Vec::new();
        std::mem::swap(&mut self.operations, &mut operations);
        let mut next: u32 = base;
        proof {
            assert(views_of(operations@) =~= before + inserted(base as int, records.take(0)));
            assert forall|j: int| 0 <= j < operations.len() implies (#[trigger] operations[j])@.id
                <= next by {
                assert(before[j] == operations[j]@);
                assert(before[n - 1].id == base);
            }
        }
        for record in it: batch
            invariant
                it.seq() == batch@,
                records == records_of(batch@),
                base + batch.len() <= u32::MAX,
                next == base + it.index(),
                views_of(operations@) == before + inserted(base as int, records.take(it.index())),
                ids_ascend(views_of(operations@)),
                forall|j: int| 0 <= j < operations.len() ==> (#[trigger] operations[j])@.id <= next,
                lists.len() <= operations.len(),
                forall|j: int| 0 <= j < lists.len() ==> (#[trigger] operations[j]).tag_list() == lists[j],
        {
            let ghost held = views_of(operations@);
            let ghost k = it.index();
            next = next + 1;
            let op = Operation::new(next, record, Status::Pending, Vec::new());
            proof {
                assert(Seq::<u32>::empty().to_set() =~= Set::<u32>::empty());
                assert(records[k] == record@);
            }
            operations.push(op);
            proof {
                let now = views_of(operations@);
                assert(now =~= held.push(op@));
                assert(records.take(k + 1) =~= records.take(k).push(records[k]));
                assert(now =~= before + inserted(base as int, records.take(k + 1)));
                assert forall|i: int, j: int| 0 <= i < j < now.len() implies (#[trigger] now[i]).id
                    < (#[trigger] now[j]).id by {
                    if j < held.len() {
                        assert(now[i] == held[i] && now[j] == held[j]);
                    } else {
                        assert(now[i] == operations[i]@);
                    }
                }
            }
        }
        proof {
            assert(records.take(batch@.len() as int) == records);
        }
        self.operations = operations;
        proof {
            let now = self.tag_lists();
            assert(now.subrange(0, lists.len() as int) =~= lists);
        }
        Ok(())
    }
}

/// Identifiers that grow from each operation to its neighbour grow from
/// each operation to every later one.
proof fn lemma_neighbours_ascend(views: Seq<OperationView>)
    requires
        forall|j: int| 0 < j < views.len() ==> (#[trigger] views[j - 1]).id < views[j].id,
    ensures
        ids_ascend(views),
    decreases views.len(),
{
    if views.len() > 1 {
        let init = views.drop_last();
        assert forall|j: int| 0 < j < init.len() implies (#[trigger] init[j - 1]).id
            < init[j].id by {
            assert(init[j - 1] == views[j - 1]);
            assert(init[j] == views[j]);
        }
        lemma_neighbours_ascend(init);
        assert forall|i: int, j: int| 0 <= i < j < views.len() implies (#[trigger] views[i]).id
            < (#[trigger] views[j]).id by {
            let last = views.len() - 1;
            assert(views[last - 1].id < views[last].id);
            if j < last {
                assert(init[i] == views[i] && init[j] == views[j]);
            } else if i < last - 1 {
                assert(init[i] == views[i] && init[last - 1] == views[last - 1]);
            }
        }
    }
}

} // verus!
