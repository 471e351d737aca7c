//! The maintenance pass: tagging first, then duplicate detection.

use vstd::prelude::*;
use crate::dedup::{
    count_turning, duplicates_refreshed, is_repeat, lemma_refresh_idempotent, refresh_statuses_with_hashes,
    refreshed, unreadable,
};
use crate::diagnostics::Diagnostic;
use crate::operations::{OperationView, TransactionStore};
use crate::tag_rules::{RuleSet, TagRuleView};
use crate::tagging::{
    additions_to, apply_rules, capped, invalid_patterns, is_candidate, lemma_duplicates_gain_nothing,
    lemma_tagged_operation_is_settled, rules_applied, sum_additions, tagged, tagged_operation,
};

verus! {

/// Counts reported by one maintenance pass.
#[derive(Clone, Copy, Debug, PartialEq, Eq, Structural)]
pub struct SyncResult {
    pub rules_applied: usize,
    pub duplicates_refreshed: usize,
}

impl SyncResult {
    pub fn new(rules_applied: usize, duplicates_refreshed: usize) -> (result: Self)
        ensures
            result.rules_applied == rules_applied,
            result.duplicates_refreshed == duplicates_refreshed,
    {
        SyncResult { rules_applied, duplicates_refreshed }
    }
}

/// The store after a maintenance pass: tagged, then searched for
/// duplicates.
pub open spec fn synced(operations: Seq<OperationView>, rules: Seq<TagRuleView>) -> Seq<
    OperationView,
> {
    refreshed(tagged(operations, rules))
}

/// Tags play no part in duplicate detection: after tagging, the same
/// operations are repeats, the same change their status and the same are
/// unreadable.
pub proof fn lemma_dedup_ignores_tags(operations: Seq<OperationView>, rules: Seq<TagRuleView>)
    ensures
        forall|i: int|
            0 <= i < operations.len() ==> #[trigger] is_repeat(tagged(operations, rules), i)
                == is_repeat(operations, i),
        duplicates_refreshed(tagged(operations, rules)) == duplicates_refreshed(operations),
        unreadable(tagged(operations, rules), operations.len() as int) == unreadable(
            operations,
            operations.len() as int,
        ),
{
    let after = tagged(operations, rules);
    assert forall|i: int| 0 <= i < operations.len() implies #[trigger] is_repeat(after, i)
        == is_repeat(operations, i) by {
        if is_repeat(operations, i) {
            let j = choose|j: int|
                0 <= j < operations.len() && (#[trigger] operations[j]).id < operations[i].id
                    && operations[j].fingerprint() == operations[i].fingerprint();
            assert(after[j].id < after[i].id);
        }
        if is_repeat(after, i) {
            let j = choose|j: int|
                0 <= j < after.len() && (#[trigger] after[j]).id < after[i].id
                    && after[j].fingerprint() == after[i].fingerprint();
            assert(operations[j].id < operations[i].id);
        }
    }
    lemma_same_counts(operations, after, operations.len() as int);
}

proof fn lemma_same_counts(a: Seq<OperationView>, b: Seq<OperationView>, n: int)
    requires
        a.len() == b.len(),
        n <= a.len(),
        forall|i: int|
            #![trigger a[i]]
            #![trigger is_repeat(b, i)]
            0 <= i < a.len() ==> {
                &&& is_repeat(b, i) == is_repeat(a, i)
                &&& b[i].status == a[i].status
                &&& b[i].id == a[i].id
                &&& b[i].fingerprint() == a[i].fingerprint()
            },
    ensures
        count_turning(b, n) == count_turning(a, n),
        unreadable(b, n) == unreadable(a, n),
    decreases n,
{
    if n > 0 {
        lemma_same_counts(a, b, n - 1);
        assert(is_repeat(b, n - 1) == is_repeat(a, n - 1) && b[n - 1].id == a[n - 1].id);
    }
}

/// Runs the maintenance pass: the rules are applied first, so that they see
/// the statuses from before the pass, and duplicates are detected after.
/// Both counts are returned, zero for a part that had nothing to do. Faults
/// in single records and rules are put on record in `log`, those of the
/// rules first, and stop nothing. The store is held in memory, so the pass
/// itself cannot fail; reading and writing the store is the caller's part.
pub fn sync(store: &mut TransactionStore, rules: &RuleSet, log: &mut Vec<Diagnostic>) -> (result:
    SyncResult)
    ensures
        final(store)@ == synced(old(store)@, rules@),
        result.rules_applied == capped(rules_applied(old(store)@, rules@)),
        result.duplicates_refreshed == duplicates_refreshed(old(store)@),
        final(log)@ == old(log)@ + invalid_patterns(rules@, rules@.len() as int) + unreadable(
            old(store)@,
            old(store)@.len() as int,
        ),
        forall|i: int|
            0 <= i < old(store)@.len() && additions_to(old(store)@[i], rules@) == 0
                ==> #[trigger] final(store).tag_lists()[i] == old(store).tag_lists()[i],
{
    let rules_applied = apply_rules(store, rules, log);
    let duplicates = refresh_statuses_with_hashes(store, log);
    proof {
        lemma_dedup_ignores_tags(old(store)@, rules@);
    }
    SyncResult::new(rules_applied, duplicates)
}

/// Running the maintenance pass again on unchanged data changes nothing,
/// and both counts are zero.
pub proof fn lemma_sync_idempotent(operations: Seq<OperationView>, rules: Seq<TagRuleView>)
    ensures
        synced(synced(operations, rules), rules) == synced(operations, rules),
        rules_applied(synced(operations, rules), rules) == 0,
        duplicates_refreshed(synced(operations, rules)) == 0,
{
    let once = tagged(operations, rules);
    let done = synced(operations, rules);
    assert forall|i: int| 0 <= i < done.len() implies tagged_operation(#[trigger] done[i], rules)
        == done[i] && additions_to(done[i], rules) == 0 by {
        if is_candidate(done[i]) {
            assert(done[i] == once[i]);
            lemma_tagged_operation_is_settled(operations[i], rules);
        } else {
            lemma_duplicates_gain_nothing(done[i], rules);
        }
    }
    assert(tagged(done, rules) =~= done);
    lemma_zero_sum(done, rules, done.len() as int);
    lemma_refresh_idempotent(once);
}

proof fn lemma_zero_sum(operations: Seq<OperationView>, rules: Seq<TagRuleView>, n: int)
    requires
        n <= operations.len(),
        forall|i: int| 0 <= i < operations.len() ==> additions_to(#[trigger] operations[i], rules) == 0,
    ensures
        sum_additions(operations, rules, n) == 0,
    decreases n,
{
    if n > 0 {
        lemma_zero_sum(operations, rules, n - 1);
    }
}

} // verus!
