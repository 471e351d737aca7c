//! The tag rule engine: every rule that matches an operation gives it its
//! tags.

use vstd::prelude::*;
use crate::diagnostics::Diagnostic;
use crate::operations::{ids_ascend, views_of, Operation, OperationView, Status, TransactionStore};
use crate::tag_list::insert_tags;
use crate::tag_rules::{rule_views, Matcher, RuleSet, TagRule, TagRuleView};
use crate::text::{fold_case, folded_chars};

verus! {

/// Whether rule `k` is marked as a match in `hits`. A rule without a mark
/// is no match.
pub open spec fn hit(hits: Seq<bool>, k: int) -> bool {
    0 <= k < hits.len() && hits[k]
}

/// The tags of the rules that are marked as matches.
pub open spec fn gained_by(rules: Seq<TagRuleView>, hits: Seq<bool>) -> Set<u32> {
    Set::new(
        |t: u32|
            exists|k: int|
                0 <= k < rules.len() && hit(hits, k) && (#[trigger] rules[k]).tags.contains(t),
    )
}

/// Whether rule `k` is a match that brings a tag that `tags` lacks.
pub open spec fn adds(rules: Seq<TagRuleView>, hits: Seq<bool>, tags: Set<u32>, k: int) -> bool {
    hit(hits, k) && !rules[k].tags.subset_of(tags)
}

/// How many of the first `n` rules are matches that bring a tag that `tags`
/// lacks.
pub open spec fn count_adds(rules: Seq<TagRuleView>, hits: Seq<bool>, tags: Set<u32>, n: int) -> nat
    decreases n,
{
    if n <= 0 {
        0
    } else {
        count_adds(rules, hits, tags, n - 1) + if adds(rules, hits, tags, n - 1) {
            1nat
        } else {
            0nat
        }
    }
}

/// Whether a pass looks at the operation: duplicates are left out.
pub open spec fn is_candidate(op: OperationView) -> bool {
    op.status != Status::Duplicate
}

/// For each rule, whether it applies to the operation: the operation is a
/// candidate and the rule matches its label.
pub open spec fn hits_of(rules: Seq<TagRuleView>, op: OperationView) -> Seq<bool> {
    Seq::new(rules.len(), |k: int| is_candidate(op) && rules[k].matches(op.label))
}

/// The operation after a pass: it has its tags and those of every rule that
/// applies to it.
pub open spec fn tagged_operation(op: OperationView, rules: Seq<TagRuleView>) -> OperationView {
    op.with_more_tags(gained_by(rules, hits_of(rules, op)))
}

/// The store after a pass.
pub open spec fn tagged(operations: Seq<OperationView>, rules: Seq<TagRuleView>) -> Seq<
    OperationView,
> {
    Seq::new(operations.len(), |i: int| tagged_operation(operations[i], rules))
}

/// How many rules give the operation a tag that it did not have before the
/// pass.
pub open spec fn additions_to(op: OperationView, rules: Seq<TagRuleView>) -> nat {
    count_adds(rules, hits_of(rules, op), op.tags, rules.len() as int)
}

/// The additions to the first `n` operations together.
pub open spec fn sum_additions(
    operations: Seq<OperationView>,
    rules: Seq<TagRuleView>,
    n: int,
) -> nat
    decreases n,
{
    if n <= 0 {
        0
    } else {
        sum_additions(operations, rules, n - 1) + additions_to(operations[n - 1], rules)
    }
}

/// The number of pairs of an operation and a rule such that the rule applies
/// to the operation and brings a tag that the operation did not have before
/// the pass.
pub open spec fn rules_applied(operations: Seq<OperationView>, rules: Seq<TagRuleView>) -> nat {
    sum_additions(operations, rules, operations.len() as int)
}

/// A count as a machine number: itself, or the greatest number where it is
/// beyond that.
pub open spec fn capped(count: nat) -> usize {
    if count <= usize::MAX {
        count as usize
    } else {
        usize::MAX
    }
}

/// The diagnostics for the broken rules among the first `n`, in the order
/// of the rules.
pub open spec fn invalid_patterns(rules: Seq<TagRuleView>, n: int) -> Seq<Diagnostic>
    decreases n,
{
    if n <= 0 {
        Seq::empty()
    } else if rules[n - 1].is_broken() {
        invalid_patterns(rules, n - 1).push(Diagnostic::InvalidPattern { rule_id: rules[n - 1].id })
    } else {
        invalid_patterns(rules, n - 1)
    }
}

/// The tags of the first `n` rules that are matches and bring a tag that
/// `tags` lacks.
spec fn adding_set(rules: Seq<TagRuleView>, hits: Seq<bool>, tags: Set<u32>, n: int) -> Set<u32> {
    Set::new(
        |t: u32|
            exists|k: int|
                0 <= k < n && adds(rules, hits, tags, k) && (#[trigger] rules[k]).tags.contains(t),
    )
}

proof fn lemma_adding_set_step(rules: Seq<TagRuleView>, hits: Seq<bool>, tags: Set<u32>, n: int)
    requires
        0 <= n < rules.len(),
    ensures
        adding_set(rules, hits, tags, n + 1) == if adds(rules, hits, tags, n) {
            adding_set(rules, hits, tags, n).union(rules[n].tags)
        } else {
            adding_set(rules, hits, tags, n)
        },
{
    let more = adding_set(rules, hits, tags, n + 1);
    let less = adding_set(rules, hits, tags, n);
    assert forall|t: u32| more.contains(t) <==> less.contains(t) || (adds(rules, hits, tags, n)
        && rules[n].tags.contains(t)) by {
        if more.contains(t) {
            let k = choose|k: int|
                0 <= k < n + 1 && adds(rules, hits, tags, k) && (#[trigger] rules[k]).tags.contains(
                    t,
                );
            if k < n {
                assert(less.contains(t));
            }
        }
        if less.contains(t) {
            let k = choose|k: int|
                0 <= k < n && adds(rules, hits, tags, k) && (#[trigger] rules[k]).tags.contains(t);
            assert(more.contains(t));
        }
        if adds(rules, hits, tags, n) && rules[n].tags.contains(t) {
            assert(more.contains(t));
        }
    }
    if adds(rules, hits, tags, n) {
        assert(more =~= less.union(rules[n].tags));
    } else {
        assert(more =~= less);
    }
}

/// With the tags that were there, the tags of the rules that bring
/// something new are the tags of all rules that match.
proof fn lemma_adding_set_is_gain(rules: Seq<TagRuleView>, hits: Seq<bool>, tags: Set<u32>)
    ensures
        tags.union(adding_set(rules, hits, tags, rules.len() as int)) == tags.union(
            gained_by(rules, hits),
        ),
{
    let adding = adding_set(rules, hits, tags, rules.len() as int);
    let gained = gained_by(rules, hits);
    assert forall|t: u32| tags.union(adding).contains(t) <==> tags.union(gained).contains(t) by {
        if adding.contains(t) {
            let k = choose|k: int|
                0 <= k < rules.len() && adds(rules, hits, tags, k) && (
                #[trigger] rules[k]).tags.contains(t);
            assert(gained.contains(t));
        }
        if gained.contains(t) && !tags.contains(t) {
            let k = choose|k: int|
                0 <= k < rules.len() && hit(hits, k) && (#[trigger] rules[k]).tags.contains(t);
            assert(adds(rules, hits, tags, k));
            assert(adding.contains(t));
        }
    }
    assert(tags.union(adding) =~= tags.union(gained));
}

/// Gives an operation the tags of the rules that are marked as matches:
/// `hits` says for each rule whether it matched. Returns how many rules
/// brought a tag that the operation did not have before.
pub fn tag_by_hits(op: &mut Operation, rules: &Vec<TagRule>, hits: &Vec<bool>) -> (n: usize)
    ensures
        final(op)@ == old(op)@.with_more_tags(gained_by(rule_views(rules@), hits@)),
        n == count_adds(rule_views(rules@), hits@, old(op)@.tags, rules.len() as int),
        old(op).tag_list().is_prefix_of(final(op).tag_list()),
        n == 0 ==> final(op).tag_list() == old(op).tag_list(),
{
    let ghost views = rule_views(rules@);
    let ghost tags = op@.tags;
    let mut gained: Vec<u32> = Vec::new();
    let mut n: usize = 0;
    let mut k: usize = 0;
    proof {
        assert(gained@.to_set() =~= adding_set(views, hits@, tags, 0));
    }
    while k < rules.len()
        invariant
            k <= rules.len(),
            n <= k,
            views == rule_views(rules@),
            tags == op@.tags,
            *op == *old(op),
            n == count_adds(views, hits@, tags, k as int),
            gained@.to_set() == adding_set(views, hits@, tags, k as int),
            n == 0 ==> gained@.len() == 0,
        decreases rules.len() - k,
    {
        proof {
            lemma_adding_set_step(views, hits@, tags, k as int);
            assert(views[k as int] == rules[k as int]@);
        }
        if k < hits.len() && hits[k] {
            if !op.has_all_tags(&rules[k].tags_ids) {
                insert_tags(&mut gained, &rules[k].tags_ids);
                n += 1;
            }
        }
        k += 1;
    }
    proof {
        if n == 0 {
            assert(gained@.to_set() =~= Set::<u32>::empty());
        }
    }
    op.add_tags(&gained);
    proof {
        lemma_adding_set_is_gain(views, hits@, tags);
    }
    n
}

/// Makes every rule ready for matching and puts a diagnostic on record for
/// each rule whose pattern does not compile, once, in the order of the
/// rules.
pub fn compile_rules(rules: &Vec<TagRule>, log: &mut Vec<Diagnostic>) -> (matchers: Vec<Matcher>)
    ensures
        matchers.len() == rules.len(),
        forall|k: int|
            0 <= k < rules.len() ==> (#[trigger] matchers[k]).stands_for(rule_views(rules@)[k]),
        final(log)@ == old(log)@ + invalid_patterns(rule_views(rules@), rules.len() as int),
{
    let ghost views = rule_views(rules@);
    let mut matchers: Vec<Matcher> = Vec::new();
    let mut k: usize = 0;
    proof {
        assert(log@ =~= old(log)@ + invalid_patterns(views, 0));
    }
    while k < rules.len()
        invariant
            k <= rules.len(),
            views == rule_views(rules@),
            matchers.len() == k,
            forall|j: int| 0 <= j < k ==> (#[trigger] matchers[j]).stands_for(views[j]),
            log@ == old(log)@ + invalid_patterns(views, k as int),
        decreases rules.len() - k,
    {
        let m = rules[k].compile();
        assert(views[k as int] == rules[k as int]@);
        match m {
            Matcher::Inert => {
                log.push(Diagnostic::InvalidPattern { rule_id: rules[k].id });
            },
            _ => {},
        }
        matchers.push(m);
        k += 1;
        proof {
            assert(log@ =~= old(log)@ + invalid_patterns(views, k as int));
        }
    }
    matchers
}

/// Tries every matcher on the label of a candidate operation.
fn find_hits(op: &Operation, matchers: &Vec<Matcher>, Ghost(rules): Ghost<Seq<TagRuleView>>) -> (hits:
    Vec<bool>)
    requires
        is_candidate(op@),
        matchers.len() == rules.len(),
        forall|k: int| 0 <= k < rules.len() ==> (#[trigger] matchers[k]).stands_for(rules[k]),
    ensures
        hits@ == hits_of(rules, op@),
{
    let label = op.label();
    let folded = folded_chars(label);
    let mut hits: Vec<bool> = Vec::new();
    let mut k: usize = 0;
    while k < matchers.len()
        invariant
            k <= matchers.len(),
            matchers.len() == rules.len(),
            is_candidate(op@),
            label@ == op@.label,
            folded@ == fold_case(label@),
            forall|j: int| 0 <= j < rules.len() ==> (#[trigger] matchers[j]).stands_for(rules[j]),
            hits.len() == k,
            forall|j: int| 0 <= j < k ==> hits[j] == rules[j].matches(op@.label),
        decreases matchers.len() - k,
    {
        let found = matchers[k].matches_folded(label, &folded);
        proof {
            matchers[k as int].lemma_accepts_what_rule_matches(rules[k as int], label@);
        }
        hits.push(found);
        k += 1;
    }
    assert(hits@ =~= hits_of(rules, op@));
    hits
}

/// A duplicate is left out of a pass: it gains no tag and adds nothing to
/// the count.
pub proof fn lemma_duplicates_gain_nothing(op: OperationView, rules: Seq<TagRuleView>)
    requires
        !is_candidate(op),
    ensures
        tagged_operation(op, rules) == op,
        additions_to(op, rules) == 0,
{
    let hits = hits_of(rules, op);
    assert(gained_by(rules, hits) =~= Set::<u32>::empty());
    assert(op.tags.union(Set::<u32>::empty()) =~= op.tags);
    lemma_no_hits_no_adds(rules, hits, op.tags, rules.len() as int);
}

proof fn lemma_no_hits_no_adds(rules: Seq<TagRuleView>, hits: Seq<bool>, tags: Set<u32>, n: int)
    requires
        forall|k: int| 0 <= k < n ==> !adds(rules, hits, tags, k),
    ensures
        count_adds(rules, hits, tags, n) == 0,
    decreases n,
{
    if n > 0 {
        lemma_no_hits_no_adds(rules, hits, tags, n - 1);
    }
}

/// A pass leaves identifiers, fields and status as they are.
proof fn lemma_tagged_keeps_fields(operations: Seq<OperationView>, rules: Seq<TagRuleView>)
    ensures
        tagged(operations, rules).len() == operations.len(),
        forall|i: int|
            0 <= i < operations.len() ==> {
                &&& (#[trigger] tagged(operations, rules)[i]).id == operations[i].id
                &&& tagged(operations, rules)[i].status == operations[i].status
                &&& tagged(operations, rules)[i].label == operations[i].label
                &&& tagged(operations, rules)[i].fingerprint() == operations[i].fingerprint()
            },
        ids_ascend(operations) ==> ids_ascend(tagged(operations, rules)),
{
}

/// Applies the rules to the store. Every operation that is no duplicate is
/// tried against every rule, in the order of the rule identifiers, and gets
/// the tags of all rules that match its label; the tags it had stay.
/// Whether a rule brings something new is judged by the tags that the
/// operation had before the pass. A rule whose pattern does not compile
/// matches nothing and is put on record once. Returns the number of pairs of
/// an operation and a rule where the rule brought a new tag, or the greatest
/// machine number where there are more pairs than that.
pub fn apply_rules(store: &mut TransactionStore, rules: &RuleSet, log: &mut Vec<Diagnostic>) -> (n:
    usize)
    ensures
        final(store)@ == tagged(old(store)@, rules@),
        n == capped(rules_applied(old(store)@, rules@)),
        final(log)@ == old(log)@ + invalid_patterns(rules@, rules@.len() as int),
        final(store).tag_lists().len() == old(store).tag_lists().len(),
        forall|i: int|
            0 <= i < old(store).tag_lists().len() ==> (#[trigger] old(store).tag_lists()[i]).is_prefix_of(
                final(store).tag_lists()[i],
            ),
        forall|i: int|
            0 <= i < old(store)@.len() && additions_to(old(store)@[i], rules@) == 0
                ==> #[trigger] final(store).tag_lists()[i] == old(store).tag_lists()[i],
{
    proof {
        use_type_invariant(&*store);
    }
    let ghost before = store@;
    let ghost lists = store.tag_lists();
    let rule_list = rules.rules();
    let ghost views = rules@;
    let matchers = compile_rules(rule_list, log);
    let mut operations: Vec<Operation> = Vec::new();
    std::mem::swap(&mut store.operations, &mut operations);
    let total = operations.len();
    let mut count: usize = 0;
    let mut i: usize = 0;
    while i < total
        invariant
            i <= total,
            total == operations.len(),
            total == before.len(),
            total == lists.len(),
            views == rule_views(rule_list@),
            matchers.len() == views.len(),
            forall|k: int| 0 <= k < views.len() ==> (#[trigger] matchers[k]).stands_for(views[k]),
            count == capped(sum_additions(before, views, i as int)),
            forall|j: int| 0 <= j < i ==> (#[trigger] operations[j])@ == tagged(before, views)[j],
            forall|j: int| i <= j < total ==> (#[trigger] operations[j])@ == before[j],
            forall|j: int| i <= j < total ==> (#[trigger] operations[j]).tag_list() == lists[j],
            forall|j: int| 0 <= j < i ==> (#[trigger] lists[j]).is_prefix_of(operations[j].tag_list()),
            forall|j: int|
                0 <= j < i && additions_to(before[j], views) == 0 ==> (
                #[trigger] operations[j]).tag_list() == lists[j],
        decreases total - i,
    {
        if operations[i].status() != Status::Duplicate {
            let hits = find_hits(&operations[i], &matchers, Ghost(views));
            let added = tag_by_hits(&mut operations[i], rule_list, &hits);
            if added > usize::MAX - count {
                count = usize::MAX;
            } else {
                count = count + added;
            }
        } else {
            proof {
                lemma_duplicates_gain_nothing(before[i as int], views);
            }
        }
        i += 1;
    }
    proof {
        lemma_tagged_keeps_fields(before, views);
        assert(views_of(operations@) =~= tagged(before, views));
    }
    store.operations = operations;
    proof {
        assert forall|j: int| 0 <= j < lists.len() implies (#[trigger] lists[j]).is_prefix_of(
            store.tag_lists()[j],
        ) by {
            assert(store.tag_lists()[j] == store.operations[j].tag_list());
        }
        assert forall|j: int| 0 <= j < before.len() && additions_to(before[j], views)
            == 0 implies #[trigger] store.tag_lists()[j] == lists[j] by {
            assert(store.tag_lists()[j] == store.operations[j].tag_list());
        }
    }
    count
}

/// Running a pass a second time with the same rules finds nothing to do: no
/// operation gains a tag, and the count is zero.
pub proof fn lemma_tagging_idempotent(operations: Seq<OperationView>, rules: Seq<TagRuleView>)
    ensures
        tagged(tagged(operations, rules), rules) == tagged(operations, rules),
        rules_applied(tagged(operations, rules), rules) == 0,
{
    let once = tagged(operations, rules);
    assert forall|i: int| 0 <= i < once.len() implies tagged_operation(#[trigger] once[i], rules)
        == once[i] && additions_to(once[i], rules) == 0 by {
        lemma_tagged_operation_is_settled(operations[i], rules);
    }
    assert(tagged(once, rules) =~= once);
    lemma_settled_sum(once, rules, once.len() as int);
}

/// An operation that went through a pass gains nothing from another.
pub proof fn lemma_tagged_operation_is_settled(op: OperationView, rules: Seq<TagRuleView>)
    ensures
        tagged_operation(tagged_operation(op, rules), rules) == tagged_operation(op, rules),
        additions_to(tagged_operation(op, rules), rules) == 0,
{
    let once = tagged_operation(op, rules);
    let hits = hits_of(rules, op);
    assert(hits_of(rules, once) =~= hits);
    let gained = gained_by(rules, hits);
    assert(once.tags.union(gained) =~= once.tags);
    assert forall|k: int| 0 <= k < rules.len() implies !adds(rules, hits, once.tags, k) by {
        if hit(hits, k) {
            assert forall|t: u32| rules[k].tags.contains(t) implies once.tags.contains(t) by {
                assert(gained.contains(t));
            }
        }
    }
    lemma_no_hits_no_adds(rules, hits, once.tags, rules.len() as int);
}

proof fn lemma_settled_sum(operations: Seq<OperationView>, rules: Seq<TagRuleView>, n: int)
    requires
        n <= operations.len(),
        forall|i: int| 0 <= i < operations.len() ==> additions_to(#[trigger] operations[i], rules) == 0,
    ensures
        sum_additions(operations, rules, n) == 0,
    decreases n,
{
    if n > 0 {
        lemma_settled_sum(operations, rules, n - 1);
    }
}

/// Every rule that applies to an operation gives it all its tags, whatever
/// other rules apply.
pub proof fn lemma_matching_rule_gives_its_tags(
    op: OperationView,
    rules: Seq<TagRuleView>,
    k: int,
)
    requires
        0 <= k < rules.len(),
        is_candidate(op),
        rules[k].matches(op.label),
    ensures
        rules[k].tags.subset_of(tagged_operation(op, rules).tags),
        op.tags.subset_of(tagged_operation(op, rules).tags),
{
    let hits = hits_of(rules, op);
    assert forall|t: u32| rules[k].tags.contains(t) implies gained_by(rules, hits).contains(t) by {
        assert(hit(hits, k));
    }
}

/// The tags that an operation ends with do not depend on the order of the
/// rules: two lists of the same rules give the same tags.
pub proof fn lemma_tags_independent_of_rule_order(
    op: OperationView,
    rules_a: Seq<TagRuleView>,
    rules_b: Seq<TagRuleView>,
)
    requires
        forall|rule: TagRuleView| rules_a.contains(rule) <==> rules_b.contains(rule),
    ensures
        tagged_operation(op, rules_a) == tagged_operation(op, rules_b),
{
    let a = gained_by(rules_a, hits_of(rules_a, op));
    let b = gained_by(rules_b, hits_of(rules_b, op));
    assert forall|t: u32| a.contains(t) <==> b.contains(t) by {
        if a.contains(t) {
            let k = choose|k: int|
                0 <= k < rules_a.len() && hit(hits_of(rules_a, op), k) && (
                #[trigger] rules_a[k]).tags.contains(t);
            assert(rules_a.contains(rules_a[k]));
            let j = choose|j: int| 0 <= j < rules_b.len() && rules_b[j] == rules_a[k];
            assert(hit(hits_of(rules_b, op), j) && rules_b[j].tags.contains(t));
        }
        if b.contains(t) {
            let k = choose|k: int|
                0 <= k < rules_b.len() && hit(hits_of(rules_b, op), k) && (
                #[trigger] rules_b[k]).tags.contains(t);
            assert(rules_b.contains(rules_b[k]));
            let j = choose|j: int| 0 <= j < rules_a.len() && rules_a[j] == rules_b[k];
            assert(hit(hits_of(rules_a, op), j) && rules_a[j].tags.contains(t));
        }
    }
    assert(a =~= b);
}

/// Without rule `k`, the rule that stood at `j` stands at `j`, or one place
/// earlier where it stood behind `k`.
spec fn place_without(k: int, j: int) -> int {
    if j < k {
        j
    } else {
        j - 1
    }
}

proof fn lemma_count_without(rules: Seq<TagRuleView>, op: OperationView, k: int, n: int)
    requires
        0 <= k < rules.len(),
        rules[k].is_broken(),
        0 <= n <= rules.len(),
    ensures
        count_adds(rules, hits_of(rules, op), op.tags, n) == count_adds(
            rules.remove(k),
            hits_of(rules.remove(k), op),
            op.tags,
            if n <= k {
                n
            } else {
                n - 1
            },
        ),
    decreases n,
{
    let rest = rules.remove(k);
    if n > 0 {
        lemma_count_without(rules, op, k, n - 1);
        if n - 1 != k {
            assert(rest[place_without(k, n - 1)] == rules[n - 1]);
        }
    }
}

proof fn lemma_invalid_patterns_hold(rules: Seq<TagRuleView>, k: int, n: int)
    requires
        0 <= k < n <= rules.len(),
        rules[k].is_broken(),
    ensures
        invalid_patterns(rules, n).contains(Diagnostic::InvalidPattern { rule_id: rules[k].id }),
    decreases n,
{
    let wanted = Diagnostic::InvalidPattern { rule_id: rules[k].id };
    let out = invalid_patterns(rules, n);
    if n - 1 == k {
        assert(out[out.len() - 1] == wanted);
    } else {
        lemma_invalid_patterns_hold(rules, k, n - 1);
        let inner = invalid_patterns(rules, n - 1);
        let at = choose|at: int| 0 <= at < inner.len() && inner[at] == wanted;
        assert(out[at] == wanted);
    }
}

/// A rule whose pattern does not compile is put on record and changes
/// nothing else: every operation gets the tags that it would get without
/// that rule, and the count is the same.
pub proof fn lemma_broken_rule_is_inert(
    operations: Seq<OperationView>,
    rules: Seq<TagRuleView>,
    k: int,
)
    requires
        0 <= k < rules.len(),
        rules[k].is_broken(),
    ensures
        tagged(operations, rules) == tagged(operations, rules.remove(k)),
        rules_applied(operations, rules) == rules_applied(operations, rules.remove(k)),
        invalid_patterns(rules, rules.len() as int).contains(
            Diagnostic::InvalidPattern { rule_id: rules[k].id },
        ),
{
    let rest = rules.remove(k);
    assert forall|i: int| 0 <= i < operations.len() implies tagged_operation(
        #[trigger] operations[i],
        rules,
    ) == tagged_operation(operations[i], rest) && additions_to(operations[i], rules)
        == additions_to(operations[i], rest) by {
        let op = operations[i];
        let with = gained_by(rules, hits_of(rules, op));
        let without = gained_by(rest, hits_of(rest, op));
        assert forall|t: u32| with.contains(t) <==> without.contains(t) by {
            if with.contains(t) {
                let j = choose|j: int|
                    0 <= j < rules.len() && hit(hits_of(rules, op), j) && (
                    #[trigger] rules[j]).tags.contains(t);
                assert(j != k);
                let at = place_without(k, j);
                assert(rest[at] == rules[j]);
                assert(hit(hits_of(rest, op), at));
            }
            if without.contains(t) {
                let j = choose|j: int|
                    0 <= j < rest.len() && hit(hits_of(rest, op), j) && (
                    #[trigger] rest[j]).tags.contains(t);
                let at = if j < k {
                    j
                } else {
                    j + 1
                };
                assert(rules[at] == rest[j]);
                assert(hit(hits_of(rules, op), at));
            }
        }
        assert(with =~= without);
        lemma_count_without(rules, op, k, rules.len() as int);
    }
    assert(tagged(operations, rules) =~= tagged(operations, rest));
    lemma_equal_sums(operations, rules, rest, operations.len() as int);
    lemma_invalid_patterns_hold(rules, k, rules.len() as int);
}

proof fn lemma_equal_sums(
    operations: Seq<OperationView>,
    rules_a: Seq<TagRuleView>,
    rules_b: Seq<TagRuleView>,
    n: int,
)
    requires
        n <= operations.len(),
        forall|i: int|
            0 <= i < operations.len() ==> additions_to(#[trigger] operations[i], rules_a)
                == additions_to(operations[i], rules_b),
    ensures
        sum_additions(operations, rules_a, n) == sum_additions(operations, rules_b, n),
    decreases n,
{
    if n > 0 {
        lemma_equal_sums(operations, rules_a, rules_b, n - 1);
    }
}

} // verus!
