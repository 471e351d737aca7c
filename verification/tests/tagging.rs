use ledger_sync::diagnostics::Diagnostic;
use ledger_sync::operations::{Operation, RawRecord, Status, TransactionStore};
use ledger_sync::tag_rules::{RuleSet, TagRule};
use ledger_sync::tagging::{apply_rules, compile_rules, tag_by_hits};

fn record(label: &str) -> RawRecord {
    RawRecord {
        account_id: 1,
        date: "2024-01-05".to_string(),
        amount: "-1250".to_string(),
        label: label.to_string(),
    }
}

fn stored(id: u32, label: &str, status: Status, tags: Vec<u32>) -> Operation {
    Operation::new(id, record(label), status, tags)
}

fn rule(id: u32, pattern: &str, is_regex: bool, tags: Vec<u32>) -> TagRule {
    TagRule { id, tags_ids: tags, matching_pattern: pattern.to_string(), is_regex }
}

fn sorted(tags: &Vec<u32>) -> Vec<u32> {
    let mut out = tags.clone();
    out.sort();
    out
}

fn tags(store: &TransactionStore) -> Vec<Vec<u32>> {
    store.operations().iter().map(|op| sorted(op.tags())).collect()
}

fn store_of(ops: Vec<Operation>) -> TransactionStore {
    TransactionStore::from_operations(ops).unwrap()
}

#[test]
fn every_matching_rule_gives_its_tags() {
    let mut store = store_of(vec![
        stored(1, "Coffee Shop", Status::Pending, vec![]),
        stored(2, "Book Shop", Status::Confirmed, vec![]),
        stored(3, "Groceries", Status::Pending, vec![]),
    ]);
    let rules = RuleSet::from_rules(vec![
        rule(1, "coffee", false, vec![1]),
        rule(2, "shop$", true, vec![2]),
    ]);
    let mut log = Vec::new();
    assert_eq!(apply_rules(&mut store, &rules, &mut log), 3);
    assert_eq!(tags(&store), vec![vec![1, 2], vec![2], vec![]]);
    assert!(log.is_empty());
}

#[test]
fn tags_do_not_depend_on_the_order_of_the_rules() {
    let a = rule(1, "coffee", false, vec![1]);
    let b = rule(2, "shop", true, vec![2]);
    let hits = vec![true, true];
    let mut first = stored(1, "Coffee Shop", Status::Pending, vec![]);
    assert_eq!(tag_by_hits(&mut first, &vec![a, b], &hits), 2);
    let a = rule(1, "coffee", false, vec![1]);
    let b = rule(2, "shop", true, vec![2]);
    let mut second = stored(1, "Coffee Shop", Status::Pending, vec![]);
    assert_eq!(tag_by_hits(&mut second, &vec![b, a], &hits), 2);
    assert_eq!(first.tags(), &vec![1, 2]);
    assert_eq!(second.tags(), &vec![2, 1]);
    assert_eq!(sorted(first.tags()), sorted(second.tags()));
}

#[test]
fn applying_rules_twice_changes_nothing_the_second_time() {
    let mut store = store_of(vec![
        stored(1, "Coffee Shop", Status::Pending, vec![7]),
        stored(2, "Tea House", Status::Pending, vec![]),
    ]);
    let rules = RuleSet::from_rules(vec![
        rule(1, "coffee", false, vec![1, 7]),
        rule(2, "house|shop", true, vec![2]),
    ]);
    let mut log = Vec::new();
    assert_eq!(apply_rules(&mut store, &rules, &mut log), 3);
    let after_first: Vec<Vec<u32>> =
        store.operations().iter().map(|op| op.tags().clone()).collect();
    assert_eq!(after_first, vec![vec![7, 1, 2], vec![2]]);
    assert_eq!(apply_rules(&mut store, &rules, &mut log), 0);
    let after_second: Vec<Vec<u32>> =
        store.operations().iter().map(|op| op.tags().clone()).collect();
    assert_eq!(after_second, after_first);
}

#[test]
fn a_rule_whose_tags_are_all_there_does_not_count() {
    let mut store = store_of(vec![stored(1, "Coffee Shop", Status::Pending, vec![1, 2])]);
    let rules = RuleSet::from_rules(vec![
        rule(1, "coffee", false, vec![1]),
        rule(2, "shop", false, vec![2, 1]),
        rule(3, "shop", false, vec![]),
    ]);
    let mut log = Vec::new();
    assert_eq!(apply_rules(&mut store, &rules, &mut log), 0);
    assert_eq!(tags(&store), vec![vec![1, 2]]);
}

#[test]
fn what_is_new_is_judged_by_the_tags_before_the_pass() {
    let mut store = store_of(vec![stored(1, "Coffee Shop", Status::Pending, vec![])]);
    let rules = RuleSet::from_rules(vec![
        rule(1, "coffee", false, vec![5]),
        rule(2, "shop", false, vec![5]),
        rule(3, "c", false, vec![5, 6]),
    ]);
    let mut log = Vec::new();
    assert_eq!(apply_rules(&mut store, &rules, &mut log), 3);
    assert_eq!(tags(&store), vec![vec![5, 6]]);
}

#[test]
fn duplicates_are_left_out_of_tagging() {
    let mut store = store_of(vec![
        stored(1, "Coffee Shop", Status::Pending, vec![]),
        stored(2, "Coffee Shop", Status::Duplicate, vec![9]),
        stored(3, "Coffee Shop", Status::Confirmed, vec![]),
    ]);
    let rules = RuleSet::from_rules(vec![rule(1, "coffee", false, vec![1])]);
    let mut log = Vec::new();
    assert_eq!(apply_rules(&mut store, &rules, &mut log), 2);
    assert_eq!(tags(&store), vec![vec![1], vec![9], vec![1]]);
}

#[test]
fn an_invalid_pattern_is_put_on_record_and_stops_nothing() {
    let mut store = store_of(vec![
        stored(1, "Coffee Shop", Status::Pending, vec![]),
        stored(2, "Book Shop", Status::Pending, vec![]),
    ]);
    let rules = RuleSet::from_rules(vec![
        rule(1, "coffee", false, vec![1]),
        rule(2, "(shop", true, vec![2]),
        rule(3, "shop", true, vec![3]),
        rule(4, "[", true, vec![4]),
    ]);
    let mut log = vec![Diagnostic::UnreadableOperation { id: 77 }];
    assert_eq!(apply_rules(&mut store, &rules, &mut log), 3);
    assert_eq!(tags(&store), vec![vec![1, 3], vec![3]]);
    assert_eq!(
        log,
        vec![
            Diagnostic::UnreadableOperation { id: 77 },
            Diagnostic::InvalidPattern { rule_id: 2 },
            Diagnostic::InvalidPattern { rule_id: 4 },
        ]
    );
}

#[test]
fn an_invalid_pattern_gives_the_same_result_as_no_rule() {
    let ops = || {
        vec![
            stored(1, "Coffee Shop", Status::Pending, vec![]),
            stored(2, "Book Shop", Status::Pending, vec![8]),
        ]
    };
    let mut with = store_of(ops());
    let mut without = store_of(ops());
    let broken = RuleSet::from_rules(vec![
        rule(1, "coffee", false, vec![1]),
        rule(2, "(", true, vec![2]),
        rule(3, "shop", false, vec![8]),
    ]);
    let sound = RuleSet::from_rules(vec![
        rule(1, "coffee", false, vec![1]),
        rule(3, "shop", false, vec![8]),
    ]);
    let mut log = Vec::new();
    let mut other_log = Vec::new();
    let a = apply_rules(&mut with, &broken, &mut log);
    let b = apply_rules(&mut without, &sound, &mut other_log);
    assert_eq!(a, b);
    assert_eq!(a, 2);
    assert_eq!(tags(&with), tags(&without));
    assert_eq!(log, vec![Diagnostic::InvalidPattern { rule_id: 2 }]);
    assert!(other_log.is_empty());
}

#[test]
fn applying_no_rules_changes_nothing() {
    let mut store = store_of(vec![stored(1, "Coffee Shop", Status::Pending, vec![3])]);
    let mut log = Vec::new();
    assert_eq!(apply_rules(&mut store, &RuleSet::new(), &mut log), 0);
    assert_eq!(tags(&store), vec![vec![3]]);
    let mut empty = TransactionStore::new();
    let rules = RuleSet::from_rules(vec![rule(1, "(", true, vec![1])]);
    assert_eq!(apply_rules(&mut empty, &rules, &mut log), 0);
    assert_eq!(log, vec![Diagnostic::InvalidPattern { rule_id: 1 }]);
}

#[test]
fn applying_rules_leaves_the_other_fields_alone() {
    let mut store = store_of(vec![stored(4, "Coffee Shop", Status::Confirmed, vec![])]);
    let rules = RuleSet::from_rules(vec![rule(1, "coffee", false, vec![1])]);
    let mut log = Vec::new();
    assert_eq!(apply_rules(&mut store, &rules, &mut log), 1);
    let op = &store.operations()[0];
    assert_eq!(op.id(), 4);
    assert_eq!(op.account_id(), 1);
    assert_eq!(op.date(), "2024-01-05");
    assert_eq!(op.amount(), "-1250");
    assert_eq!(op.label(), "Coffee Shop");
    assert_eq!(op.status(), Status::Confirmed);
}

#[test]
fn tag_by_hits_gives_the_tags_of_the_marked_rules() {
    let rules = vec![
        rule(1, "", false, vec![1, 2]),
        rule(2, "", false, vec![3]),
        rule(3, "", false, vec![2, 4]),
        rule(4, "", false, vec![2]),
    ];
    let mut op = stored(1, "x", Status::Pending, vec![2]);
    assert_eq!(tag_by_hits(&mut op, &rules, &vec![true, false, true, true]), 2);
    assert_eq!(op.tags(), &vec![2, 1, 4]);
}

#[test]
fn tag_by_hits_takes_a_missing_mark_as_no_match() {
    let rules = vec![rule(1, "", false, vec![1]), rule(2, "", false, vec![2])];
    let mut op = stored(1, "x", Status::Pending, vec![]);
    assert_eq!(tag_by_hits(&mut op, &rules, &vec![true]), 1);
    assert_eq!(op.tags(), &vec![1]);
    assert_eq!(tag_by_hits(&mut op, &rules, &vec![]), 0);
    assert_eq!(tag_by_hits(&mut op, &rules, &vec![true, true, true]), 1);
    assert_eq!(op.tags(), &vec![1, 2]);
    assert_eq!(tag_by_hits(&mut op, &Vec::new(), &vec![true]), 0);
}

#[test]
fn compile_rules_reports_each_invalid_pattern_once() {
    let rules = vec![
        rule(1, "(", true, vec![]),
        rule(2, "(", false, vec![]),
        rule(3, "ok", true, vec![]),
        rule(4, "(", true, vec![]),
    ];
    let mut log = Vec::new();
    let matchers = compile_rules(&rules, &mut log);
    assert_eq!(matchers.len(), 4);
    assert!(!matchers[0].matches("("));
    assert!(matchers[1].matches("f(x)"));
    assert!(matchers[2].matches("tOKen"));
    assert_eq!(
        log,
        vec![Diagnostic::InvalidPattern { rule_id: 1 }, Diagnostic::InvalidPattern { rule_id: 4 }]
    );
}
