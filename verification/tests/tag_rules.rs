use ledger_sync::tag_rules::{
    deserialize_tags_ids, parse_tags_ids, Matcher, RuleSet, TagRule, TagsIdsForm,
};

fn rule(id: u32, pattern: &str, is_regex: bool, tags: Vec<u32>) -> TagRule {
    TagRule { id, tags_ids: tags, matching_pattern: pattern.to_string(), is_regex }
}

fn ids(set: &RuleSet) -> Vec<u32> {
    set.rules().iter().map(|r| r.id).collect()
}

#[test]
fn parse_tags_ids_reads_identifiers_between_commas() {
    assert_eq!(parse_tags_ids("1,2,3"), vec![1, 2, 3]);
    assert_eq!(parse_tags_ids("12"), vec![12]);
    assert_eq!(parse_tags_ids("3,1,3"), vec![3, 1, 3]);
    assert_eq!(parse_tags_ids("007,+8"), vec![7, 8]);
}

#[test]
fn parse_tags_ids_drops_malformed_and_zero_entries() {
    assert_eq!(parse_tags_ids("1,,x,0,+7, 8,9 ,-3,1.5,2"), vec![1, 7, 2]);
    assert_eq!(parse_tags_ids(""), Vec::<u32>::new());
    assert_eq!(parse_tags_ids(","), Vec::<u32>::new());
    assert_eq!(parse_tags_ids(",,,"), Vec::<u32>::new());
    assert_eq!(parse_tags_ids("0"), Vec::<u32>::new());
    assert_eq!(parse_tags_ids("+"), Vec::<u32>::new());
    assert_eq!(parse_tags_ids("+0,00"), Vec::<u32>::new());
    assert_eq!(parse_tags_ids(",5"), vec![5]);
    assert_eq!(parse_tags_ids("5,"), vec![5]);
    assert_eq!(parse_tags_ids("٣,4"), vec![4]);
}

#[test]
fn parse_tags_ids_at_the_limit_of_identifiers() {
    assert_eq!(parse_tags_ids("4294967295"), vec![u32::MAX]);
    assert_eq!(parse_tags_ids("4294967296,1"), vec![1]);
    assert_eq!(parse_tags_ids("99999999999999999999999999,2"), vec![2]);
}

#[test]
fn deserialize_tags_ids_takes_every_form() {
    assert_eq!(deserialize_tags_ids(TagsIdsForm::Absent), Vec::<u32>::new());
    assert_eq!(deserialize_tags_ids(TagsIdsForm::Text("4,0,x,5".to_string())), vec![4, 5]);
    assert_eq!(deserialize_tags_ids(TagsIdsForm::Text(String::new())), Vec::<u32>::new());
    assert_eq!(deserialize_tags_ids(TagsIdsForm::List(vec![3, 1, 2])), vec![3, 1, 2]);
    assert_eq!(deserialize_tags_ids(TagsIdsForm::List(Vec::new())), Vec::<u32>::new());
}

#[test]
fn default_rule_is_an_empty_literal() {
    let r = TagRule::default();
    assert_eq!(r.id, 0);
    assert!(r.tags_ids.is_empty());
    assert_eq!(r.matching_pattern, "");
    assert!(!r.is_regex);
}

#[test]
fn literal_rule_matches_where_the_pattern_stands_in_the_label() {
    let r = rule(1, "coffee", false, vec![1]);
    assert!(r.matches("Coffee Shop"));
    assert!(r.matches("THE COFFEE SHOP"));
    assert!(r.matches("coffee"));
    assert!(!r.matches("Cofee Shop"));
    assert!(!r.matches("Tea House"));
    assert!(!r.matches(""));
    assert!(rule(1, "COFFEE SH", false, vec![]).matches("coffee shop"));
    assert!(!rule(1, "coffee  shop", false, vec![]).matches("coffee shop"));
}

#[test]
fn literal_rule_takes_its_pattern_by_the_letter() {
    assert!(rule(1, "a.c", false, vec![]).matches("xA.Cx"));
    assert!(!rule(1, "a.c", false, vec![]).matches("abc"));
    assert!(rule(1, "(", false, vec![]).matches("f(x)"));
}

#[test]
fn empty_literal_pattern_matches_every_label() {
    let r = rule(1, "", false, vec![1]);
    assert!(r.matches("anything"));
    assert!(r.matches(""));
}

#[test]
fn regex_rule_searches_the_label_without_regard_to_case() {
    assert!(rule(1, "sho[pt]", true, vec![]).matches("Coffee Shop"));
    assert!(rule(1, "^coffee\\s+shop$", true, vec![]).matches("COFFEE   SHOP"));
    assert!(rule(1, "shop", true, vec![]).matches("Coffee Shop"));
    assert!(rule(1, "a.c", true, vec![]).matches("xABCx"));
    assert!(!rule(1, "^shop", true, vec![]).matches("Coffee Shop"));
    assert!(!rule(1, "\\d{4}", true, vec![]).matches("Coffee Shop 123"));
    assert!(rule(1, "\\d{4}", true, vec![]).matches("CARD 1234"));
    assert!(rule(1, "", true, vec![]).matches("anything"));
}

#[test]
fn regex_rule_that_does_not_compile_matches_nothing() {
    for pattern in ["(", "[a-", "a{2,1}", "*", "(?P<n>"] {
        let r = rule(1, pattern, true, vec![1]);
        assert!(!r.matches("Coffee Shop"));
        assert!(!r.matches(pattern));
        assert!(!r.matches(""));
        assert!(matches!(r.compile(), Matcher::Inert));
    }
}

#[test]
fn compile_gives_a_matcher_of_the_kind_of_the_rule() {
    let literal = rule(1, "CoFFee", false, vec![]).compile();
    match &literal {
        Matcher::Literal { needle } => assert_eq!(needle, &vec!['c', 'o', 'f', 'f', 'e', 'e']),
        _ => panic!("a literal rule compiles to a literal matcher"),
    }
    assert!(literal.matches("Coffee Shop"));
    assert!(!literal.matches("Tea"));
    let pattern = rule(1, "co+l", true, vec![]).compile();
    assert!(matches!(pattern, Matcher::Pattern { .. }));
    assert!(pattern.matches("so COOOL"));
    assert!(!pattern.matches("cl"));
    assert!(!Matcher::Inert.matches("anything"));
}

#[test]
fn of_compiled_keeps_the_expression_or_is_inert() {
    let good = Matcher::of_compiled(regex::Regex::new("^a+$"));
    assert!(matches!(good, Matcher::Pattern { .. }));
    assert!(good.matches("aaa"));
    assert!(!good.matches("aab"));
    let bad = Matcher::of_compiled(regex::Regex::new("("));
    assert!(matches!(bad, Matcher::Inert));
}

#[test]
fn rule_set_keeps_rules_in_the_order_of_their_identifiers() {
    let mut set = RuleSet::new();
    assert_eq!(set.len(), 0);
    set.save(rule(5, "five", false, vec![]));
    set.save(rule(2, "two", false, vec![]));
    set.save(rule(9, "nine", false, vec![]));
    set.save(rule(7, "seven", false, vec![]));
    assert_eq!(ids(&set), vec![2, 5, 7, 9]);
    assert_eq!(set.len(), 4);
}

#[test]
fn rule_set_puts_a_saved_rule_in_the_place_of_the_old_one() {
    let mut set = RuleSet::new();
    set.save(rule(2, "two", false, vec![1]));
    set.save(rule(5, "five", false, vec![2]));
    set.save(rule(2, "deux", true, vec![3, 4]));
    assert_eq!(ids(&set), vec![2, 5]);
    let first = &set.rules()[0];
    assert_eq!(first.matching_pattern, "deux");
    assert!(first.is_regex);
    assert_eq!(first.tags_ids, vec![3, 4]);
    set.save(rule(5, "cinq", false, vec![]));
    assert_eq!(ids(&set), vec![2, 5]);
    assert_eq!(set.rules()[1].matching_pattern, "cinq");
}

#[test]
fn rule_set_from_rules_sorts_and_keeps_the_later_of_two() {
    let set = RuleSet::from_rules(vec![
        rule(3, "c", false, vec![]),
        rule(1, "a", false, vec![]),
        rule(3, "c again", false, vec![]),
        rule(0, "zero", false, vec![]),
        rule(2, "b", false, vec![]),
    ]);
    assert_eq!(ids(&set), vec![0, 1, 2, 3]);
    assert_eq!(set.rules()[3].matching_pattern, "c again");
    assert_eq!(RuleSet::from_rules(Vec::new()).len(), 0);
}
