//! Tag rules: a pattern, its kind, and the tags to give where it matches.

use vstd::prelude::*;
use crate::pattern::{compile_pattern, compiled_pattern, regex_finds, regex_is_match};
use crate::text::{
    chars_of, contains_run, decimal_within, fold_case, folded_chars, has_run, parse_decimal,
};

verus! {

/// A rule as the user wrote it. This is also the form in which rules travel
/// to and from the user interface.
#[derive(Debug)]
pub struct TagRule {
    pub id: u32,
    pub tags_ids: Vec<u32>,
    pub matching_pattern: String,
    pub is_regex: bool,
}

/// A rule as contracts speak of it. Its tags are a set.
pub struct TagRuleView {
    pub id: u32,
    pub tags: Set<u32>,
    pub pattern: Seq<char>,
    pub is_regex: bool,
}

impl View for TagRule {
    type V = TagRuleView;

    open spec fn view(&self) -> TagRuleView {
        TagRuleView {
            id: self.id,
            tags: self.tags_ids@.to_set(),
            pattern: self.matching_pattern@,
            is_regex: self.is_regex,
        }
    }
}

impl Default for TagRule {
    fn default() -> (rule: TagRule)
        ensures
            rule.id == 0,
            rule.tags_ids@ == Seq::<u32>::empty(),
            rule.matching_pattern@ == Seq::<char>::empty(),
            !rule.is_regex,
    {
        TagRule { id: 0, tags_ids: Vec::new(), matching_pattern: String::new(), is_regex: false }
    }
}

impl TagRuleView {
    /// Whether the rule matches a label. A literal pattern matches where it
    /// stands somewhere in the label, case disregarded; the empty pattern
    /// stands in every label. A regular expression matches where the
    /// compiled pattern finds a match anywhere in the label. A pattern that
    /// does not compile matches nothing.
    pub open spec fn matches(self, label: Seq<char>) -> bool {
        if self.is_regex {
            match compiled_pattern(self.pattern) {
                Some(re) => regex_finds(re, label),
                None => false,
            }
        } else {
            has_run(fold_case(label), fold_case(self.pattern))
        }
    }

    /// Whether the rule is a regular expression that does not compile.
    pub open spec fn is_broken(self) -> bool {
        self.is_regex && compiled_pattern(self.pattern) is None
    }
}

/// A broken rule matches no label.
pub proof fn lemma_broken_rule_matches_nothing(rule: TagRuleView, label: Seq<char>)
    requires
        rule.is_broken(),
    ensures
        !rule.matches(label),
{
}

/// A rule made ready to be tried on many labels.
pub enum Matcher {
    /// A literal pattern, case-folded.
    Literal { needle: Vec<char> },
    /// A compiled regular expression.
    Pattern { regex: regex::Regex },
    /// A regular expression that did not compile.
    Inert,
}

impl Matcher {
    /// Whether the matcher accepts a label.
    pub open spec fn accepts(self, label: Seq<char>) -> bool {
        match self {
            Matcher::Literal { needle } => has_run(fold_case(label), needle@),
            Matcher::Pattern { regex } => regex_finds(regex, label),
            Matcher::Inert => false,
        }
    }

    /// Whether the matcher was made from `rule`.
    pub open spec fn stands_for(self, rule: TagRuleView) -> bool {
        match self {
            Matcher::Literal { needle } => !rule.is_regex && needle@ == fold_case(rule.pattern),
            Matcher::Pattern { regex } => rule.is_regex && compiled_pattern(rule.pattern) == Some(
                regex,
            ),
            Matcher::Inert => rule.is_broken(),
        }
    }

    /// A matcher accepts the labels that its rule matches.
    pub proof fn lemma_accepts_what_rule_matches(self, rule: TagRuleView, label: Seq<char>)
        requires
            self.stands_for(rule),
        ensures
            self.accepts(label) == rule.matches(label),
    {
    }

    /// The matcher for what compiling a pattern gave: the compiled
    /// expression, or an inert matcher for a pattern that was refused.
    pub fn of_compiled(compiled: Result<regex::Regex, regex::Error>) -> (m: Matcher)
        ensures
            match compiled {
                Ok(regex) => m == (Matcher::Pattern { regex }),
                Err(_) => m == Matcher::Inert,
            },
    {
        match compiled {
            Ok(regex) => Matcher::Pattern { regex },
            Err(_) => Matcher::Inert,
        }
    }

    /// Tries the matcher on a label whose case-folded characters are at
    /// hand.
    pub(crate) fn matches_folded(&self, label: &str, folded: &Vec<char>) -> (b: bool)
        requires
            folded@ == fold_case(label@),
        ensures
            b == self.accepts(label@),
    {
        match self {
            Matcher::Literal { needle } => contains_run(folded, needle),
            Matcher::Pattern { regex } => regex_is_match(regex, label),
            Matcher::Inert => false,
        }
    }

    /// Tries the matcher on a label.
    pub fn matches(&self, label: &str) -> (b: bool)
        ensures
            b == self.accepts(label@),
    {
        match self {
            Matcher::Literal { needle } => {
                let folded = folded_chars(label);
                contains_run(&folded, needle)
            },
            Matcher::Pattern { regex } => regex_is_match(regex, label),
            Matcher::Inert => false,
        }
    }
}

impl TagRule {
    /// Makes the rule ready for matching: folds a literal pattern, compiles
    /// a regular expression.
    pub fn compile(&self) -> (m: Matcher)
        ensures
            m.stands_for(self@),
    {
        if self.is_regex {
            Matcher::of_compiled(compile_pattern(self.matching_pattern.as_str()))
        } else {
            Matcher::Literal { needle: folded_chars(self.matching_pattern.as_str()) }
        }
    }

    /// Whether the rule matches a label.
    pub fn matches(&self, label: &str) -> (b: bool)
        ensures
            b == self@.matches(label@),
    {
        let m = self.compile();
        proof {
            m.lemma_accepts_what_rule_matches(self@, label@);
        }
        m.matches(label)
    }
}

/// The tag identifiers of a rule as they come over the wire: missing, a
/// text of identifiers between commas, or a list.
pub enum TagsIdsForm {
    Absent,
    Text(String),
    List(Vec<u32>),
}

/// The identifier that one entry of a comma separated text denotes: digits,
/// with `+` in front or not, for a number from 1 to the greatest that 32 bits
/// hold. Any other entry denotes none.
pub open spec fn id_of_entry(entry: Seq<char>) -> Option<u32> {
    let digits = if entry.len() > 0 && entry[0] == '+' {
        entry.subrange(1, entry.len() as int)
    } else {
        entry
    };
    match decimal_within(digits, 0xffff_ffff) {
        Some(v) => if v > 0 {
            Some(v as u32)
        } else {
            None
        },
        None => None,
    }
}

/// The identifiers of one entry: one or none.
pub open spec fn ids_of_entry(entry: Seq<char>) -> Seq<u32> {
    match id_of_entry(entry) {
        Some(id) => seq![id],
        None => Seq::empty(),
    }
}

/// The place of the first comma of a text, or its length where it has none.
pub open spec fn first_comma(s: Seq<char>) -> int
    decreases s.len(),
{
    if s.len() == 0 || s[0] == ',' {
        0
    } else {
        1 + first_comma(s.drop_first())
    }
}

/// The identifiers that a comma separated text denotes, in order. Entries
/// that denote none are passed over.
pub open spec fn ids_of_text(s: Seq<char>) -> Seq<u32>
    decreases s.len(),
{
    let k = first_comma(s);
    if 0 <= k < s.len() {
        ids_of_entry(s.take(k)) + ids_of_text(s.skip(k + 1))
    } else {
        ids_of_entry(s)
    }
}

/// A text without a comma before `k`, and with a comma or its end at `k`,
/// has its first comma at `k`.
proof fn lemma_first_comma(s: Seq<char>, k: int)
    requires
        0 <= k <= s.len(),
        forall|i: int| 0 <= i < k ==> s[i] != ',',
        k < s.len() ==> s[k] == ',',
    ensures
        first_comma(s) == k,
    decreases k,
{
    if k > 0 {
        let rest = s.drop_first();
        assert forall|i: int| 0 <= i < k - 1 implies rest[i] != ',' by {
            assert(rest[i] == s[i + 1]);
        }
        lemma_first_comma(rest, k - 1);
    }
}

/// Reads one entry and puts its identifier, if it denotes one, at the end
/// of `ids`.
fn push_entry(chars: &Vec<char>, from: usize, to: usize, ids: &mut Vec<u32>)
    requires
        from <= to <= chars.len(),
    ensures
        final(ids)@ == old(ids)@ + ids_of_entry(chars@.subrange(from as int, to as int)),
{
    let ghost entry = chars@.subrange(from as int, to as int);
    let start: usize = if from < to && chars[from] == '+' {
        from + 1
    } else {
        from
    };
    proof {
        if start > from {
            assert(entry[0] == '+');
            assert(entry.subrange(1, entry.len() as int) =~= chars@.subrange(
                start as int,
                to as int,
            ));
        } else if from < to {
            assert(entry[0] == chars[from as int]);
        }
    }
    match parse_decimal(chars, start, to, 0xffff_ffff) {
        Some(v) => {
            if v > 0 {
                ids.push(v as u32);
                assert(ids@ =~= old(ids)@ + ids_of_entry(entry));
            } else {
                assert(ids@ =~= old(ids)@ + ids_of_entry(entry));
            }
        },
        None => {
            assert(ids@ =~= old(ids)@ + ids_of_entry(entry));
        },
    }
}

/// Reads the identifiers of a comma separated text.
pub fn parse_tags_ids(text: &str) -> (ids: Vec<u32>)
    ensures
        ids@ == ids_of_text(text@),
{
    let chars = chars_of(text);
    let n = chars.len();
    let mut ids: Vec<u32> = Vec::new();
    let mut start: usize = 0;
    let mut i: usize = 0;
    proof {
        assert(chars@.subrange(0, n as int) == chars@);
    }
    while i < n
        invariant
            start <= i <= n,
            n == chars.len(),
            forall|j: int| start <= j < i ==> chars[j] != ',',
            ids@ + ids_of_text(chars@.subrange(start as int, n as int)) == ids_of_text(chars@),
        decreases n - i,
    {
        if chars[i] == ',' {
            let ghost rest = chars@.subrange(start as int, n as int);
            let ghost held = ids@;
            proof {
                assert forall|j: int| 0 <= j < i - start implies rest[j] != ',' by {
                    assert(rest[j] == chars[start + j]);
                }
                assert(rest[i - start] == ',');
                lemma_first_comma(rest, i - start);
                assert(rest.take(i - start) =~= chars@.subrange(start as int, i as int));
                assert(rest.skip(i - start + 1) =~= chars@.subrange(i + 1, n as int));
            }
            push_entry(&chars, start, i, &mut ids);
            start = i + 1;
            proof {
                assert(ids@ + ids_of_text(chars@.subrange(start as int, n as int)) =~= held
                    + ids_of_text(rest));
            }
        }
        i += 1;
    }
    let ghost rest = chars@.subrange(start as int, n as int);
    let ghost held = ids@;
    proof {
        assert forall|j: int| 0 <= j < n - start implies rest[j] != ',' by {
            assert(rest[j] == chars[start + j]);
        }
        lemma_first_comma(rest, n - start);
    }
    push_entry(&chars, start, n, &mut ids);
    assert(text@ == chars@);
    ids
}

/// The identifiers that each wire form denotes.
pub open spec fn ids_of_form(form: TagsIdsForm) -> Seq<u32> {
    match form {
        TagsIdsForm::Absent => Seq::empty(),
        TagsIdsForm::Text(text) => ids_of_text(text@),
        TagsIdsForm::List(ids) => ids@,
    }
}

/// Turns the tag identifiers of a rule, in whichever form they came, into a
/// list. A list is taken as it is; a text is split at its commas, and the
/// entries that are no identifier, zero among them, are dropped; a missing
/// value is the empty list.
pub fn deserialize_tags_ids(form: TagsIdsForm) -> (ids: Vec<u32>)
    ensures
        ids@ == ids_of_form(form),
{
    match form {
        TagsIdsForm::Absent => Vec::new(),
        TagsIdsForm::Text(text) => parse_tags_ids(text.as_str()),
        TagsIdsForm::List(ids) => ids,
    }
}

/// Whether the identifiers grow from each rule to the next.
pub open spec fn rule_ids_ascend(rules: Seq<TagRuleView>) -> bool {
    forall|i: int, j: int|
        0 <= i < j < rules.len() ==> (#[trigger] rules[i]).id < (#[trigger] rules[j]).id
}

/// The rules after `rule` was saved: it stands at the place of its
/// identifier, instead of the rule that had that identifier, if one had.
pub open spec fn saved(rules: Seq<TagRuleView>, rule: TagRuleView) -> Seq<TagRuleView>
    decreases rules.len(),
{
    if rules.len() == 0 {
        seq![rule]
    } else if rules.last().id < rule.id {
        rules.push(rule)
    } else if rules.last().id == rule.id {
        rules.drop_last().push(rule)
    } else {
        saved(rules.drop_last(), rule).push(rules.last())
    }
}

/// The rules after each rule of a list was saved, in the order of the list.
pub open spec fn all_saved(rules: Seq<TagRuleView>) -> Seq<TagRuleView>
    decreases rules.len(),
{
    if rules.len() == 0 {
        Seq::empty()
    } else {
        saved(all_saved(rules.drop_last()), rules.last())
    }
}

/// The rules as contracts speak of them.
pub open spec fn rule_views(rules: Seq<TagRule>) -> Seq<TagRuleView> {
    rules.map_values(|rule: TagRule| rule@)
}

/// Saving puts the rule at the first place whose identifier is not below
/// its own.
proof fn lemma_saved_at(rules: Seq<TagRuleView>, rule: TagRuleView, pos: int)
    requires
        rule_ids_ascend(rules),
        0 <= pos <= rules.len(),
        forall|i: int| 0 <= i < pos ==> (#[trigger] rules[i]).id < rule.id,
        forall|i: int| pos <= i < rules.len() ==> (#[trigger] rules[i]).id >= rule.id,
    ensures
        saved(rules, rule) == if pos < rules.len() && rules[pos].id == rule.id {
            rules.update(pos, rule)
        } else {
            rules.insert(pos, rule)
        },
    decreases rules.len(),
{
    if rules.len() == 0 {
        assert(rules.insert(0, rule) =~= seq![rule]);
    } else {
        let last = rules.len() - 1;
        if rules[last].id < rule.id {
            assert(pos == rules.len());
            assert(rules.insert(pos, rule) =~= rules.push(rule));
        } else if rules[last].id == rule.id {
            if pos < last {
                assert(rules[pos].id < rules[last].id);
            }
            assert(pos == last);
            assert(rules.update(pos, rule) =~= rules.drop_last().push(rule));
        } else {
            let init = rules.drop_last();
            assert(pos <= last);
            assert forall|i: int, j: int| 0 <= i < j < init.len() implies (#[trigger] init[i]).id
                < (#[trigger] init[j]).id by {
                assert(init[i] == rules[i] && init[j] == rules[j]);
            }
            assert forall|i: int| 0 <= i < pos implies (#[trigger] init[i]).id < rule.id by {
                assert(init[i] == rules[i]);
            }
            assert forall|i: int| pos <= i < init.len() implies (#[trigger] init[i]).id
                >= rule.id by {
                assert(init[i] == rules[i]);
            }
            lemma_saved_at(init, rule, pos);
            if pos < rules.len() && rules[pos].id == rule.id {
                assert(pos < last);
                assert(init[pos] == rules[pos]);
                assert(init.update(pos, rule).push(rules[last]) =~= rules.update(pos, rule));
            } else {
                if pos < init.len() {
                    assert(init[pos] == rules[pos]);
                }
                assert(init.insert(pos, rule).push(rules[last]) =~= rules.insert(pos, rule));
            }
        }
    }
}

/// Saving a rule keeps the identifiers growing.
pub proof fn lemma_saved_ascends(rules: Seq<TagRuleView>, rule: TagRuleView)
    requires
        rule_ids_ascend(rules),
    ensures
        rule_ids_ascend(saved(rules, rule)),
        saved(rules, rule).contains(rule),
        forall|i: int|
            0 <= i < saved(rules, rule).len() ==> (#[trigger] saved(rules, rule)[i]) == rule
                || rules.contains(saved(rules, rule)[i]),
        forall|i: int|
            0 <= i < rules.len() && (#[trigger] rules[i]).id != rule.id ==> saved(
                rules,
                rule,
            ).contains(rules[i]),
    decreases rules.len(),
{
    let out = saved(rules, rule);
    if rules.len() == 0 {
        assert(out[0] == rule);
    } else {
        let last = rules.len() - 1;
        let init = rules.drop_last();
        assert forall|i: int| 0 <= i < init.len() implies init[i] == rules[i] by {}
        if rules[last].id < rule.id {
            assert(out[rules.len() as int] == rule);
            assert forall|i: int| 0 <= i < out.len() implies (#[trigger] out[i]) == rule
                || rules.contains(out[i]) by {
                if i < rules.len() {
                    assert(out[i] == rules[i]);
                }
            }
            assert forall|i: int| 0 <= i < rules.len() && (#[trigger] rules[i]).id
                != rule.id implies out.contains(rules[i]) by {
                assert(out[i] == rules[i]);
            }
            assert forall|i: int, j: int| 0 <= i < j < out.len() implies (#[trigger] out[i]).id
                < (#[trigger] out[j]).id by {
                assert(out[i] == rules[i]);
                if j < rules.len() {
                    assert(out[j] == rules[j]);
                } else if i < last {
                    assert(rules[i].id < rules[last].id);
                }
            }
        } else if rules[last].id == rule.id {
            assert(out[last] == rule);
            assert forall|i: int| 0 <= i < out.len() implies (#[trigger] out[i]) == rule
                || rules.contains(out[i]) by {
                if i < last {
                    assert(out[i] == rules[i]);
                }
            }
            assert forall|i: int| 0 <= i < rules.len() && (#[trigger] rules[i]).id
                != rule.id implies out.contains(rules[i]) by {
                assert(out[i] == rules[i]);
            }
            assert forall|i: int, j: int| 0 <= i < j < out.len() implies (#[trigger] out[i]).id
                < (#[trigger] out[j]).id by {
                assert(out[i] == rules[i]);
                assert(rules[i].id < rules[j].id);
            }
        } else {
            let inner = saved(init, rule);
            assert forall|i: int, j: int| 0 <= i < j < init.len() implies (#[trigger] init[i]).id
                < (#[trigger] init[j]).id by {
                assert(init[i] == rules[i] && init[j] == rules[j]);
            }
            lemma_saved_ascends(init, rule);
            let at = choose|at: int| 0 <= at < inner.len() && inner[at] == rule;
            assert(out[at] == rule);
            assert forall|i: int| 0 <= i < out.len() implies (#[trigger] out[i]) == rule
                || rules.contains(out[i]) by {
                if i < inner.len() {
                    assert(out[i] == inner[i]);
                    if inner[i] != rule {
                        let k = choose|k: int| 0 <= k < init.len() && init[k] == inner[i];
                        assert(rules[k] == inner[i]);
                    }
                } else {
                    assert(out[i] == rules[last]);
                }
            }
            assert forall|i: int| 0 <= i < rules.len() && (#[trigger] rules[i]).id
                != rule.id implies out.contains(rules[i]) by {
                if i < last {
                    assert(init[i] == rules[i]);
                    assert(inner.contains(init[i]));
                    let k = choose|k: int| 0 <= k < inner.len() && inner[k] == init[i];
                    assert(out[k] == rules[i]);
                } else {
                    assert(out[inner.len() as int] == rules[last]);
                }
            }
            assert forall|i: int, j: int| 0 <= i < j < out.len() implies (#[trigger] out[i]).id
                < (#[trigger] out[j]).id by {
                assert(out[i] == inner[i]);
                if j < inner.len() {
                    assert(out[j] == inner[j]);
                } else {
                    assert(out[j] == rules[last]);
                    if inner[i] != rule {
                        let k = choose|k: int| 0 <= k < init.len() && init[k] == inner[i];
                        assert(rules[k].id < rules[last].id);
                    }
                }
            }
        }
    }
}

/// The rules of the user, in the order of their identifiers, each
/// identifier once. This is the order in which a pass tries them.
pub struct RuleSet {
    rules: Vec<TagRule>,
}

impl View for RuleSet {
    type V = Seq<TagRuleView>;

    closed spec fn view(&self) -> Seq<TagRuleView> {
        rule_views(self.rules@)
    }
}

impl RuleSet {
    #[verifier::type_invariant]
    spec fn in_order(self) -> bool {
        rule_ids_ascend(rule_views(self.rules@))
    }

    /// No rules.
    pub fn new() -> (set: RuleSet)
        ensures
            set@ == Seq::<TagRuleView>::empty(),
    {
        let set = RuleSet { rules: Vec::new() };
        assert(set@ =~= Seq::<TagRuleView>::empty());
        set
    }

    /// The rules of a list, each saved in turn: of two rules with one
    /// identifier the later stays.
    pub fn from_rules(rules: Vec<TagRule>) -> (set: RuleSet)
        ensures
            set@ == all_saved(rule_views(rules@)),
            rule_ids_ascend(set@),
    {
        let ghost views = rule_views(rules@);
        let mut set = RuleSet::new();
        for rule in it: rules
            invariant
                it.seq() == rules@,
                views == rule_views(rules@),
                set@ == all_saved(views.take(it.index())),
                rule_ids_ascend(set@),
        {
            proof {
                let next = views.take(it.index() + 1);
                assert(next.drop_last() =~= views.take(it.index()));
                assert(next.last() == rule@);
            }
            set.save(rule);
        }
        assert(views.take(rules@.len() as int) == views);
        set
    }

    /// Saves a rule: a new identifier adds it, a known one puts it in the
    /// place of the rule that had it.
    pub fn save(&mut self, rule: TagRule)
        ensures
            final(self)@ == saved(old(self)@, rule@),
            rule_ids_ascend(final(self)@),
    {
        proof {
            use_type_invariant(&*self);
        }
        let ghost before = self@;
        let mut rules: Vec<TagRule> = Vec::new();
        std::mem::swap(&mut self.rules, &mut rules);
        let mut pos: usize = rules.len();
        while pos > 0 && rules[pos - 1].id >= rule.id
            invariant
                pos <= rules.len(),
                before == rule_views(rules@),
                forall|i: int| pos <= i < rules.len() ==> (#[trigger] before[i]).id >= rule.id,
            decreases pos,
        {
            pos -= 1;
        }
        proof {
            assert forall|i: int| 0 <= i < pos implies (#[trigger] before[i]).id < rule.id by {
                assert(before[pos - 1] == rules[pos - 1]@);
                if i < pos - 1 {
                    assert(before[i].id < before[pos - 1].id);
                }
            }
            lemma_saved_at(before, rule@, pos as int);
            lemma_saved_ascends(before, rule@);
        }
        if pos < rules.len() && rules[pos].id == rule.id {
            assert(before[pos as int] == rules[pos as int]@);
            rules.set(pos, rule);
            assert(rule_views(rules@) =~= before.update(pos as int, rule@));
        } else {
            if pos < rules.len() {
                assert(before[pos as int] == rules[pos as int]@);
            }
            rules.insert(pos, rule);
            assert(rule_views(rules@) =~= before.insert(pos as int, rule@));
        }
        self.rules = rules;
    }

    /// The number of rules.
    pub fn len(&self) -> (n: usize)
        ensures
            n == self@.len(),
    {
        self.rules.len()
    }

    /// The rules, in the order of their identifiers.
    pub fn rules(&self) -> (rules: &Vec<TagRule>)
        ensures
            rule_views(rules@) == self@,
            rule_ids_ascend(self@),
    {
        proof {
            use_type_invariant(self);
        }
        &self.rules
    }
}

} // verus!
