//! Characters and text: whitespace, case folding, label normalization,
//! decimal numbers and substring search.

use vstd::prelude::*;

verus! {

/// `String::push` appends the character to the end of the string.
pub assume_specification[ String::push ](s: &mut String, c: char)
    ensures
        final(s)@ == old(s)@.push(c),
;

/// The whitespace characters: space, tab, line feed, vertical tab, form feed
/// and carriage return.
pub open spec fn is_space(c: char) -> bool {
    c == ' ' || c == '\t' || c == '\n' || c == '\u{0B}' || c == '\u{0C}' || c == '\r'
}

pub fn is_space_char(c: char) -> (b: bool)
    ensures
        b == is_space(c),
{
    c == ' ' || c == '\t' || c == '\n' || c == '\u{0B}' || c == '\u{0C}' || c == '\r'
}

/// Case folding of one character: the letters `A` to `Z` become `a` to `z`,
/// every other character stays as it is.
pub open spec fn fold_char(c: char) -> char {
    if 'A' <= c && c <= 'Z' {
        ((c as u8) + 32) as char
    } else {
        c
    }
}

pub fn fold(c: char) -> (r: char)
    ensures
        r == fold_char(c),
{
    if 'A' <= c && c <= 'Z' {
        ((c as u8) + 32) as char
    } else {
        c
    }
}

/// Case folding of a text, character by character.
pub open spec fn fold_case(s: Seq<char>) -> Seq<char> {
    Seq::new(s.len(), |i: int| fold_char(s[i]))
}

/// The characters of `s`, in order.
pub fn chars_of(s: &str) -> (v: Vec<char>)
    ensures
        v@ == s@,
{
    let mut v: Vec<char> = Vec::new();
    for c in it: s.chars()
        invariant
            it.seq() == s@,
            v@ == it.seq().take(it.index()),
    {
        v.push(c);
    }
    v
}

/// The characters of `s`, case-folded.
pub fn folded_chars(s: &str) -> (v: Vec<char>)
    ensures
        v@ == fold_case(s@),
{
    let mut v: Vec<char> = Vec::new();
    for c in it: s.chars()
        invariant
            it.seq() == s@,
            v@ == fold_case(it.seq().take(it.index())),
    {
        v.push(fold(c));
        assert(v@ =~= fold_case(it.seq().take(it.index() + 1)));
    }
    assert(s@.take(s@.len() as int) == s@);
    v
}

/// The canonical form of a label: whitespace at both ends is dropped, every
/// run of whitespace inside becomes one space, and letters are case-folded.
pub open spec fn normalized(s: Seq<char>) -> Seq<char>
    decreases s.len(),
{
    if s.len() == 0 {
        Seq::empty()
    } else {
        let head = normalized(s.drop_last());
        let c = s.last();
        if is_space(c) {
            head
        } else if head.len() > 0 && is_space(s[s.len() - 2]) {
            head.push(' ').push(fold_char(c))
        } else {
            head.push(fold_char(c))
        }
    }
}

/// Brings a label into its canonical form.
pub fn normalize(label: &str) -> (out: String)
    ensures
        out@ == normalized(label@),
{
    let mut out = String::new();
    let mut gap = false;
    let mut blank = true;
    for c in it: label.chars()
        invariant
            it.seq() == label@,
            out@ == normalized(label@.take(it.index())),
            gap == (it.index() > 0 && is_space(label@[it.index() - 1])),
            blank == (out@.len() == 0),
    {
        proof {
            let next = label@.take(it.index() + 1);
            assert(next.drop_last() == label@.take(it.index()));
            assert(next.last() == c);
            if it.index() > 0 {
                assert(next[next.len() - 2] == label@[it.index() - 1]);
            }
        }
        if is_space_char(c) {
            gap = true;
        } else {
            if gap && !blank {
                out.push(' ');
            }
            out.push(fold(c));
            gap = false;
            blank = false;
        }
    }
    assert(label@.take(label@.len() as int) == label@);
    out
}

/// Whether a text is in canonical form: no letter left to fold, and no
/// whitespace but single spaces that stand between two other characters.
pub open spec fn is_normal(s: Seq<char>) -> bool {
    forall|i: int|
        0 <= i < s.len() ==> {
            &&& fold_char(#[trigger] s[i]) == s[i]
            &&& (is_space(s[i]) ==> s[i] == ' ' && 0 < i < s.len() - 1 && !is_space(s[i - 1]))
        }
}

/// A canonical form neither begins nor ends with whitespace, and is at most
/// twice as long as the text it came from.
pub proof fn lemma_normalized_end(s: Seq<char>)
    ensures
        normalized(s).len() > 0 ==> !is_space(normalized(s).last()),
        normalized(s).len() > 0 ==> !is_space(normalized(s)[0]),
        normalized(s).len() <= 2 * s.len(),
    decreases s.len(),
{
    if s.len() > 0 {
        lemma_normalized_end(s.drop_last());
    }
}

/// Normalizing yields a text in canonical form.
pub proof fn lemma_normalized_is_normal(s: Seq<char>)
    ensures
        is_normal(normalized(s)),
    decreases s.len(),
{
    if s.len() > 0 {
        let head = normalized(s.drop_last());
        lemma_normalized_is_normal(s.drop_last());
        lemma_normalized_end(s.drop_last());
        let c = s.last();
        if !is_space(c) {
            let out = normalized(s);
            assert forall|i: int| 0 <= i < out.len() implies {
                &&& fold_char(#[trigger] out[i]) == out[i]
                &&& (is_space(out[i]) ==> out[i] == ' ' && 0 < i < out.len() - 1 && !is_space(
                    out[i - 1],
                ))
            } by {
                if i < head.len() {
                    assert(out[i] == head[i]);
                    if is_space(head[i]) {
                        assert(out[i - 1] == head[i - 1]);
                    }
                }
            }
        }
    }
}

/// A text in canonical form is its own canonical form: normalizing never
/// merges two different canonical labels.
pub proof fn lemma_normal_is_fixed(s: Seq<char>)
    requires
        is_normal(s),
    ensures
        normalized(s) == s,
    decreases s.len(),
{
    if s.len() > 0 {
        let init = s.drop_last();
        let c = s.last();
        assert(!is_space(c)) by {
            assert(s[s.len() - 1] == c);
        }
        if init.len() > 0 && is_space(init.last()) {
            // the space before the last character is dropped first
            let core = init.drop_last();
            assert(s[s.len() - 2] == init.last());
            assert(init.len() >= 2);
            assert(!is_space(s[s.len() - 3]));
            assert(is_normal(core)) by {
                assert forall|i: int| 0 <= i < core.len() implies {
                    &&& fold_char(#[trigger] core[i]) == core[i]
                    &&& (is_space(core[i]) ==> core[i] == ' ' && 0 < i < core.len() - 1
                        && !is_space(core[i - 1]))
                } by {
                    assert(core[i] == s[i]);
                    if is_space(core[i]) {
                        assert(core[i - 1] == s[i - 1]);
                        assert(i != core.len() - 1) by {
                            assert(s[s.len() - 3] == core[core.len() - 1]);
                        }
                    }
                }
            }
            lemma_normal_is_fixed(core);
            assert(normalized(init) == core);
            assert(core.len() > 0);
            assert(normalized(s) == core.push(' ').push(fold_char(c)));
            assert(fold_char(c) == c);
            assert(init.last() == ' ');
            assert(core.push(' ').push(c) =~= s);
        } else {
            assert(is_normal(init)) by {
                assert forall|i: int| 0 <= i < init.len() implies {
                    &&& fold_char(#[trigger] init[i]) == init[i]
                    &&& (is_space(init[i]) ==> init[i] == ' ' && 0 < i < init.len() - 1
                        && !is_space(init[i - 1]))
                } by {
                    assert(init[i] == s[i]);
                    if is_space(init[i]) {
                        assert(init[i - 1] == s[i - 1]);
                    }
                }
            }
            lemma_normal_is_fixed(init);
            assert(fold_char(c) == c);
            if init.len() > 0 {
                assert(s[s.len() - 2] == init.last());
            }
            assert(init.push(c) =~= s);
        }
    } else {
        assert(s =~= Seq::<char>::empty());
    }
}

/// Normalizing twice is normalizing once.
pub proof fn lemma_normalized_idempotent(s: Seq<char>)
    ensures
        normalized(normalized(s)) == normalized(s),
{
    lemma_normalized_is_normal(s);
    lemma_normal_is_fixed(normalized(s));
}

/// The canonical form does not depend on the case of the letters.
pub proof fn lemma_normalized_ignores_case(s: Seq<char>)
    ensures
        normalized(fold_case(s)) == normalized(s),
    decreases s.len(),
{
    let f = fold_case(s);
    if s.len() > 0 {
        assert(f.drop_last() =~= fold_case(s.drop_last()));
        lemma_normalized_ignores_case(s.drop_last());
        assert(f.last() == fold_char(s.last()));
        if s.len() >= 2 {
            assert(f[f.len() - 2] == fold_char(s[s.len() - 2]));
        }
    }
}

/// Whether every character of `s` is whitespace.
pub open spec fn all_space(s: Seq<char>) -> bool {
    forall|i: int| 0 <= i < s.len() ==> is_space(#[trigger] s[i])
}

/// Whitespace at the end of a text leaves its canonical form as it is.
pub proof fn lemma_normalized_ignores_trailing(s: Seq<char>, pad: Seq<char>)
    requires
        all_space(pad),
    ensures
        normalized(s + pad) == normalized(s),
    decreases pad.len(),
{
    if pad.len() == 0 {
        assert(s + pad =~= s);
    } else {
        assert((s + pad).drop_last() =~= s + pad.drop_last());
        assert((s + pad).last() == pad[pad.len() - 1]);
        assert(all_space(pad.drop_last())) by {
            assert forall|i: int| 0 <= i < pad.drop_last().len() implies is_space(
                #[trigger] pad.drop_last()[i],
            ) by {
                assert(pad.drop_last()[i] == pad[i]);
            }
        }
        lemma_normalized_ignores_trailing(s, pad.drop_last());
    }
}

/// Whitespace in front of a text leaves its canonical form as it is.
pub proof fn lemma_normalized_ignores_leading(pad: Seq<char>, s: Seq<char>)
    requires
        all_space(pad),
    ensures
        normalized(pad + s) == normalized(s),
    decreases s.len(),
{
    if s.len() == 0 {
        assert(pad + s =~= Seq::<char>::empty() + pad);
        lemma_normalized_ignores_trailing(Seq::<char>::empty(), pad);
    } else {
        let whole = pad + s;
        assert(whole.drop_last() =~= pad + s.drop_last());
        assert(whole.last() == s.last());
        lemma_normalized_ignores_leading(pad, s.drop_last());
        if s.len() >= 2 {
            assert(whole[whole.len() - 2] == s[s.len() - 2]);
        }
    }
}

/// Two runs of whitespace at the same place give the same canonical form,
/// whatever their lengths and their characters.
pub proof fn lemma_normalized_space_runs(
    before: Seq<char>,
    run_a: Seq<char>,
    run_b: Seq<char>,
    after: Seq<char>,
)
    requires
        run_a.len() > 0,
        run_b.len() > 0,
        all_space(run_a),
        all_space(run_b),
    ensures
        normalized(before + run_a + after) == normalized(before + run_b + after),
    decreases after.len(),
{
    let a = before + run_a + after;
    let b = before + run_b + after;
    if after.len() == 0 {
        assert(a =~= before + run_a);
        assert(b =~= before + run_b);
        lemma_normalized_ignores_trailing(before, run_a);
        lemma_normalized_ignores_trailing(before, run_b);
    } else {
        assert(a.drop_last() =~= before + run_a + after.drop_last());
        assert(b.drop_last() =~= before + run_b + after.drop_last());
        lemma_normalized_space_runs(before, run_a, run_b, after.drop_last());
        assert(a.last() == after.last());
        assert(b.last() == after.last());
        if after.len() >= 2 {
            assert(a[a.len() - 2] == after[after.len() - 2]);
            assert(b[b.len() - 2] == after[after.len() - 2]);
        } else {
            assert(a[a.len() - 2] == run_a[run_a.len() - 1]);
            assert(b[b.len() - 2] == run_b[run_b.len() - 1]);
        }
    }
}

/// Whether `c` is one of the digits `0` to `9`.
pub open spec fn is_digit(c: char) -> bool {
    '0' <= c && c <= '9'
}

/// The number that a digit stands for.
pub open spec fn digit_value(c: char) -> nat
    recommends
        is_digit(c),
{
    ((c as u8) - 48) as nat
}

/// Whether every character of `s` is a digit.
pub open spec fn all_digits(s: Seq<char>) -> bool {
    forall|i: int| 0 <= i < s.len() ==> is_digit(#[trigger] s[i])
}

/// The number that a run of digits denotes in base ten.
pub open spec fn decimal_value(s: Seq<char>) -> nat
    decreases s.len(),
{
    if s.len() == 0 {
        0
    } else {
        decimal_value(s.drop_last()) * 10 + digit_value(s.last())
    }
}

/// The number written by `s`, where `s` is a run of at least one digit that
/// denotes no more than `limit`.
pub open spec fn decimal_within(s: Seq<char>, limit: nat) -> Option<nat> {
    if s.len() > 0 && all_digits(s) && decimal_value(s) <= limit {
        Some(decimal_value(s))
    } else {
        None
    }
}

/// A run of digits denotes at least what any of its prefixes denotes.
pub proof fn lemma_decimal_value_grows(s: Seq<char>, k: int)
    requires
        0 <= k <= s.len(),
    ensures
        decimal_value(s.take(k)) <= decimal_value(s),
    decreases s.len(),
{
    if k == s.len() {
        assert(s.take(k) == s);
    } else {
        assert(s.drop_last().take(k) == s.take(k));
        lemma_decimal_value_grows(s.drop_last(), k);
    }
}

/// Ten to the power of `n`.
pub open spec fn pow10(n: nat) -> nat
    decreases n,
{
    if n == 0 {
        1
    } else {
        10 * pow10((n - 1) as nat)
    }
}

/// A run of `n` digits denotes a number below ten to the power of `n`.
pub proof fn lemma_decimal_value_bound(s: Seq<char>)
    requires
        all_digits(s),
    ensures
        decimal_value(s) < pow10(s.len()),
    decreases s.len(),
{
    if s.len() > 0 {
        assert(all_digits(s.drop_last())) by {
            assert forall|i: int| 0 <= i < s.drop_last().len() implies is_digit(
                #[trigger] s.drop_last()[i],
            ) by {
                assert(s.drop_last()[i] == s[i]);
            }
        }
        lemma_decimal_value_bound(s.drop_last());
        assert(is_digit(s[s.len() - 1]));
    }
}

pub fn is_digit_char(c: char) -> (b: bool)
    ensures
        b == is_digit(c),
{
    '0' <= c && c <= '9'
}

/// The number written in `chars` from `from` up to `to`, where that is a
/// range of the text and holds a number of at most `limit`.
pub open spec fn decimal_at(chars: Seq<char>, from: int, to: int, limit: nat) -> Option<nat> {
    if 0 <= from <= to <= chars.len() {
        decimal_within(chars.subrange(from, to), limit)
    } else {
        None
    }
}

/// Reads the characters of `chars` from `from` up to `to` as a decimal number
/// of at most `limit`.
pub fn parse_decimal(chars: &Vec<char>, from: usize, to: usize, limit: u64) -> (r: Option<u64>)
    ensures
        match r {
            Some(v) => decimal_at(chars@, from as int, to as int, limit as nat) == Some(v as nat),
            None => decimal_at(chars@, from as int, to as int, limit as nat) is None,
        },
{
    if from > to || to > chars.len() {
        return None;
    }
    let ghost whole = chars@.subrange(from as int, to as int);
    if from == to {
        return None;
    }
    let mut acc: u64 = 0;
    let mut i: usize = from;
    while i < to
        invariant
            from <= i <= to <= chars.len(),
            whole == chars@.subrange(from as int, to as int),
            all_digits(whole.take(i - from)),
            acc as nat == decimal_value(whole.take(i - from)),
            acc <= limit,
        decreases to - i,
    {
        let c = chars[i];
        let ghost seen = whole.take(i - from);
        let ghost next = whole.take(i - from + 1);
        proof {
            assert(whole[i - from] == c);
            assert(next.drop_last() == seen);
            assert(next.last() == c);
        }
        if !is_digit_char(c) {
            return None;
        }
        let d: u8 = (c as u8) - 48;
        let wide: u128 = (acc as u128) * 10 + (d as u128);
        if wide > (limit as u128) {
            proof {
                lemma_decimal_value_grows(whole, i - from + 1);
            }
            return None;
        }
        acc = wide as u64;
        i += 1;
        proof {
            assert forall|k: int| 0 <= k < next.len() implies is_digit(#[trigger] next[k]) by {
                if k < seen.len() {
                    assert(next[k] == seen[k]);
                }
            }
        }
    }
    assert(whole.take(to - from) == whole);
    Some(acc)
}

/// Whether `needle` stands in `hay` at position `at`.
pub open spec fn has_run_at(hay: Seq<char>, needle: Seq<char>, at: int) -> bool {
    0 <= at && at + needle.len() <= hay.len() && hay.subrange(at, at + needle.len()) == needle
}

/// Whether `needle` stands somewhere in `hay` as a run of adjacent
/// characters. The empty text stands in every text.
pub open spec fn has_run(hay: Seq<char>, needle: Seq<char>) -> bool {
    exists|at: int| has_run_at(hay, needle, at)
}

fn run_at(hay: &Vec<char>, needle: &Vec<char>, at: usize) -> (b: bool)
    requires
        at + needle.len() <= hay.len(),
    ensures
        b == has_run_at(hay@, needle@, at as int),
{
    let mut k: usize = 0;
    while k < needle.len()
        invariant
            k <= needle.len(),
            at + needle.len() <= hay.len(),
            forall|j: int| 0 <= j < k ==> hay[at + j] == needle[j],
        decreases needle.len() - k,
    {
        if hay[at + k] != needle[k] {
            assert(hay@.subrange(at as int, at + needle.len())[k as int] != needle[k as int]);
            return false;
        }
        k += 1;
    }
    assert(hay@.subrange(at as int, at + needle.len()) =~= needle@);
    true
}

/// Searches `hay` for `needle`.
pub fn contains_run(hay: &Vec<char>, needle: &Vec<char>) -> (b: bool)
    ensures
        b == has_run(hay@, needle@),
{
    if needle.len() > hay.len() {
        return false;
    }
    if needle.len() == 0 {
        assert(has_run_at(hay@, needle@, 0)) by {
            assert(hay@.subrange(0, 0) =~= needle@);
        }
        return true;
    }
    let last: usize = hay.len() - needle.len();
    let mut at: usize = 0;
    while at <= last
        invariant
            at <= last + 1,
            last == hay.len() - needle.len(),
            0 < needle.len() <= hay.len(),
            forall|j: int| 0 <= j < at ==> !has_run_at(hay@, needle@, j),
        decreases last + 1 - at,
    {
        if run_at(hay, needle, at) {
            return true;
        }
        at += 1;
    }
    false
}

} // verus!
