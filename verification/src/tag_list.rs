//! Lists of tag identifiers that stand for sets.

use vstd::prelude::*;

verus! {

/// Adding an element at the end of a list adds it to the set.
pub proof fn lemma_push_to_set(list: Seq<u32>, tag: u32)
    ensures
        list.push(tag).to_set() == list.to_set().insert(tag),
{
    let longer = list.push(tag);
    assert forall|x: u32| longer.to_set().contains(x) <==> list.to_set().insert(tag).contains(
        x,
    ) by {
        if longer.contains(x) {
            let i = choose|i: int| 0 <= i < longer.len() && longer[i] == x;
            if i < list.len() {
                assert(list[i] == x);
            }
        }
        if list.contains(x) {
            let i = choose|i: int| 0 <= i < list.len() && list[i] == x;
            assert(longer[i] == x);
        }
        if x == tag {
            assert(longer[list.len() as int] == x);
        }
    }
    assert(longer.to_set() =~= list.to_set().insert(tag));
}

/// Whether `tag` is in the list.
pub fn contains_tag(list: &Vec<u32>, tag: u32) -> (b: bool)
    ensures
        b == list@.to_set().contains(tag),
{
    let mut i: usize = 0;
    while i < list.len()
        invariant
            i <= list.len(),
            forall|j: int| 0 <= j < i ==> list[j] != tag,
        decreases list.len() - i,
    {
        if list[i] == tag {
            assert(list@.contains(tag));
            return true;
        }
        i += 1;
    }
    false
}

/// Whether every tag of `wanted` is in the list.
pub fn contains_all_tags(list: &Vec<u32>, wanted: &Vec<u32>) -> (b: bool)
    ensures
        b == wanted@.to_set().subset_of(list@.to_set()),
{
    let mut i: usize = 0;
    while i < wanted.len()
        invariant
            i <= wanted.len(),
            forall|j: int| 0 <= j < i ==> list@.to_set().contains(#[trigger] wanted[j]),
        decreases wanted.len() - i,
    {
        if !contains_tag(list, wanted[i]) {
            assert(wanted@.contains(wanted[i as int]));
            return false;
        }
        i += 1;
    }
    assert forall|x: u32| wanted@.to_set().contains(x) implies list@.to_set().contains(x) by {
        let j = choose|j: int| 0 <= j < wanted.len() && wanted[j] == x;
        assert(list@.to_set().contains(wanted[j]));
    }
    true
}

/// Puts `tag` at the end of the list unless the list has it.
pub fn insert_tag(list: &mut Vec<u32>, tag: u32)
    ensures
        final(list)@.to_set() == old(list)@.to_set().insert(tag),
        old(list)@.is_prefix_of(final(list)@),
        old(list)@.no_duplicates() ==> final(list)@.no_duplicates(),
        old(list)@.to_set().contains(tag) ==> final(list)@ == old(list)@,
{
    if !contains_tag(list, tag) {
        list.push(tag);
        proof {
            lemma_push_to_set(old(list)@, tag);
            if old(list)@.no_duplicates() {
                assert forall|i: int, j: int|
                    0 <= i < list.len() && 0 <= j < list.len() && i != j implies list[i]
                    != list[j] by {
                    if i < old(list).len() {
                        assert(old(list)@.contains(list[i]));
                    }
                    if j < old(list).len() {
                        assert(old(list)@.contains(list[j]));
                    }
                }
            }
        }
    } else {
        assert(list@.to_set() =~= old(list)@.to_set().insert(tag));
    }
}

/// Puts each tag of `extra` that the list lacks at its end, in order.
pub fn insert_tags(list: &mut Vec<u32>, extra: &Vec<u32>)
    ensures
        final(list)@.to_set() == old(list)@.to_set().union(extra@.to_set()),
        old(list)@.is_prefix_of(final(list)@),
        old(list)@.no_duplicates() ==> final(list)@.no_duplicates(),
        extra@.to_set().subset_of(old(list)@.to_set()) ==> final(list)@ == old(list)@,
{
    let mut i: usize = 0;
    proof {
        assert(extra@.take(0).to_set() =~= Set::<u32>::empty());
        assert(list@.to_set().union(Set::<u32>::empty()) =~= list@.to_set());
    }
    while i < extra.len()
        invariant
            i <= extra.len(),
            list@.to_set() == old(list)@.to_set().union(extra@.take(i as int).to_set()),
            old(list)@.is_prefix_of(list@),
            old(list)@.no_duplicates() ==> list@.no_duplicates(),
            extra@.to_set().subset_of(old(list)@.to_set()) ==> list@ == old(list)@,
        decreases extra.len() - i,
    {
        insert_tag(list, extra[i]);
        proof {
            assert(extra@.contains(extra[i as int]));
            assert(extra@.take(i + 1) =~= extra@.take(i as int).push(extra[i as int]));
            lemma_push_to_set(extra@.take(i as int), extra[i as int]);
            assert(list@.to_set() =~= old(list)@.to_set().union(extra@.take(i + 1).to_set()));
        }
        i += 1;
    }
    assert(extra@.take(extra.len() as int) == extra@);
}

} // verus!
