//! Counting the members of a sequence that have a property.

use vstd::prelude::*;

verus! {

/// How many members of the list have the property.
pub open spec fn count<T>(list: Seq<T>, has: spec_fn(T) -> bool) -> nat
    decreases list.len(),
{
    if list.len() == 0 {
        0
    } else {
        count(list.drop_last(), has) + if has(list.last()) {
            1nat
        } else {
            0nat
        }
    }
}

pub proof fn lemma_count_take<T>(list: Seq<T>, has: spec_fn(T) -> bool, i: int)
    requires
        0 <= i < list.len(),
    ensures
        count(list.take(i + 1), has) == count(list.take(i), has) + if has(list[i]) {
            1nat
        } else {
            0nat
        },
{
    assert(list.take(i + 1).drop_last() =~= list.take(i));
}

pub proof fn lemma_count_push<T>(list: Seq<T>, has: spec_fn(T) -> bool, item: T)
    ensures
        count(list.push(item), has) == count(list, has) + if has(item) {
            1nat
        } else {
            0nat
        },
{
    assert(list.push(item).drop_last() =~= list);
}

/// A count never exceeds the length of the list.
pub proof fn lemma_count_at_most_len<T>(list: Seq<T>, has: spec_fn(T) -> bool)
    ensures
        count(list, has) <= list.len(),
    decreases list.len(),
{
    if list.len() > 0 {
        lemma_count_at_most_len(list.drop_last(), has);
    }
}

/// Properties that agree on the members of a list have the same count.
pub proof fn lemma_count_agree<T>(list: Seq<T>, f: spec_fn(T) -> bool, g: spec_fn(T) -> bool)
    requires
        forall|i: int| 0 <= i < list.len() ==> f(#[trigger] list[i]) == g(list[i]),
    ensures
        count(list, f) == count(list, g),
    decreases list.len(),
{
    if list.len() > 0 {
        let shorter = list.drop_last();
        assert forall|i: int| 0 <= i < shorter.len() implies f(#[trigger] shorter[i]) == g(
            shorter[i],
        ) by {
            assert(shorter[i] == list[i]);
        }
        lemma_count_agree(shorter, f, g);
        assert(f(list[list.len() - 1]) == g(list[list.len() - 1]));
    }
}

pub proof fn lemma_count_remove<T>(list: Seq<T>, has: spec_fn(T) -> bool, i: int)
    requires
        0 <= i < list.len(),
    ensures
        count(list, has) == count(list.remove(i), has) + if has(list[i]) {
            1nat
        } else {
            0nat
        },
    decreases list.len(),
{
    if i == list.len() - 1 {
        assert(list.remove(i) =~= list.drop_last());
    } else {
        lemma_count_remove(list.drop_last(), has, i);
        assert(list.remove(i).drop_last() =~= list.drop_last().remove(i));
        assert(list.remove(i).last() == list.last());
    }
}

/// A count does not depend on the order of the list.
pub proof fn lemma_count_permuted<T>(a: Seq<T>, b: Seq<T>, has: spec_fn(T) -> bool)
    requires
        a.to_multiset() == b.to_multiset(),
    ensures
        count(a, has) == count(b, has),
    decreases a.len(),
{
    a.to_multiset_ensures();
    b.to_multiset_ensures();
    if a.len() > 0 {
        let n = a.len() - 1;
        assert(a.contains(a[n]));
        assert(b.to_multiset().count(a[n]) > 0);
        assert(b.contains(a[n]));
        let i = choose|i: int| 0 <= i < b.len() && b[i] == a[n];
        lemma_count_remove(a, has, n);
        lemma_count_remove(b, has, i);
        assert(a.remove(n).to_multiset() =~= b.remove(i).to_multiset());
        lemma_count_permuted(a.remove(n), b.remove(i), has);
    }
}

/// A list counts at least as many entries as there are keys that each have
/// one.
pub proof fn lemma_count_keys<V>(
    list: Seq<(Seq<u8>, V)>,
    has: spec_fn((Seq<u8>, V)) -> bool,
    keys: Set<Seq<u8>>,
)
    requires
        keys.finite(),
        forall|key: Seq<u8>| #[trigger]
            keys.contains(key) ==> exists|i: int|
                0 <= i < list.len() && (#[trigger] list[i]).0 == key && has(list[i]),
    ensures
        count(list, has) >= keys.len(),
    decreases list.len(),
{
    if list.len() == 0 {
        assert(keys =~= Set::<Seq<u8>>::empty());
    } else {
        let last = list.last();
        let shorter = list.drop_last();
        let rest = if has(last) {
            keys.remove(last.0)
        } else {
            keys
        };
        assert forall|key: Seq<u8>| #[trigger] rest.contains(key) implies exists|i: int|
            0 <= i < shorter.len() && (#[trigger] shorter[i]).0 == key && has(shorter[i]) by {
            assert(keys.contains(key));
            let i = choose|i: int|
                0 <= i < list.len() && (#[trigger] list[i]).0 == key && has(list[i]);
            assert(i < list.len() - 1);
            assert(shorter[i] == list[i]);
        }
        lemma_count_keys(shorter, has, rest);
    }
}

/// Where no two entries share a key, those with a property are no more than a
/// set that holds all their keys has members.
pub proof fn lemma_count_at_most_keys<V>(
    list: Seq<(Seq<u8>, V)>,
    has: spec_fn((Seq<u8>, V)) -> bool,
    keys: Set<Seq<u8>>,
)
    requires
        keys.finite(),
        forall|i: int, j: int|
            0 <= i < j < list.len() ==> (#[trigger] list[i]).0 != (#[trigger] list[j]).0,
        forall|i: int|
            0 <= i < list.len() && has(#[trigger] list[i]) ==> keys.contains(list[i].0),
    ensures
        count(list, has) <= keys.len(),
    decreases list.len(),
{
    if list.len() > 0 {
        let shorter = list.drop_last();
        let last = list.last();
        assert forall|i: int, j: int| 0 <= i < j < shorter.len() implies (#[trigger] shorter[i]).0
            != (#[trigger] shorter[j]).0 by {
            assert(list[i].0 != list[j].0);
        }
        if has(last) {
            let rest = keys.remove(last.0);
            assert(has(list[list.len() - 1]));
            assert forall|i: int| 0 <= i < shorter.len() && has(
                #[trigger] shorter[i],
            ) implies rest.contains(shorter[i].0) by {
                assert(list[i].0 != list[list.len() - 1].0);
            }
            lemma_count_at_most_keys(shorter, has, rest);
        } else {
            assert forall|i: int| 0 <= i < shorter.len() && has(
                #[trigger] shorter[i],
            ) implies keys.contains(shorter[i].0) by {
                assert(has(list[i]));
            }
            lemma_count_at_most_keys(shorter, has, keys);
        }
    }
}

/// What is counted is there.
pub proof fn lemma_count_witness<T>(list: Seq<T>, has: spec_fn(T) -> bool) -> (i: int)
    requires
        count(list, has) > 0,
    ensures
        0 <= i < list.len(),
        has(list[i]),
    decreases list.len(),
{
    if has(list.last()) {
        list.len() - 1
    } else {
        lemma_count_witness(list.drop_last(), has)
    }
}

/// To count is to pick out and take the length.
pub proof fn law_count_is_the_length_of_the_filter<T>(list: Seq<T>, has: spec_fn(T) -> bool)
    ensures
        count(list, has) == list.filter(has).len(),
    decreases list.len(),
{
    reveal(Seq::filter);
    if list.len() > 0 {
        law_count_is_the_length_of_the_filter(list.drop_last(), has);
    }
}

} // verus!
