//! Tables keyed by byte strings.

use crate::ids::{bytes_copy, bytes_eq};
use vstd::prelude::*;

verus! {

/// No key occurs twice in a list of entries.
pub open spec fn distinct_keys<V>(list: Seq<(Seq<u8>, V)>) -> bool {
    forall|i: int, j: int|
        0 <= i < j < list.len() ==> (#[trigger] list[i]).0 != (#[trigger] list[j]).0
}

/// Whether some entry of the list has the key.
pub open spec fn has_key<V>(list: Seq<(Seq<u8>, V)>, key: Seq<u8>) -> bool {
    exists|i: int| 0 <= i < list.len() && (#[trigger] list[i]).0 == key
}

/// The table that a list of entries with distinct keys writes down.
pub open spec fn as_table<V>(list: Seq<(Seq<u8>, V)>) -> Map<Seq<u8>, V> {
    Map::new(
        |key: Seq<u8>| has_key(list, key),
        |key: Seq<u8>| list[choose|i: int| 0 <= i < list.len() && (#[trigger] list[i]).0 == key].1,
    )
}

pub proof fn lemma_entry<V>(list: Seq<(Seq<u8>, V)>, i: int)
    requires
        distinct_keys(list),
        0 <= i < list.len(),
    ensures
        as_table(list).contains_key(list[i].0),
        as_table(list)[list[i].0] == list[i].1,
{
    let key = list[i].0;
    assert(has_key(list, key));
    let j = choose|j: int| 0 <= j < list.len() && (#[trigger] list[j]).0 == key;
    if i < j {
        assert(list[i].0 != list[j].0);
    } else if j < i {
        assert(list[j].0 != list[i].0);
    }
}

pub proof fn lemma_push<V>(list: Seq<(Seq<u8>, V)>, key: Seq<u8>, value: V)
    requires
        distinct_keys(list),
        !has_key(list, key),
    ensures
        distinct_keys(list.push((key, value))),
        as_table(list.push((key, value))) == as_table(list).insert(key, value),
{
    let longer = list.push((key, value));
    assert forall|i: int, j: int| 0 <= i < j < longer.len() implies (#[trigger] longer[i]).0 != (
    #[trigger] longer[j]).0 by {
        if j < list.len() {
            assert(list[i].0 != list[j].0);
        } else {
            assert(list[i].0 != key);
        }
    }
    assert forall|k: Seq<u8>| has_key(longer, k) == (has_key(list, k) || k == key) by {
        if has_key(longer, k) {
            let i = choose|i: int| 0 <= i < longer.len() && (#[trigger] longer[i]).0 == k;
            if i < list.len() {
                assert(list[i].0 == k);
            }
        }
        if has_key(list, k) {
            let i = choose|i: int| 0 <= i < list.len() && (#[trigger] list[i]).0 == k;
            assert(longer[i].0 == k);
        }
        if k == key {
            assert(longer[list.len() as int].0 == k);
        }
    }
    assert forall|k: Seq<u8>| has_key(longer, k) implies as_table(longer)[k] == as_table(
        list,
    ).insert(key, value)[k] by {
        if k == key {
            lemma_entry(longer, list.len() as int);
        } else {
            let i = choose|i: int| 0 <= i < list.len() && (#[trigger] list[i]).0 == k;
            assert(longer[i] == list[i]);
            lemma_entry(list, i);
            lemma_entry(longer, i);
        }
    }
    assert(as_table(longer) =~= as_table(list).insert(key, value));
}

pub proof fn lemma_update<V>(list: Seq<(Seq<u8>, V)>, i: int, value: V)
    requires
        distinct_keys(list),
        0 <= i < list.len(),
    ensures
        distinct_keys(list.update(i, (list[i].0, value))),
        as_table(list.update(i, (list[i].0, value))) == as_table(list).insert(list[i].0, value),
{
    let key = list[i].0;
    let changed = list.update(i, (key, value));
    assert forall|j: int| 0 <= j < list.len() implies (#[trigger] changed[j]).0 == list[j].0 by {}
    assert forall|a: int, b: int| 0 <= a < b < changed.len() implies (#[trigger] changed[a]).0 != (
    #[trigger] changed[b]).0 by {
        assert(list[a].0 != list[b].0);
    }
    assert forall|k: Seq<u8>| has_key(changed, k) == has_key(list, k) by {
        if has_key(changed, k) {
            let j = choose|j: int| 0 <= j < changed.len() && (#[trigger] changed[j]).0 == k;
            assert(list[j].0 == k);
        }
        if has_key(list, k) {
            let j = choose|j: int| 0 <= j < list.len() && (#[trigger] list[j]).0 == k;
            assert(changed[j].0 == k);
        }
    }
    lemma_entry(list, i);
    assert forall|k: Seq<u8>| has_key(list, k) implies as_table(changed)[k] == as_table(
        list,
    ).insert(key, value)[k] by {
        let j = choose|j: int| 0 <= j < list.len() && (#[trigger] list[j]).0 == k;
        lemma_entry(list, j);
        lemma_entry(changed, j);
    }
    assert(as_table(changed) =~= as_table(list).insert(key, value));
}

pub proof fn lemma_remove<V>(list: Seq<(Seq<u8>, V)>, i: int)
    requires
        distinct_keys(list),
        0 <= i < list.len(),
    ensures
        distinct_keys(list.remove(i)),
        as_table(list.remove(i)) == as_table(list).remove(list[i].0),
{
    let key = list[i].0;
    let rest = list.remove(i);
    assert forall|a: int, b: int| 0 <= a < b < rest.len() implies (#[trigger] rest[a]).0 != (
    #[trigger] rest[b]).0 by {
        let a0 = if a < i { a } else { a + 1 };
        let b0 = if b < i { b } else { b + 1 };
        assert(rest[a] == list[a0] && rest[b] == list[b0]);
        assert(list[a0].0 != list[b0].0);
    }
    assert forall|k: Seq<u8>| has_key(rest, k) == (has_key(list, k) && k != key) by {
        if has_key(rest, k) {
            let a = choose|a: int| 0 <= a < rest.len() && (#[trigger] rest[a]).0 == k;
            let a0 = if a < i { a } else { a + 1 };
            assert(rest[a] == list[a0]);
            if a0 < i {
                assert(list[a0].0 != list[i].0);
            } else {
                assert(list[i].0 != list[a0].0);
            }
        }
        if has_key(list, k) && k != key {
            let a0 = choose|a: int| 0 <= a < list.len() && (#[trigger] list[a]).0 == k;
            let a = if a0 < i { a0 } else { a0 - 1 };
            assert(rest[a] == list[a0]);
        }
    }
    assert forall|k: Seq<u8>| has_key(rest, k) implies as_table(rest)[k] == as_table(list)[k] by {
        let a = choose|a: int| 0 <= a < rest.len() && (#[trigger] rest[a]).0 == k;
        let a0 = if a < i { a } else { a + 1 };
        assert(rest[a] == list[a0]);
        lemma_entry(rest, a);
        lemma_entry(list, a0);
    }
    assert(as_table(rest) =~= as_table(list).remove(key));
}

/// The list with every value replaced by its image.
pub open spec fn with_values<V>(list: Seq<(Seq<u8>, V)>, image: spec_fn(V) -> V) -> Seq<
    (Seq<u8>, V),
> {
    Seq::new(list.len(), |i: int| (list[i].0, image(list[i].1)))
}

/// Replacing the values of a list replaces those of the table.
pub proof fn lemma_with_values<V>(list: Seq<(Seq<u8>, V)>, image: spec_fn(V) -> V)
    requires
        distinct_keys(list),
    ensures
        as_table(with_values(list, image)) == as_table(list).map_values(image),
{
    let mapped = with_values(list, image);
    assert forall|i: int, j: int| 0 <= i < j < mapped.len() implies (#[trigger] mapped[i]).0 != (
    #[trigger] mapped[j]).0 by {
        assert(list[i].0 != list[j].0);
    }
    assert forall|key: Seq<u8>| has_key(mapped, key) == has_key(list, key) by {
        if has_key(mapped, key) {
            let i = choose|i: int| 0 <= i < mapped.len() && (#[trigger] mapped[i]).0 == key;
            assert(list[i].0 == key);
        }
        if has_key(list, key) {
            let i = choose|i: int| 0 <= i < list.len() && (#[trigger] list[i]).0 == key;
            assert(mapped[i].0 == key);
        }
    }
    assert forall|key: Seq<u8>| has_key(list, key) implies as_table(mapped)[key] == image(
        as_table(list)[key],
    ) by {
        let i = choose|i: int| 0 <= i < list.len() && (#[trigger] list[i]).0 == key;
        lemma_entry(list, i);
        lemma_entry(mapped, i);
    }
    assert(as_table(mapped) =~= as_table(list).map_values(image));
}

/// Filtering the entries of a list keeps the keys distinct and restricts the
/// table to the entries that pass.
pub proof fn lemma_filter<V>(list: Seq<(Seq<u8>, V)>, pass: spec_fn((Seq<u8>, V)) -> bool)
    requires
        distinct_keys(list),
    ensures
        distinct_keys(list.filter(pass)),
        as_table(list.filter(pass)) == as_table(list).restrict(
            Set::new(
                |key: Seq<u8>|
                    as_table(list).contains_key(key) && pass((key, as_table(list)[key])),
            ),
        ),
    decreases list.len(),
{
    let kept = list.filter(pass);
    let whole = as_table(list);
    lemma_filter_distinct(list, pass);
    assert forall|i: int| 0 <= i < kept.len() implies pass(#[trigger] kept[i]) && list.contains(
        kept[i],
    ) by {
        list.lemma_filter_pred(pass, i);
        assert(kept.contains(kept[i]));
        list.lemma_filter_contains_rev(pass, kept[i]);
    }
    assert forall|key: Seq<u8>|
        has_key(kept, key) == (whole.contains_key(key) && pass((key, whole[key]))) by {
        if has_key(kept, key) {
            let i = choose|i: int| 0 <= i < kept.len() && (#[trigger] kept[i]).0 == key;
            let j = choose|j: int| 0 <= j < list.len() && list[j] == kept[i];
            lemma_entry(list, j);
        }
        if whole.contains_key(key) && pass((key, whole[key])) {
            let j = choose|j: int| 0 <= j < list.len() && (#[trigger] list[j]).0 == key;
            lemma_entry(list, j);
            assert(list[j] == (key, whole[key]));
            list.lemma_filter_contains(pass, j);
            let i = choose|i: int| 0 <= i < kept.len() && kept[i] == list[j];
            assert(kept[i].0 == key);
        }
    }
    assert forall|key: Seq<u8>| has_key(kept, key) implies as_table(kept)[key] == whole[key] by {
        let i = choose|i: int| 0 <= i < kept.len() && (#[trigger] kept[i]).0 == key;
        let j = choose|j: int| 0 <= j < list.len() && list[j] == kept[i];
        lemma_entry(list, j);
        lemma_entry(kept, i);
    }
    assert(as_table(kept) =~= whole.restrict(
        Set::new(|key: Seq<u8>| whole.contains_key(key) && pass((key, whole[key]))),
    ));
}

proof fn lemma_filter_distinct<V>(list: Seq<(Seq<u8>, V)>, pass: spec_fn((Seq<u8>, V)) -> bool)
    requires
        distinct_keys(list),
    ensures
        distinct_keys(list.filter(pass)),
    decreases list.len(),
{
    reveal(Seq::filter);
    if list.len() > 0 {
        let shorter = list.drop_last();
        assert forall|i: int, j: int| 0 <= i < j < shorter.len() implies (#[trigger] shorter[i]).0
            != (#[trigger] shorter[j]).0 by {
            assert(list[i].0 != list[j].0);
        }
        lemma_filter_distinct(shorter, pass);
        let kept = shorter.filter(pass);
        if pass(list.last()) && has_key(kept, list.last().0) {
            let i = choose|i: int| 0 <= i < kept.len() && (#[trigger] kept[i]).0 == list.last().0;
            assert(kept.contains(kept[i]));
            shorter.lemma_filter_contains_rev(pass, kept[i]);
            let j = choose|j: int| 0 <= j < shorter.len() && shorter[j] == kept[i];
            assert(list[j].0 != list[list.len() - 1].0);
        }
        if pass(list.last()) {
            lemma_push(kept, list.last().0, list.last().1);
            assert(kept.push((list.last().0, list.last().1)) =~= list.filter(pass));
        }
    }
}

/// The list with a value for a key: in the key's place if it has one, and at the
/// end otherwise.
pub open spec fn with_entry<V>(list: Seq<(Seq<u8>, V)>, key: Seq<u8>, value: V) -> Seq<
    (Seq<u8>, V),
> {
    if has_key(list, key) {
        Seq::new(
            list.len(),
            |i: int|
                if list[i].0 == key {
                    (key, value)
                } else {
                    list[i]
                },
        )
    } else {
        list.push((key, value))
    }
}

/// Being an entry of another key.
pub open spec fn of_another<V>(key: Seq<u8>) -> spec_fn((Seq<u8>, V)) -> bool {
    |entry: (Seq<u8>, V)| entry.0 != key
}

/// The list without a key, the rest in the order in which it was.
pub open spec fn without_key<V>(list: Seq<(Seq<u8>, V)>, key: Seq<u8>) -> Seq<(Seq<u8>, V)> {
    list.filter(of_another(key))
}

/// The list brought in line with a table on one key.
pub open spec fn relisted<V>(
    list: Seq<(Seq<u8>, V)>,
    key: Seq<u8>,
    table: Map<Seq<u8>, V>,
) -> Seq<(Seq<u8>, V)> {
    if table.contains_key(key) {
        with_entry(list, key, table[key])
    } else {
        without_key(list, key)
    }
}

/// A value for a key that is listed takes the place of the one it had.
pub proof fn law_known_keys_keep_their_place<V>(list: Seq<(Seq<u8>, V)>, i: int, value: V)
    requires
        distinct_keys(list),
        0 <= i < list.len(),
    ensures
        with_entry(list, list[i].0, value) == list.update(i, (list[i].0, value)),
{
    let key = list[i].0;
    assert(has_key(list, key));
    assert forall|j: int| 0 <= j < list.len() && j != i implies (#[trigger] list[j]).0 != key by {
        if j < i {
            assert(list[j].0 != list[i].0);
        } else {
            assert(list[i].0 != list[j].0);
        }
    }
    assert(with_entry(list, key, value) =~= list.update(i, (key, value)));
}

/// Taking out a key that is not listed changes nothing.
pub proof fn law_unknown_keys_are_not_taken_out<V>(list: Seq<(Seq<u8>, V)>, key: Seq<u8>)
    requires
        !has_key(list, key),
    ensures
        without_key(list, key) == list,
    decreases list.len(),
{
    reveal(Seq::filter);
    if list.len() > 0 {
        let shorter = list.drop_last();
        assert(!has_key(shorter, key)) by {
            if has_key(shorter, key) {
                let i = choose|i: int| 0 <= i < shorter.len() && (#[trigger] shorter[i]).0 == key;
                assert(list[i].0 == key);
            }
        }
        law_unknown_keys_are_not_taken_out(shorter, key);
        assert(list[list.len() - 1].0 != key);
    }
    assert(without_key(list, key) =~= list);
}

/// Taking out a key takes out its entry, and the others close up.
pub proof fn law_listed_keys_are_taken_out<V>(list: Seq<(Seq<u8>, V)>, i: int)
    requires
        distinct_keys(list),
        0 <= i < list.len(),
    ensures
        without_key(list, list[i].0) == list.remove(i),
    decreases list.len(),
{
    reveal(Seq::filter);
    let key = list[i].0;
    let shorter = list.drop_last();
    assert forall|a: int, b: int| 0 <= a < b < shorter.len() implies (#[trigger] shorter[a]).0 != (
    #[trigger] shorter[b]).0 by {
        assert(list[a].0 != list[b].0);
    }
    if i == list.len() - 1 {
        assert(!has_key(shorter, key)) by {
            if has_key(shorter, key) {
                let j = choose|j: int| 0 <= j < shorter.len() && (#[trigger] shorter[j]).0 == key;
                assert(list[j].0 != list[i].0);
            }
        }
        law_unknown_keys_are_not_taken_out(shorter, key);
        assert(list.remove(i) =~= shorter);
    } else {
        law_listed_keys_are_taken_out(shorter, i);
        assert(list[i].0 != list[list.len() - 1].0);
        assert(list.remove(i) =~= shorter.remove(i).push(list.last()));
    }
}

/// A value for a key that is not listed comes last.
pub proof fn law_new_keys_come_last<V>(list: Seq<(Seq<u8>, V)>, key: Seq<u8>, value: V)
    requires
        forall|i: int| 0 <= i < list.len() ==> (#[trigger] list[i]).0 != key,
    ensures
        with_entry(list, key, value) == list.push((key, value)),
{
}

/// A list is in line with its own table.
pub proof fn lemma_relisted_same<V>(list: Seq<(Seq<u8>, V)>, key: Seq<u8>)
    requires
        distinct_keys(list),
    ensures
        relisted(list, key, as_table(list)) == list,
{
    if has_key(list, key) {
        let i = choose|i: int| 0 <= i < list.len() && (#[trigger] list[i]).0 == key;
        lemma_entry(list, i);
        law_known_keys_keep_their_place(list, i, list[i].1);
        assert(list.update(i, (key, list[i].1)) =~= list);
    } else {
        law_unknown_keys_are_not_taken_out(list, key);
    }
}

proof fn lemma_with_entry<V>(list: Seq<(Seq<u8>, V)>, key: Seq<u8>, value: V)
    requires
        distinct_keys(list),
    ensures
        distinct_keys(with_entry(list, key, value)),
        as_table(with_entry(list, key, value)) == as_table(list).insert(key, value),
        without_key(with_entry(list, key, value), key) == without_key(list, key),
{
    let next = with_entry(list, key, value);
    if has_key(list, key) {
        let i = choose|i: int| 0 <= i < list.len() && (#[trigger] list[i]).0 == key;
        law_known_keys_keep_their_place(list, i, value);
        lemma_update(list, i, value);
        law_listed_keys_are_taken_out(list, i);
        law_listed_keys_are_taken_out(next, i);
        assert(next.remove(i) =~= list.remove(i));
    } else {
        lemma_push(list, key, value);
        law_unknown_keys_are_not_taken_out(list, key);
        law_listed_keys_are_taken_out(next, list.len() as int);
        assert(next.remove(list.len() as int) =~= list);
    }
}

proof fn lemma_without_key<V>(list: Seq<(Seq<u8>, V)>, key: Seq<u8>)
    requires
        distinct_keys(list),
    ensures
        distinct_keys(without_key(list, key)),
        as_table(without_key(list, key)) == as_table(list).remove(key),
        without_key(without_key(list, key), key) == without_key(list, key),
{
    if has_key(list, key) {
        let i = choose|i: int| 0 <= i < list.len() && (#[trigger] list[i]).0 == key;
        law_listed_keys_are_taken_out(list, i);
        lemma_remove(list, i);
        assert(!as_table(list.remove(i)).contains_key(key));
        law_unknown_keys_are_not_taken_out(list.remove(i), key);
    } else {
        law_unknown_keys_are_not_taken_out(list, key);
        assert(as_table(list) =~= as_table(list).remove(key));
    }
}

/// Bringing a list in line on one key leaves the entries of all others as they
/// are, in their order, and makes the list one of the table.
pub proof fn lemma_relisted<V>(list: Seq<(Seq<u8>, V)>, key: Seq<u8>, table: Map<Seq<u8>, V>)
    requires
        distinct_keys(list),
        table == as_table(list).remove(key) || table == as_table(list).insert(key, table[key]),
    ensures
        distinct_keys(relisted(list, key, table)),
        as_table(relisted(list, key, table)) == table,
        without_key(relisted(list, key, table), key) == without_key(list, key),
{
    if table.contains_key(key) {
        lemma_with_entry(list, key, table[key]);
    } else {
        lemma_without_key(list, key);
    }
}

/// A table from byte strings to small values.
#[derive(Debug)]
pub struct ByteTable<V> {
    entries: Vec<(Vec<u8>, V)>,
}

impl<V> ByteTable<V> {
    /// The entries in the order in which the table holds them.
    pub closed spec fn listing(&self) -> Seq<(Seq<u8>, V)> {
        Seq::new(self.entries@.len(), |i: int| (self.entries@[i].0@, self.entries@[i].1))
    }

    /// Each key has at most one entry.
    pub open spec fn wf(&self) -> bool {
        distinct_keys(self.listing())
    }
}

impl<V> View for ByteTable<V> {
    type V = Map<Seq<u8>, V>;

    open spec fn view(&self) -> Map<Seq<u8>, V> {
        as_table(self.listing())
    }
}

impl<V: Copy> ByteTable<V> {
    /// The empty table.
    pub fn new() -> (table: ByteTable<V>)
        ensures
            table.wf(),
            table.listing() == Seq::<(Seq<u8>, V)>::empty(),
            table@ == Map::<Seq<u8>, V>::empty(),
    {
        let table = ByteTable { entries: Vec::new() };
        assert(table.listing() =~= Seq::<(Seq<u8>, V)>::empty());
        assert(table@ =~= Map::<Seq<u8>, V>::empty());
        table
    }

    /// The number of entries.
    pub fn len(&self) -> (n: usize)
        ensures
            n == self.listing().len(),
    {
        self.entries.len()
    }

    /// The key of the entry at a place in the listing.
    pub fn key_at(&self, i: usize) -> (key: &Vec<u8>)
        requires
            i < self.listing().len(),
        ensures
            key@ == self.listing()[i as int].0,
    {
        &self.entries[i].0
    }

    /// The value of the entry at a place in the listing.
    pub fn value_at(&self, i: usize) -> (value: V)
        requires
            i < self.listing().len(),
        ensures
            value == self.listing()[i as int].1,
    {
        self.entries[i].1
    }

    /// Where the key's entry stands in the listing.
    fn find(&self, key: &Vec<u8>) -> (place: Option<usize>)
        ensures
            match place {
                Some(i) => i < self.listing().len() && self.listing()[i as int].0 == key@,
                None => !has_key(self.listing(), key@),
            },
    {
        let mut i: usize = 0;
        while i < self.entries.len()
            invariant
                i <= self.entries.len(),
                forall|j: int| 0 <= j < i ==> (#[trigger] self.listing()[j]).0 != key@,
            decreases self.entries.len() - i,
        {
            if bytes_eq(&self.entries[i].0, key) {
                return Some(i);
            }
            i = i + 1;
        }
        None
    }

    /// The key's value, if it has one.
    pub fn get(&self, key: &Vec<u8>) -> (value: Option<V>)
        requires
            self.wf(),
        ensures
            value == (if self@.contains_key(key@) {
                Some(self@[key@])
            } else {
                None
            }),
    {
        match self.find(key) {
            Some(i) => {
                proof {
                    lemma_entry(self.listing(), i as int);
                }
                Some(self.entries[i].1)
            },
            None => None,
        }
    }

    /// Gives the key a value, in place of any it had. A new key comes last.
    pub fn insert(&mut self, key: Vec<u8>, value: V)
        requires
            old(self).wf(),
        ensures
            final(self).wf(),
            final(self)@ == old(self)@.insert(key@, value),
            final(self).listing() == with_entry(old(self).listing(), key@, value),
    {
        match self.find(&key) {
            Some(i) => {
                proof {
                    law_known_keys_keep_their_place(self.listing(), i as int, value);
                }
                self.set_at(i, value);
            },
            None => {
                self.entries.push((key, value));
                proof {
                    lemma_push(old(self).listing(), key@, value);
                    assert(self.listing() =~= old(self).listing().push((key@, value)));
                }
            },
        }
    }

    /// Replaces the value of the entry at a place in the listing.
    pub fn set_at(&mut self, i: usize, value: V)
        requires
            old(self).wf(),
            i < old(self).listing().len(),
        ensures
            final(self).wf(),
            final(self).listing() == old(self).listing().update(
                i as int,
                (old(self).listing()[i as int].0, value),
            ),
            final(self)@ == old(self)@.insert(old(self).listing()[i as int].0, value),
    {
        let key = bytes_copy(&self.entries[i].0);
        self.entries.set(i, (key, value));
        proof {
            lemma_update(old(self).listing(), i as int, value);
            assert(self.listing() =~= old(self).listing().update(
                i as int,
                (old(self).listing()[i as int].0, value),
            ));
        }
    }

    /// Takes out the entry at a place in the listing.
    pub fn remove_at(&mut self, i: usize)
        requires
            old(self).wf(),
            i < old(self).listing().len(),
        ensures
            final(self).wf(),
            final(self).listing() == old(self).listing().remove(i as int),
            final(self)@ == old(self)@.remove(old(self).listing()[i as int].0),
    {
        self.entries.remove(i);
        proof {
            lemma_remove(old(self).listing(), i as int);
            assert(self.listing() =~= old(self).listing().remove(i as int));
        }
    }

    /// Takes out the key's entry, if it has one. The others keep their order.
    pub fn remove(&mut self, key: &Vec<u8>)
        requires
            old(self).wf(),
        ensures
            final(self).wf(),
            final(self)@ == old(self)@.remove(key@),
            final(self).listing() == without_key(old(self).listing(), key@),
    {
        match self.find(key) {
            Some(i) => {
                proof {
                    law_listed_keys_are_taken_out(self.listing(), i as int);
                }
                self.remove_at(i);
            },
            None => {
                proof {
                    law_unknown_keys_are_not_taken_out(self.listing(), key@);
                }
                assert(self@ =~= old(self)@.remove(key@));
            },
        }
    }
}

} // verus!
