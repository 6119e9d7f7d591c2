//! A stable sort by descending key.

use vstd::prelude::*;

verus! {

/// The place at which an item with key `key` joins a list whose keys are `keys`: before
/// the first item with a smaller key, so behind every item with the same key.
pub open spec fn insert_at(keys: Seq<u32>, key: u32) -> int
    decreases keys.len(),
{
    if keys.len() == 0 {
        0
    } else if keys.first() < key {
        0
    } else {
        1 + insert_at(keys.drop_first(), key)
    }
}

/// The keys `keys`, put in descending order.
pub open spec fn sorted_keys(keys: Seq<u32>) -> Seq<u32>
    decreases keys.len(),
{
    if keys.len() == 0 {
        Seq::empty()
    } else {
        let before = sorted_keys(keys.drop_last());
        before.insert(insert_at(before, keys.last()), keys.last())
    }
}

/// The items `items`, put in descending order of their keys `keys`; items with the same
/// key stay in the order they had.
pub open spec fn sorted_desc<T>(items: Seq<T>, keys: Seq<u32>) -> Seq<T>
    decreases items.len(),
{
    if items.len() == 0 || keys.len() != items.len() {
        Seq::empty()
    } else {
        let before = sorted_desc(items.drop_last(), keys.drop_last());
        before.insert(insert_at(sorted_keys(keys.drop_last()), keys.last()), items.last())
    }
}

/// The place of insertion lies in the list or at its end; the keys before it are at
/// least `key`, and the key at it, if there is one, is smaller.
pub proof fn lemma_insert_at(keys: Seq<u32>, key: u32)
    ensures
        0 <= insert_at(keys, key) <= keys.len(),
        forall|i: int| 0 <= i < insert_at(keys, key) ==> keys[i] >= key,
        insert_at(keys, key) < keys.len() ==> keys[insert_at(keys, key)] < key,
    decreases keys.len(),
{
    if keys.len() > 0 && keys.first() >= key {
        lemma_insert_at(keys.drop_first(), key);
        assert forall|i: int| 0 <= i < insert_at(keys, key) implies keys[i] >= key by {
            if i > 0 {
                assert(keys[i] == keys.drop_first()[i - 1]);
            }
        }
    }
}

/// Sorting keeps the number of items, and of keys.
pub proof fn lemma_sorted_len<T>(items: Seq<T>, keys: Seq<u32>)
    requires
        keys.len() == items.len(),
    ensures
        sorted_desc(items, keys).len() == items.len(),
        sorted_keys(keys).len() == keys.len(),
    decreases items.len(),
{
    if items.len() > 0 {
        lemma_sorted_len(items.drop_last(), keys.drop_last());
        lemma_insert_at(sorted_keys(keys.drop_last()), keys.last());
    }
}

/// The place at which an item with key `key` joins the list.
fn find_place(keys: &Vec<u32>, key: u32) -> (place: usize)
    ensures
        place == insert_at(keys@, key),
        place <= keys.len(),
{
    let mut place: usize = 0;
    proof {
        assert(keys@.skip(0) =~= keys@);
    }
    while place < keys.len() && keys[place] >= key
        invariant
            place <= keys.len(),
            insert_at(keys@, key) == place + insert_at(keys@.skip(place as int), key),
        decreases keys.len() - place,
    {
        proof {
            let rest = keys@.skip(place as int);
            assert(rest.first() == keys@[place as int]);
            assert(rest.drop_first() =~= keys@.skip(place + 1));
        }
        place += 1;
    }
    proof {
        let rest = keys@.skip(place as int);
        if place < keys.len() {
            assert(rest.first() == keys@[place as int]);
        }
    }
    place
}

/// Sorts the items by descending key; items with the same key stay in the order they
/// had.
pub fn sort_desc<T: Copy>(items: &Vec<T>, keys: &Vec<u32>) -> (sorted: Vec<T>)
    requires
        keys.len() == items.len(),
    ensures
        sorted@ == sorted_desc(items@, keys@),
        sorted@.len() == items@.len(),
{
    let mut sorted: Vec<T> = Vec::new();
    let mut sorted_ks: Vec<u32> = Vec::new();
    let mut i: usize = 0;
    while i < items.len()
        invariant
            i <= items.len(),
            keys.len() == items.len(),
            sorted@ == sorted_desc(items@.take(i as int), keys@.take(i as int)),
            sorted_ks@ == sorted_keys(keys@.take(i as int)),
            sorted@.len() == i,
            sorted_ks@.len() == i,
        decreases items.len() - i,
    {
        let place = find_place(&sorted_ks, keys[i]);
        proof {
            assert(items@.take(i + 1).drop_last() =~= items@.take(i as int));
            assert(keys@.take(i + 1).drop_last() =~= keys@.take(i as int));
            assert(items@.take(i + 1).last() == items@[i as int]);
            assert(keys@.take(i + 1).last() == keys@[i as int]);
        }
        sorted.insert(place, items[i]);
        sorted_ks.insert(place, keys[i]);
        i += 1;
    }
    proof {
        assert(items@.take(i as int) =~= items@);
        assert(keys@.take(i as int) =~= keys@);
    }
    sorted
}

/// Sorting keeps the items: the sorted list holds what the list held.
pub proof fn lemma_sorted_members<T>(items: Seq<T>, keys: Seq<u32>, item: T)
    requires
        keys.len() == items.len(),
    ensures
        sorted_desc(items, keys).contains(item) <==> items.contains(item),
    decreases items.len(),
{
    if items.len() > 0 {
        let shorter = items.drop_last();
        let before = sorted_desc(shorter, keys.drop_last());
        let place = insert_at(sorted_keys(keys.drop_last()), keys.last());
        lemma_sorted_members(shorter, keys.drop_last(), item);
        lemma_sorted_len(shorter, keys.drop_last());
        lemma_insert_at(sorted_keys(keys.drop_last()), keys.last());
        let after = before.insert(place, items.last());
        if after.contains(item) {
            let k = choose|k: int| 0 <= k < after.len() && after[k] == item;
            if k < place {
                assert(before[k] == item);
            } else if k > place {
                assert(before[k - 1] == item);
            }
            if k != place {
                assert(before.contains(item));
                let m = choose|m: int| 0 <= m < shorter.len() && shorter[m] == item;
                assert(items[m] == item);
            } else {
                assert(items[items.len() - 1] == item);
            }
        }
        if items.contains(item) {
            let m = choose|m: int| 0 <= m < items.len() && items[m] == item;
            if m < shorter.len() {
                assert(shorter[m] == item);
                assert(before.contains(item));
                let k = choose|k: int| 0 <= k < before.len() && before[k] == item;
                if k < place {
                    assert(after[k] == item);
                } else {
                    assert(after[k + 1] == item);
                }
            } else {
                assert(after[place] == item);
            }
        }
    }
}

/// Sorting a list and then applying a function to each item gives what sorting the
/// list of the function's results gives.
pub proof fn lemma_sorted_map<T, R>(items: Seq<T>, keys: Seq<u32>, f: spec_fn(T) -> R)
    requires
        keys.len() == items.len(),
    ensures
        sorted_desc(items, keys).map_values(f) == sorted_desc(items.map_values(f), keys),
    decreases items.len(),
{
    if items.len() > 0 {
        let shorter = items.drop_last();
        lemma_sorted_map(shorter, keys.drop_last(), f);
        lemma_sorted_len(shorter, keys.drop_last());
        lemma_insert_at(sorted_keys(keys.drop_last()), keys.last());
        assert(items.map_values(f).drop_last() =~= shorter.map_values(f));
        let place = insert_at(sorted_keys(keys.drop_last()), keys.last());
        assert(sorted_desc(shorter, keys.drop_last()).insert(place, items.last()).map_values(f)
            =~= sorted_desc(shorter, keys.drop_last()).map_values(f).insert(place, f(items.last())));
    } else {
        assert(sorted_desc(items, keys).map_values(f) =~= sorted_desc(items.map_values(f), keys));
    }
}

} // verus!
